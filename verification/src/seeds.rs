//! The seed resolver's own grammar: splitting a seed string into the
//! host to resolve and the port to use.
//!
//! A seed that is already a numeric socket address or a bare IP is
//! recognized by the standard library's address parser in the shell; what
//! is verified here is the seed-specific rule for everything else: the
//! rightmost `:N` is stripped as a port override when `N` is a port
//! number, and the remainder goes to host resolution.

use vstd::prelude::*;

use crate::strutil::{digits_val, is_digit_seq, parse_digits_u32};

verus! {

/// The position of the last colon in `s`.
pub open spec fn last_colon_idx(s: Seq<char>) -> int {
    choose|i: int|
        0 <= i < s.len() && s[i] == ':' && (forall|j: int| i < j < s.len() ==> s[j] != ':')
}

pub open spec fn has_colon(s: Seq<char>) -> bool {
    exists|i: int| 0 <= i < s.len() && s[i] == ':'
}

/// A last colon is the last colon.
pub proof fn lemma_last_colon_idx(s: Seq<char>, c: int)
    requires
        0 <= c < s.len(),
        s[c] == ':',
        forall|j: int| c < j < s.len() ==> s[j] != ':',
    ensures
        last_colon_idx(s) == c,
{
    let k = last_colon_idx(s);
    assert(0 <= k < s.len() && s[k] == ':' && (forall|j: int| k < j < s.len() ==> s[j] != ':'));
    if k < c {
        assert(s[c] != ':');
    }
    if c < k {
        assert(s[k] != ':');
    }
}

/// What follows the last colon counts as a port override when it is a
/// nonempty digit string that fits in a port number.
pub open spec fn port_suffix_ok(s: Seq<char>) -> bool {
    let suf = s.subrange(last_colon_idx(s) + 1, s.len() as int);
    is_digit_seq(suf) && suf.len() >= 1 && digits_val(suf) <= u16::MAX
}

/// The seed-splitting rule: with a valid port override, the host is
/// everything before the last colon and the port is the override; else
/// the whole string resolves under the default port.
pub open spec fn host_split_spec(s: Seq<char>, default_port: u16) -> (Seq<char>, u16) {
    if has_colon(s) && port_suffix_ok(s) {
        (
            s.subrange(0, last_colon_idx(s)),
            digits_val(s.subrange(last_colon_idx(s) + 1, s.len() as int)) as u16,
        )
    } else {
        (s, default_port)
    }
}

/// Splits a seed string into the host to resolve and the port to use;
/// see [`host_split_spec`].
pub fn split_seed_host(s: &str, default_port: u16) -> (r: (String, u16))
    ensures
        ({
            let (h, p) = host_split_spec(s@, default_port);
            r.0@ == h && r.1 == p
        }),
{
    let n = s.unicode_len();
    let mut last: Option<usize> = None;
    let mut i: usize = 0;
    while i < n
        invariant
            n == s@.len(),
            i <= n,
            match last {
                Some(c) => c < i && s@[c as int] == ':' && (forall|j: int|
                    c < j < i ==> s@[j] != ':'),
                None => forall|j: int| 0 <= j < i ==> s@[j] != ':',
            },
        decreases n - i,
    {
        if s.get_char(i) == ':' {
            last = Some(i);
        }
        i = i + 1;
    }
    match last {
        Some(c) => {
            proof {
                lemma_last_colon_idx(s@, c as int);
            }
            let suf = s.substring_char(c + 1, n);
            let sn = suf.unicode_len();
            proof {
                assert(suf@ =~= s@.subrange(c + 1, s@.len() as int));
            }
            let port_val = parse_digits_u32(suf, sn);
            match port_val {
                Some(v) => {
                    if v <= u16::MAX as u32 {
                        proof {
                            assert(suf@.subrange(0, sn as int) =~= suf@);
                            assert(port_suffix_ok(s@));
                        }
                        let host = s.substring_char(0, c);
                        return (host.to_owned(), v as u16);
                    }
                    proof {
                        assert(suf@.subrange(0, sn as int) =~= suf@);
                        assert(!port_suffix_ok(s@));
                    }
                    (s.to_owned(), default_port)
                }
                None => {
                    proof {
                        assert(suf@.subrange(0, sn as int) =~= suf@);
                        assert(!port_suffix_ok(s@));
                    }
                    (s.to_owned(), default_port)
                }
            }
        }
        None => {
            proof {
                assert(!has_colon(s@));
            }
            (s.to_owned(), default_port)
        }
    }
}

} // verus!
