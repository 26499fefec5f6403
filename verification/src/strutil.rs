//! Verified helpers over character sequences: substring search, prefix
//! tests, and decimal parsing. They back the user-agent classification.

use vstd::prelude::*;

verus! {

/// `n` occurs in `h` starting at position `i`.
pub open spec fn match_at(h: Seq<char>, n: Seq<char>, i: int) -> bool {
    0 <= i && i + n.len() <= h.len() && h.subrange(i, i + n.len()) == n
}

/// `n` occurs somewhere in `h`.
pub open spec fn contains_seq(h: Seq<char>, n: Seq<char>) -> bool {
    exists|i: int| match_at(h, n, i)
}

/// `h` begins with `n`.
pub open spec fn starts_with_seq(h: Seq<char>, n: Seq<char>) -> bool {
    match_at(h, n, 0)
}

/// The position of the first occurrence of `n` in `h`.
pub open spec fn first_match_idx(h: Seq<char>, n: Seq<char>) -> int {
    choose|i: int|
        match_at(h, n, i) && (forall|j: int| 0 <= j < i ==> !match_at(h, n, j))
}

/// A first occurrence is the first occurrence.
pub proof fn lemma_first_match_idx(h: Seq<char>, n: Seq<char>, r: int)
    requires
        match_at(h, n, r),
        forall|j: int| 0 <= j < r ==> !match_at(h, n, j),
    ensures
        first_match_idx(h, n) == r,
{
    let c = first_match_idx(h, n);
    assert(match_at(h, n, c) && (forall|j: int| 0 <= j < c ==> !match_at(h, n, j)));
    if c < r {
        assert(!match_at(h, n, c));
    }
    if r < c {
        assert(!match_at(h, n, r));
    }
}

/// The position of the first occurrence of the character `c` in `s`.
pub open spec fn first_char_idx(s: Seq<char>, c: char) -> int {
    choose|i: int|
        0 <= i < s.len() && s[i] == c && (forall|j: int| 0 <= j < i ==> s[j] != c)
}

pub proof fn lemma_first_char_idx(s: Seq<char>, c: char, r: int)
    requires
        0 <= r < s.len(),
        s[r] == c,
        forall|j: int| 0 <= j < r ==> s[j] != c,
    ensures
        first_char_idx(s, c) == r,
{
    let k = first_char_idx(s, c);
    assert(0 <= k < s.len() && s[k] == c && (forall|j: int| 0 <= j < k ==> s[j] != c));
    if k < r {
        assert(s[k] != c);
    }
    if r < k {
        assert(s[r] != c);
    }
}

/// Whether `n` occurs in `h` at position `i`, checked character by
/// character. The lengths are passed in so callers do not recount them.
fn match_at_exec(h: &str, hl: usize, n: &str, nl: usize, i: usize) -> (r: bool)
    requires
        hl == h@.len(),
        nl == n@.len(),
        i + nl <= hl,
    ensures
        r == match_at(h@, n@, i as int),
{
    let mut k: usize = 0;
    while k < nl
        invariant
            hl == h@.len(),
            nl == n@.len(),
            i + nl <= hl,
            k <= nl,
            forall|m: int| 0 <= m < k ==> h@[i + m] == n@[m],
        decreases nl - k,
    {
        if h.get_char(i + k) != n.get_char(k) {
            proof {
                assert(h@.subrange(i as int, i + nl) != n@) by {
                    assert(h@.subrange(i as int, i + nl)[k as int] != n@[k as int]);
                }
            }
            return false;
        }
        k = k + 1;
    }
    proof {
        assert(h@.subrange(i as int, i + nl) =~= n@);
    }
    true
}

/// First position of `n` in `h`, if `n` occurs in `h` at all.
pub fn find_sub(h: &str, n: &str) -> (r: Option<usize>)
    ensures
        match r {
            Some(i) => match_at(h@, n@, i as int) && first_match_idx(h@, n@) == i,
            None => !contains_seq(h@, n@),
        },
{
    let hl = h.unicode_len();
    let nl = n.unicode_len();
    if nl > hl {
        proof {
            assert forall|i: int| !match_at(h@, n@, i) by {}
        }
        return None;
    }
    let last = hl - nl;
    let mut i: usize = 0;
    loop
        invariant
            hl == h@.len(),
            nl == n@.len(),
            nl <= hl,
            last == hl - nl,
            i <= last,
            forall|j: int| 0 <= j < i ==> !match_at(h@, n@, j),
        decreases last - i,
    {
        if match_at_exec(h, hl, n, nl, i) {
            proof {
                lemma_first_match_idx(h@, n@, i as int);
            }
            return Some(i);
        }
        if i == last {
            proof {
                assert forall|j: int| !match_at(h@, n@, j) by {
                    if j > last {
                        assert(j + n@.len() > h@.len());
                    }
                }
            }
            return None;
        }
        i = i + 1;
    }
}

/// Whether `n` occurs anywhere in `h`.
pub fn str_contains(h: &str, n: &str) -> (r: bool)
    ensures
        r == contains_seq(h@, n@),
{
    match find_sub(h, n) {
        Some(_) => true,
        None => false,
    }
}

/// Whether `h` begins with `n`.
pub fn str_starts_with(h: &str, n: &str) -> (r: bool)
    ensures
        r == starts_with_seq(h@, n@),
{
    let hl = h.unicode_len();
    let nl = n.unicode_len();
    if nl > hl {
        return false;
    }
    match_at_exec(h, hl, n, nl, 0)
}

/// First position of the character `c` in `s`, if present.
pub fn find_char(s: &str, c: char) -> (r: Option<usize>)
    ensures
        match r {
            Some(i) => i < s@.len() && s@[i as int] == c && first_char_idx(s@, c) == i,
            None => forall|j: int| 0 <= j < s@.len() ==> s@[j] != c,
        },
{
    let n = s.unicode_len();
    let mut i: usize = 0;
    while i < n
        invariant
            n == s@.len(),
            i <= n,
            forall|j: int| 0 <= j < i ==> s@[j] != c,
        decreases n - i,
    {
        if s.get_char(i) == c {
            proof {
                lemma_first_char_idx(s@, c, i as int);
            }
            return Some(i);
        }
        i = i + 1;
    }
    None
}

/// A decimal digit.
pub open spec fn is_digit(c: char) -> bool {
    ('0' as u32) <= (c as u32) && (c as u32) <= ('9' as u32)
}

pub open spec fn digit_val(c: char) -> nat {
    ((c as u32) - ('0' as u32)) as nat
}

pub open spec fn is_digit_seq(s: Seq<char>) -> bool {
    forall|i: int| 0 <= i < s.len() ==> is_digit(#[trigger] s[i])
}

/// The value of a digit string, most significant digit first.
pub open spec fn digits_val(s: Seq<char>) -> nat
    decreases s.len(),
{
    if s.len() == 0 {
        0
    } else {
        digits_val(s.drop_last()) * 10 + digit_val(s.last())
    }
}

/// A prefix of a digit string never exceeds the whole string's value.
pub proof fn lemma_digits_val_prefix_le(s: Seq<char>, i: int)
    requires
        0 <= i <= s.len(),
    ensures
        digits_val(s.subrange(0, i)) <= digits_val(s),
    decreases s.len() - i,
{
    if i == s.len() {
        assert(s.subrange(0, i) =~= s);
    } else {
        lemma_digits_val_prefix_le(s, i + 1);
        let t = s.subrange(0, i + 1);
        assert(t.drop_last() =~= s.subrange(0, i));
        assert(digits_val(t) == digits_val(s.subrange(0, i)) * 10 + digit_val(t.last()));
    }
}

/// Parses the first `end` characters of `s` as a decimal number. Succeeds
/// exactly on nonempty all-digit prefixes whose value fits in a `u32`;
/// leading zeros are accepted.
pub fn parse_digits_u32(s: &str, end: usize) -> (r: Option<u32>)
    requires
        end <= s@.len(),
    ensures
        ({
            let sub = s@.subrange(0, end as int);
            match r {
                Some(v) => is_digit_seq(sub) && sub.len() >= 1 && digits_val(sub) == v,
                None => !(is_digit_seq(sub) && sub.len() >= 1 && digits_val(sub) <= u32::MAX),
            }
        }),
{
    if end == 0 {
        return None;
    }
    let ghost sub = s@.subrange(0, end as int);
    let mut acc: u64 = 0;
    let mut i: usize = 0;
    while i < end
        invariant
            end <= s@.len(),
            i <= end,
            sub == s@.subrange(0, end as int),
            acc <= u32::MAX,
            is_digit_seq(s@.subrange(0, i as int)),
            acc == digits_val(s@.subrange(0, i as int)),
        decreases end - i,
    {
        let c = s.get_char(i);
        let cu = c as u32;
        if cu < '0' as u32 || cu > '9' as u32 {
            proof {
                assert(sub[i as int] == s@[i as int]);
                assert(!is_digit(sub[i as int]));
            }
            return None;
        }
        let d = (cu - '0' as u32) as u64;
        let next: u64 = acc * 10 + d;
        proof {
            let t = s@.subrange(0, i + 1);
            assert(t.drop_last() =~= s@.subrange(0, i as int));
            assert(t.last() == s@[i as int]);
            assert(digits_val(t) == digits_val(s@.subrange(0, i as int)) * 10 + digit_val(
                s@[i as int],
            ));
            assert forall|j: int| 0 <= j < i + 1 implies is_digit(#[trigger] t[j]) by {
                if j < i {
                    assert(is_digit(s@.subrange(0, i as int)[j]));
                }
            }
            assert(is_digit_seq(t));
        }
        if next > u32::MAX as u64 {
            proof {
                lemma_digits_val_prefix_le(sub, i + 1);
                assert(sub.subrange(0, i + 1) =~= s@.subrange(0, i + 1));
                assert(digits_val(s@.subrange(0, i + 1)) > u32::MAX);
            }
            return None;
        }
        acc = next;
        i = i + 1;
    }
    proof {
        assert(s@.subrange(0, i as int) =~= sub);
    }
    Some(acc as u32)
}

} // verus!
