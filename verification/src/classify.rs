//! Client taxonomy and relevance rules.
//!
//! Classification operates on the advertised user agent (lowercased), the
//! advertised block height, and the crawler's tip estimate. `client_type`
//! and `classify_client` are two names for the one client taxonomy, in
//! which a `MagicBean` of major version 6 or more counts as `flux`; the
//! summary's network-type tag applies a separate rule of its own.

use vstd::prelude::*;

use crate::network::KnownNode;
use crate::strutil::{
    contains_seq, digits_val, find_char, find_sub, first_char_idx, first_match_idx, is_digit_seq,
    match_at, parse_digits_u32, starts_with_seq, str_contains, str_starts_with,
};

verus! {

/// Heights below this are never relevant.
pub const MIN_RELEVANT_HEIGHT: i32 = 2_500_000;

/// How far a zebra node's height may sit from the tip estimate.
pub const ZEBRA_HEIGHT_TOLERANCE: i32 = 20_000;

/// How far a zcashd node's height may sit from the tip estimate; zcashd
/// nodes are often still syncing, so this is looser.
pub const ZCASHD_HEIGHT_TOLERANCE: i32 = 100_000;

/// What `str::to_lowercase` returns; the result depends on the characters
/// alone.
pub uninterp spec fn lower_of(s: Seq<char>) -> Seq<char>;

/// Relies on str::to_lowercase to fold the user agent's case.
#[verifier::external_body]
fn lowercase(s: &str) -> (r: String)
    ensures
        r@ == lower_of(s@),
{
    s.to_lowercase()
}

/// The `MagicBean` major version read from a lowercased user agent: the
/// digits between the first `magicbean:` and the next `.`, if they form a
/// number that fits in a `u32`.
#[verifier::opaque]
pub open spec fn mb_major_of(l: Seq<char>) -> Option<u32> {
    let pat = "magicbean:"@;
    if contains_seq(l, pat) {
        let rest = l.skip(first_match_idx(l, pat) + pat.len() as int);
        if exists|k: int| 0 <= k < rest.len() && rest[k] == '.' {
            let ds = rest.subrange(0, first_char_idx(rest, '.'));
            if is_digit_seq(ds) && ds.len() >= 1 && digits_val(ds) <= u32::MAX {
                Some(digits_val(ds) as u32)
            } else {
                None
            }
        } else {
            None
        }
    } else {
        None
    }
}

/// The four client families the crawler distinguishes.
#[derive(Clone, Copy, PartialEq, Eq, Structural, Debug)]
pub enum ClientKind {
    Zcashd,
    Zebra,
    Flux,
    Other,
}

/// The name under which a client family is reported.
pub open spec fn kind_name_spec(k: ClientKind) -> Seq<char> {
    match k {
        ClientKind::Zcashd => "zcashd"@,
        ClientKind::Zebra => "zebra"@,
        ClientKind::Flux => "flux"@,
        ClientKind::Other => "other"@,
    }
}

/// The informational client taxonomy, over the lowercased user agent:
/// anything saying `flux` is flux, a `MagicBean` with major version 6 or
/// more is flux too, other `MagicBean`s are zcashd, `zebra` is zebra, and
/// the rest are other.
#[verifier::opaque]
pub open spec fn client_kind_spec(l: Seq<char>) -> ClientKind {
    if contains_seq(l, "flux"@) {
        ClientKind::Flux
    } else if contains_seq(l, "magicbean"@) {
        if mb_major_of(l) matches Some(m) && m >= 6 {
            ClientKind::Flux
        } else {
            ClientKind::Zcashd
        }
    } else if contains_seq(l, "zebra"@) {
        ClientKind::Zebra
    } else {
        ClientKind::Other
    }
}

/// See [`client_kind_spec`]; the name and flag derive from the kind.
pub open spec fn client_type_spec(l: Seq<char>) -> (Seq<char>, bool) {
    (kind_name_spec(client_kind_spec(l)), client_kind_spec(l) == ClientKind::Flux)
}

/// See [`client_kind_spec`]; `classify_client` reports the same taxonomy.
pub open spec fn classify_client_spec(l: Seq<char>) -> (Seq<char>, bool) {
    client_type_spec(l)
}

/// The informational client family of a raw user agent.
pub fn client_kind(ua: &str) -> (r: ClientKind)
    ensures
        r == client_kind_spec(lower_of(ua@)),
{
    proof {
        reveal(client_kind_spec);
    }
    let lower = lowercase(ua);
    let l = lower.as_str();
    if str_contains(l, "flux") {
        return ClientKind::Flux;
    }
    if str_contains(l, "magicbean") {
        match mb_major(l) {
            Some(m) => {
                if m >= 6 {
                    return ClientKind::Flux;
                }
            }
            None => {},
        }
        return ClientKind::Zcashd;
    }
    if str_contains(l, "zebra") {
        return ClientKind::Zebra;
    }
    ClientKind::Other
}

/// The reported name of a client family.
pub fn client_kind_name(k: ClientKind) -> (r: String)
    ensures
        r@ == kind_name_spec(k),
{
    match k {
        ClientKind::Zcashd => zcashd_name(),
        ClientKind::Zebra => zebra_name(),
        ClientKind::Flux => flux_name(),
        ClientKind::Other => other_name(),
    }
}

/// Reads the `MagicBean` major version out of an already-lowercased agent
/// string.
fn mb_major(l: &str) -> (r: Option<u32>)
    ensures
        r == mb_major_of(l@),
{
    let pat = "magicbean:";
    proof {
        reveal(mb_major_of);
        reveal_strlit("magicbean:");
    }
    match find_sub(l, pat) {
        Some(i) => {
            let ll = l.unicode_len();
            let rest = l.substring_char(i + 10, ll);
            proof {
                assert(pat@.len() == 10);
                assert(match_at(l@, pat@, i as int));
                assert(rest@ =~= l@.skip(first_match_idx(l@, pat@) + pat@.len() as int));
            }
            match find_char(rest, '.') {
                Some(d) => {
                    let v = parse_digits_u32(rest, d);
                    proof {
                        if v is None {
                            assert(mb_major_of(l@) is None);
                        }
                    }
                    v
                }
                None => None,
            }
        }
        None => None,
    }
}

/// The informational client taxonomy of a raw user agent; see
/// [`client_type_spec`]. Returns the type name and the flux verdict.
pub fn client_type(ua: &str) -> (r: (String, bool))
    ensures
        ({
            let (t, f) = client_type_spec(lower_of(ua@));
            r.0@ == t && r.1 == f
        }),
{
    let k = client_kind(ua);
    (client_kind_name(k), k == ClientKind::Flux)
}

/// The client taxonomy of a raw user agent, under its second public
/// name; see [`classify_client_spec`]. Returns the type name and the
/// flux verdict.
pub fn classify_client(ua: &str) -> (r: (String, bool))
    ensures
        ({
            let (t, f) = classify_client_spec(lower_of(ua@));
            r.0@ == t && r.1 == f
        }),
{
    let k = client_kind(ua);
    (client_kind_name(k), k == ClientKind::Flux)
}

pub fn flux_name() -> (r: String)
    ensures
        r@ == "flux"@,
{
    String::from_str("flux")
}

pub fn zcashd_name() -> (r: String)
    ensures
        r@ == "zcashd"@,
{
    String::from_str("zcashd")
}

pub fn zebra_name() -> (r: String)
    ensures
        r@ == "zebra"@,
{
    String::from_str("zebra")
}

pub fn other_name() -> (r: String)
    ensures
        r@ == "other"@,
{
    String::from_str("other")
}

/// Relevance of a record, over its lowercased agent and heights: the agent
/// must open with `/magicbean` or `/zebra`, must not say `flux`, a
/// `MagicBean` major version must stay below 6, the height must reach
/// [`MIN_RELEVANT_HEIGHT`], and the height must sit within the client's
/// tolerance of the tip estimate.
#[verifier::opaque]
pub open spec fn relevant_spec(l: Seq<char>, height: i32, tip: i32) -> bool {
    &&& starts_with_seq(l, "/magicbean"@) || starts_with_seq(l, "/zebra"@)
    &&& !contains_seq(l, "flux"@)
    &&& !(mb_major_of(l) matches Some(m) && m >= 6)
    &&& height >= MIN_RELEVANT_HEIGHT
    &&& if starts_with_seq(l, "/zebra"@) {
        -(ZEBRA_HEIGHT_TOLERANCE as int) <= height - tip <= ZEBRA_HEIGHT_TOLERANCE as int
    } else {
        -(ZCASHD_HEIGHT_TOLERANCE as int) <= height - tip <= ZCASHD_HEIGHT_TOLERANCE as int
    }
}

/// Relevance of a whole record: no user agent means not relevant, and a
/// missing height counts as zero.
pub open spec fn relevant_node_spec(n: KnownNode, tip: i32) -> bool {
    match n.user_agent {
        Some(ua) => relevant_spec(
            lower_of(ua@),
            match n.start_height {
                Some(h) => h,
                None => 0,
            },
            tip,
        ),
        None => false,
    }
}

/// Is this record a useful Zcash mainnet peer? See [`relevant_spec`].
pub fn is_relevant_zcash_node(node: &KnownNode, tip: i32) -> (r: bool)
    ensures
        r == relevant_node_spec(*node, tip),
{
    proof {
        reveal(relevant_spec);
    }
    let ua: &String = match &node.user_agent {
        Some(u) => u,
        None => {
            return false;
        }
    };
    let lower = lowercase(ua.as_str());
    let l = lower.as_str();
    let zebra = str_starts_with(l, "/zebra");
    if !str_starts_with(l, "/magicbean") && !zebra {
        return false;
    }
    if str_contains(l, "flux") {
        return false;
    }
    match mb_major(l) {
        Some(m) => {
            if m >= 6 {
                return false;
            }
        }
        None => {},
    }
    let h: i32 = match node.start_height {
        Some(h) => h,
        None => 0,
    };
    if h < MIN_RELEVANT_HEIGHT {
        return false;
    }
    let diff: i64 = (h as i64) - (tip as i64);
    let tol: i64 = if zebra {
        ZEBRA_HEIGHT_TOLERANCE as i64
    } else {
        ZCASHD_HEIGHT_TOLERANCE as i64
    };
    if diff > tol || diff < -tol {
        return false;
    }
    true
}

/// In either taxonomy, the flux flag is raised exactly when the reported
/// client type is `flux`: the flag and the name never disagree.
pub proof fn lemma_flux_flag_matches_type(l: Seq<char>)
    ensures
        client_type_spec(l).1 <==> client_type_spec(l).0 == "flux"@,
        classify_client_spec(l).1 <==> classify_client_spec(l).0 == "flux"@,
{
    reveal(client_kind_spec);
    reveal_strlit("flux");
    reveal_strlit("zcashd");
    reveal_strlit("zebra");
    reveal_strlit("other");
    assert("flux"@.len() == 4);
    assert("zcashd"@.len() == 6);
    assert("zebra"@.len() == 5);
    assert("other"@.len() == 5);
    assert("zebra"@[0] == 'z' && "other"@[0] == 'o');
}

} // verus!
