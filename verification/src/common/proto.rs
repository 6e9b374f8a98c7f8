//! The wire version both binaries use, and the rule for reading a peer's.
//!
//! The daemon and the router check each other's `proto`, so the constant and
//! the comparison live in one place. A second copy would drift, and the
//! symptom is a cluster that refuses links for a version it does in fact
//! understand.

use vstd::prelude::*;

use crate::common::text::{
    digits, is_digits, same, split_first, split_once, strip_front, trim_start_matches,
};

verus! {

/// The wire version this build uses, `major.minor`.
pub const PROTO: &'static str = "0.99";

/// The major of a `major.minor` version, with leading zeros gone. None for
/// anything outside `<digits>.<digits>`.
pub open spec fn major_of(v: Seq<char>) -> Option<Seq<char>> {
    match split_first(v, '.') {
        None => None,
        Some((maj, rest)) => if !digits(maj) || !digits(rest) {
            None
        } else if strip_front(maj, '0').len() == 0 {
            Some("0"@)
        } else {
            Some(strip_front(maj, '0'))
        },
    }
}

/// The two majors that accept each other while 0.99 becomes 1.0.
///
/// Both ends of every link check the other's version, so a 1.0 build that
/// reads 0.99 covers half a rolling upgrade. The other half is a 0.99 build
/// that reads 1.0.
pub open spec fn cutover(m: Seq<char>) -> bool {
    m == "0"@ || m == "1"@
}

/// Whether a build of version `mine` accepts a peer of version `peer`.
pub open spec fn compatible(mine: Seq<char>, peer: Seq<char>) -> bool {
    match (major_of(mine), major_of(peer)) {
        (Some(a), Some(b)) => a == b || (cutover(a) && cutover(b)),
        _ => false,
    }
}

/// The major of a `major.minor` version, with leading zeros gone, so `00.1`
/// and `0.1` give one answer. None for anything outside that grammar.
pub fn major(v: &str) -> (r: Option<&str>)
    ensures
        match r {
            Some(m) => major_of(v@) == Some(m@),
            None => major_of(v@) is None,
        },
{
    match split_once(v, '.') {
        None => None,
        Some((maj, rest)) => {
            if !is_digits(maj) || !is_digits(rest) {
                return None;
            }
            let trimmed = trim_start_matches(maj, '0');
            if trimmed.is_empty() {
                Some("0")
            } else {
                Some(trimmed)
            }
        },
    }
}

/// Whether a build of version `mine` accepts a peer of version `peer`.
pub fn accepts(mine: &str, peer: &str) -> (r: bool)
    ensures
        r == compatible(mine@, peer@),
{
    match (major(mine), major(peer)) {
        (Some(a), Some(b)) => same(a, b) || ((same(a, "0") || same(a, "1")) && (same(b, "0")
            || same(b, "1"))),
        _ => false,
    }
}

/// Whether `peer` shares this build's major.
///
/// A major bump changes a field's type or meaning, so a mismatch refuses the
/// link. A minor difference is compatible both ways, since a receiver keeps
/// the fields it knows and drops the rest. A version outside
/// `<digits>.<digits>` is refused.
pub fn major_matches(peer: &str) -> (r: bool)
    ensures
        r == compatible(PROTO@, peer@),
{
    accepts(PROTO, peer)
}

/// `PROTO` as a `String`, for the message fields that hold one.
pub fn proto() -> (r: String)
    ensures
        r@ == PROTO@,
{
    PROTO.to_string()
}

/// Both ends of a link agree whether to keep it.
pub proof fn law_versions_agree_both_ways(a: Seq<char>, b: Seq<char>)
    ensures
        compatible(a, b) == compatible(b, a),
{
}

} // verus!
