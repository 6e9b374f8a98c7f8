//! Bytes: where one run stands in another, and what text they make.

use vstd::prelude::*;
use vstd::string::*;
use vstd::utf8::{decode_utf8, valid_utf8};

verus! {

/// Whether a run of bytes stands at `i`.
pub open spec fn stands_at(hay: Seq<u8>, needle: Seq<u8>, i: int) -> bool {
    0 <= i && i + needle.len() <= hay.len() && hay.subrange(i, i + needle.len()) == needle
}

/// Where a run of bytes first stands from `i` on.
pub open spec fn first_from(hay: Seq<u8>, needle: Seq<u8>, i: int) -> Option<int>
    decreases hay.len() + 1 - i,
{
    if i < 0 || i + needle.len() > hay.len() {
        None
    } else if stands_at(hay, needle, i) {
        Some(i)
    } else {
        first_from(hay, needle, i + 1)
    }
}

fn matches_at(hay: &[u8], needle: &[u8], i: usize) -> (r: bool)
    requires
        i + needle@.len() <= hay@.len(),
    ensures
        r == stands_at(hay@, needle@, i as int),
{
    let n: usize = hay.len();
    let mut j: usize = 0;
    while j < needle.len()
        invariant
            j <= needle@.len(),
            n == hay@.len(),
            i + needle@.len() <= n,
            forall|k: int| 0 <= k < j ==> hay@[i + k] == #[trigger] needle@[k],
        decreases needle@.len() - j,
    {
        if hay[i + j] != needle[j] {
            proof {
                assert(hay@.subrange(i as int, i + needle@.len())[j as int] != needle@[j as int]);
            }
            return false;
        }
        j += 1;
    }
    proof {
        assert(hay@.subrange(i as int, i + needle@.len()) =~= needle@);
    }
    true
}

/// What a search from a place on finds is there, and nothing before it.
pub proof fn lemma_first_from(hay: Seq<u8>, needle: Seq<u8>, i: int)
    requires
        0 <= i,
    ensures
        match first_from(hay, needle, i) {
            Some(k) => i <= k && stands_at(hay, needle, k) && forall|j: int|
                i <= j < k ==> !stands_at(hay, needle, j),
            None => forall|j: int| i <= j ==> !stands_at(hay, needle, j),
        },
    decreases hay.len() + 1 - i,
{
    if i + needle.len() <= hay.len() && !stands_at(hay, needle, i) {
        lemma_first_from(hay, needle, i + 1);
    }
}

/// Where a run of bytes first stands from `from` on.
pub fn find_from(hay: &[u8], needle: &[u8], from: usize) -> (r: Option<usize>)
    requires
        needle@.len() > 0,
        from <= hay@.len(),
    ensures
        match r {
            Some(i) => first_from(hay@, needle@, from as int) == Some(i as int) && from <= i && i
                + needle@.len() <= hay@.len(),
            None => first_from(hay@, needle@, from as int) is None,
        },
{
    let n: usize = needle.len();
    let mut i: usize = from;
    while i <= hay.len() && hay.len() - i >= n
        invariant
            from <= i <= hay@.len(),
            n == needle@.len(),
            n > 0,
            first_from(hay@, needle@, from as int) == first_from(hay@, needle@, i as int),
        decreases hay@.len() - i,
    {
        if matches_at(hay, needle, i) {
            return Some(i);
        }
        i += 1;
    }
    None
}

/// The bytes from `from` up to `to`.
pub fn part_of(v: &[u8], from: usize, to: usize) -> (r: Vec<u8>)
    requires
        from <= to <= v@.len(),
    ensures
        r@ == v@.subrange(from as int, to as int),
{
    let mut out: Vec<u8> = Vec::new();
    let mut i: usize = from;
    while i < to
        invariant
            from <= i <= to <= v@.len(),
            out@ == v@.subrange(from as int, i as int),
        decreases to - i,
    {
        out.push(v[i]);
        proof {
            assert(out@ =~= v@.subrange(from as int, i + 1));
        }
        i += 1;
    }
    out
}

/// The text that bytes make, with a replacement character for each run that is
/// no UTF-8.
pub uninterp spec fn lossy_text(b: Seq<u8>) -> Seq<char>;

/// `String::from_utf8_lossy`. Bytes that are UTF-8 make the text they encode;
/// for others the result has a name, and is a function of the bytes.
#[verifier::external_body]
pub(crate) fn text_lossy(b: &[u8]) -> (r: String)
    ensures
        r@ == lossy_text(b@),
        valid_utf8(b@) ==> r@ == decode_utf8(b@),
{
    String::from_utf8_lossy(b).into_owned()
}

/// `String::from_utf8`: the text that bytes encode, or nothing where they are no
/// UTF-8.
#[verifier::external_body]
pub(crate) fn text_exact(b: Vec<u8>) -> (r: Option<String>)
    ensures
        match r {
            Some(s) => valid_utf8(b@) && s@ == decode_utf8(b@),
            None => !valid_utf8(b@),
        },
{
    String::from_utf8(b).ok()
}

} // verus!
