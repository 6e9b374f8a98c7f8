//! The top level of a JSON document, read from its bytes.

use vstd::prelude::*;
use vstd::string::*;

use crate::common::text::same;

verus! {

/// A value at the top level of a document, as far as anybody reads it.
#[derive(Debug, PartialEq, Eq)]
pub enum Top {
    Text(String),
    Flag(bool),
    /// A whole number that is not negative.
    Whole(u64),
    Other,
}

/// A `Top` as a mathematical value.
pub enum TopV {
    Text(Seq<char>),
    Flag(bool),
    Whole(u64),
    Other,
}

impl View for Top {
    type V = TopV;

    open spec fn view(&self) -> TopV {
        match self {
            Top::Text(s) => TopV::Text(s@),
            Top::Flag(b) => TopV::Flag(*b),
            Top::Whole(n) => TopV::Whole(*n),
            Top::Other => TopV::Other,
        }
    }
}

/// Fields as mathematical values.
pub open spec fn top_views(v: Seq<(String, Top)>) -> Seq<(Seq<char>, TopV)> {
    Seq::new(v.len(), |i: int| (v[i].0@, v[i].1@))
}

/// Fields as mathematical values, where there are any.
pub open spec fn opt_top(v: Option<Vec<(String, Top)>>) -> Option<Seq<(Seq<char>, TopV)>> {
    match v {
        Some(f) => Some(top_views(f@)),
        None => None,
    }
}

/// The fields of the object that some bytes write as JSON: none of another
/// value, and nothing where the bytes are no JSON.
pub uninterp spec fn json_top(b: Seq<u8>) -> Option<Seq<(Seq<char>, TopV)>>;

/// `serde_json::from_slice` into a `serde_json::Value`: nothing where the bytes
/// are no JSON, and otherwise the names and values of the object they write, in
/// the order of the names. What JSON a run of bytes writes takes the grammar to
/// state, so the result has a name, and is a function of the bytes.
#[verifier::external_body]
pub(crate) fn parse_top(b: &[u8]) -> (r: Option<Vec<(String, Top)>>)
    ensures
        opt_top(r) == json_top(b@),
{
    let v: serde_json::Value = serde_json::from_slice(b).ok()?;
    Some(v.as_object().cloned().unwrap_or_default().into_iter().map(|(k, v)| (k, match v {
        serde_json::Value::String(s) => Top::Text(s),
        serde_json::Value::Bool(b) => Top::Flag(b),
        serde_json::Value::Number(n) => n.as_u64().map_or(Top::Other, Top::Whole),
        _ => Top::Other,
    })).collect())
}

/// The value of a name; nothing of note where there is none.
pub open spec fn top_at(fields: Seq<(Seq<char>, TopV)>, name: Seq<char>) -> Option<TopV>
    decreases fields.len(),
{
    if fields.len() == 0 {
        None
    } else if fields[0].0 == name {
        Some(fields[0].1)
    } else {
        top_at(fields.skip(1), name)
    }
}

/// The value of a name, where there is one.
pub fn find_top<'a>(fields: &'a Vec<(String, Top)>, name: &str) -> (r: Option<&'a Top>)
    ensures
        match r {
            Some(t) => top_at(top_views(fields@), name@) == Some(t@),
            None => top_at(top_views(fields@), name@) is None,
        },
{
    let ghost all = top_views(fields@);
    let mut i: usize = 0;
    proof {
        assert(all.skip(0) =~= all);
    }
    while i < fields.len()
        invariant
            i <= fields@.len(),
            all == top_views(fields@),
            top_at(all, name@) == top_at(all.skip(i as int), name@),
        decreases fields@.len() - i,
    {
        proof {
            assert(all.skip(i as int)[0] == (fields@[i as int].0@, fields@[i as int].1@));
            assert(all.skip(i as int).skip(1) =~= all.skip(i + 1));
        }
        if same(fields[i].0.as_str(), name) {
            return Some(&fields[i].1);
        }
        i += 1;
    }
    None
}

} // verus!
