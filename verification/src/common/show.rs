//! JSON documents as text, without blanks.

use vstd::prelude::*;
use vstd::string::*;

use crate::common::dict::{lists, ordered};
use crate::common::json::{meaning, metas, Json, JsonV};
use crate::common::quote::{json_quoted, json_text};
use crate::common::text::{dec, dec_signed, decimal, join, joined, signed, texts};

verus! {

broadcast use meaning;

/// A truth value as text.
pub open spec fn truth(b: bool) -> Seq<char> {
    if b {
        "true"@
    } else {
        "false"@
    }
}

pub fn truth_text(b: bool) -> (r: &'static str)
    ensures
        r@ == truth(b),
{
    if b {
        "true"
    } else {
        "false"
    }
}

/// A document as text: the members of an array in their order, and those of an
/// object in the order of their names.
pub open spec fn shown(j: JsonV) -> Seq<char>
    decreases j,
{
    match j {
        JsonV::Null => "null"@,
        JsonV::Bool(b) => truth(b),
        JsonV::Uint(n) => decimal(n as nat),
        JsonV::Neg(n) => signed(n as int),
        JsonV::Real(text, _, _) => text,
        JsonV::Str(s) => json_text(s),
        JsonV::Arr(a) => "["@ + joined(shown_items(a), ","@) + "]"@,
        JsonV::Obj(m) => "{"@ + joined(shown_fields(m), ","@) + "}"@,
    }
}

/// Some documents as texts.
pub open spec fn shown_items(a: Seq<JsonV>) -> Seq<Seq<char>>
    decreases a,
{
    Seq::new(
        a.len(),
        |i: int|
            if 0 <= i < a.len() {
                shown(a[i])
            } else {
                Seq::empty()
            },
    )
}

/// The names of an object and their documents, as texts.
pub open spec fn shown_fields(m: Map<Seq<char>, JsonV>) -> Seq<Seq<char>>
    decreases m,
{
    Seq::new(
        ordered(m.dom()).len(),
        |i: int|
            {
                let k = ordered(m.dom())[i];
                json_text(k) + ":"@ + (if m.dom().finite() && m.contains_key(k) {
                    shown(m[k])
                } else {
                    Seq::empty()
                })
            },
    )
}

/// A document as text.
pub fn show(j: &Json) -> (r: String)
    ensures
        r@ == shown(j.v()),
    decreases j,
{
    match j {
        Json::Null => "null".to_string(),
        Json::Bool(b) => truth_text(*b).to_string(),
        Json::Uint(n) => dec(*n),
        Json::Neg(n) => dec_signed(*n),
        Json::Real(x) => x.text.clone(),
        Json::Str(s) => json_quoted(s.as_str()),
        Json::Arr(a) => {
            let mut parts: Vec<String> = Vec::new();
            let mut i: usize = 0;
            while i < a.len()
                invariant
                    i <= a@.len(),
                    decreases_to!(j => a),
                    parts@.len() == i,
                    forall|x: int| 0 <= x < i ==> (#[trigger] parts@[x])@ == shown(a@[x].v()),
                decreases a@.len() - i,
            {
                parts.push(show(&a[i]));
                i += 1;
            }
            let mut s = "[".to_string();
            s.append(join(&parts, ",").as_str());
            s.append("]");
            proof {
                let m = metas(a@);
                assert(j.v() == JsonV::Arr(m));
                assert(texts(parts@) =~= shown_items(m));
            }
            s
        },
        Json::Obj(d) => {
            let mut parts: Vec<String> = Vec::new();
            let n: usize = d.len();
            let mut i: usize = 0;
            while i < n
                invariant
                    i <= n,
                    n == d.order().len(),
                    decreases_to!(j => d.vals),
                    parts@.len() == i,
                    forall|x: int|
                        0 <= x < i ==> (#[trigger] parts@[x])@ == json_text(d.order()[x]) + ":"@
                            + shown(d@[d.order()[x]].v()),
                decreases n - i,
            {
                let mut s = json_quoted(d.key_at(i).as_str());
                s.append(":");
                s.append(show(d.nth(i)).as_str());
                parts.push(s);
                i += 1;
            }
            let mut s = "{".to_string();
            s.append(join(&parts, ",").as_str());
            s.append("}");
            proof {
                let m = d.deep_view();
                assert(j.v() == JsonV::Obj(m));
                assert(m.dom() =~= d@.dom());
                assert(lists(d.order(), d@.dom()));
                assert(d@.dom() =~= d.order().to_set());
                let want = shown_fields(m);
                assert forall|x: int| 0 <= x < want.len() implies texts(parts@)[x] == want[x] by {
                    let k = d.order()[x];
                    assert(d.order().contains(k));
                    assert(d@.dom().contains(k));
                    assert(m[k] == d@[k].v());
                }
                assert(texts(parts@) =~= want);
            }
            s
        },
    }
}

} // verus!
