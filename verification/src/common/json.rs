//! JSON documents as plain values.
//!
//! `Json` is the tree the rows, snapshots and patches are made of. Its
//! meaning is `JsonV`, in which an object is a map from names to values.

use vstd::prelude::*;

use crate::common::dict::{lists, Dict};
use crate::common::text::{opt_text, same, texts};

verus! {

/// A number written with a fraction or an exponent.
#[derive(Debug, PartialEq, Eq)]
pub struct Real {
    /// The number as it is written.
    pub text: String,
    /// The least whole number that is not below it, and not below zero.
    pub up: u64,
    /// Whether it is `up` exactly.
    pub whole: bool,
}

/// A JSON value.
#[derive(Debug, PartialEq, Eq)]
pub enum Json {
    Null,
    Bool(bool),
    /// A whole number that is not negative.
    Uint(u64),
    /// A negative whole number.
    Neg(i64),
    Real(Real),
    Str(String),
    Arr(Vec<Json>),
    Obj(Dict<Json>),
}

/// A JSON value as a mathematical one.
pub enum JsonV {
    Null,
    Bool(bool),
    Uint(u64),
    Neg(i64),
    Real(Seq<char>, u64, bool),
    Str(Seq<char>),
    Arr(Seq<JsonV>),
    Obj(Map<Seq<char>, JsonV>),
}

impl JsonV {
    /// The value of a name; null where there is none.
    pub open spec fn field(self, k: Seq<char>) -> JsonV {
        match self {
            JsonV::Obj(m) => if m.contains_key(k) {
                m[k]
            } else {
                JsonV::Null
            },
            _ => JsonV::Null,
        }
    }

    /// Whether it is an object with this name in it.
    pub open spec fn has(self, k: Seq<char>) -> bool {
        self matches JsonV::Obj(m) && m.contains_key(k)
    }

    /// The text, of a string.
    pub open spec fn text(self) -> Option<Seq<char>> {
        match self {
            JsonV::Str(s) => Some(s),
            _ => None,
        }
    }

    /// The text of a string, and nothing of anything else.
    pub open spec fn text_or_empty(self) -> Seq<char> {
        match self {
            JsonV::Str(s) => s,
            _ => Seq::empty(),
        }
    }

    /// Whether it is `true`.
    pub open spec fn is_true(self) -> bool {
        self == JsonV::Bool(true)
    }

    /// The number, of a whole one that is not negative.
    pub open spec fn uint(self) -> Option<u64> {
        match self {
            JsonV::Uint(n) => Some(n),
            _ => None,
        }
    }

    /// The members, of an array; none of anything else.
    pub open spec fn items(self) -> Seq<JsonV> {
        match self {
            JsonV::Arr(s) => s,
            _ => Seq::empty(),
        }
    }

    /// The names and values, of an object; none of anything else.
    pub open spec fn fields(self) -> Map<Seq<char>, JsonV> {
        match self {
            JsonV::Obj(m) => m,
            _ => Map::empty(),
        }
    }
}

impl Json {
    /// What the value means.
    pub closed spec fn v(&self) -> JsonV
        decreases self,
    {
        match self {
            Json::Null => JsonV::Null,
            Json::Bool(b) => JsonV::Bool(*b),
            Json::Uint(n) => JsonV::Uint(*n),
            Json::Neg(n) => JsonV::Neg(*n),
            Json::Real(r) => JsonV::Real(r.text@, r.up, r.whole),
            Json::Str(s) => JsonV::Str(s@),
            Json::Arr(a) => JsonV::Arr(
                Seq::new(
                    a@.len(),
                    |i: int|
                        if 0 <= i < a@.len() {
                            a@[i].v()
                        } else {
                            JsonV::Null
                        },
                ),
            ),
            Json::Obj(d) => JsonV::Obj(
                Map::new(
                    |k: Seq<char>| d@.contains_key(k),
                    |k: Seq<char>|
                        {
                            let i = texts(d.keys@).index_of(k);
                            if 0 <= i < d.vals@.len() {
                                d.vals@[i].v()
                            } else {
                                JsonV::Null
                            }
                        },
                ),
            ),
        }
    }
}

impl DeepView for Json {
    type V = JsonV;

    open spec fn deep_view(&self) -> JsonV {
        self.v()
    }
}

/// The meanings of a list of values.
pub open spec fn metas(a: Seq<Json>) -> Seq<JsonV> {
    Seq::new(a.len(), |i: int| a[i].v())
}

/// What each form of value means.
pub broadcast proof fn meaning(j: Json)
    ensures
        #[trigger] j.v() == (match j {
            Json::Null => JsonV::Null,
            Json::Bool(b) => JsonV::Bool(b),
            Json::Uint(n) => JsonV::Uint(n),
            Json::Neg(n) => JsonV::Neg(n),
            Json::Real(r) => JsonV::Real(r.text@, r.up, r.whole),
            Json::Str(s) => JsonV::Str(s@),
            Json::Arr(a) => JsonV::Arr(metas(a@)),
            Json::Obj(d) => JsonV::Obj(d.deep_view()),
        }),
{
    match j {
        Json::Arr(a) => {
            assert(j.v()->Arr_0 =~= metas(a@));
        },
        Json::Obj(d) => {
            let m = j.v()->Obj_0;
            assert forall|k: Seq<char>| d@.contains_key(k) implies m[k] == d@[k].v() by {
                d.lemma_held_at(k);
            }
            assert(m =~= d.deep_view());
        },
        _ => {},
    }
}

impl Json {
    /// A string.
    pub fn str(s: &str) -> (r: Json)
        ensures
            r.v() == JsonV::Str(s@),
    {
        broadcast use meaning;

        Json::Str(s.to_string())
    }

    /// An object without names.
    pub fn object() -> (r: Dict<Json>)
        ensures
            r.deep_view() == Map::<Seq<char>, JsonV>::empty(),
    {
        broadcast use meaning;

        let r: Dict<Json> = Dict::new();
        proof {
            assert(r.deep_view() =~= Map::<Seq<char>, JsonV>::empty());
        }
        r
    }

    /// The value of a name, where there is one.
    pub fn get(&self, key: &str) -> (r: Option<&Json>)
        ensures
            match r {
                Some(j) => self.v().has(key@) && self.v().field(key@) == j.v(),
                None => !self.v().has(key@) && self.v().field(key@) == JsonV::Null,
            },
    {
        broadcast use meaning;

        match self {
            Json::Obj(d) => d.get(key),
            _ => None,
        }
    }

    /// The text, of a string.
    pub fn as_str(&self) -> (r: Option<&str>)
        ensures
            match r {
                Some(s) => self.v().text() == Some(s@),
                None => self.v().text() is None,
            },
    {
        broadcast use meaning;

        match self {
            Json::Str(s) => Some(s.as_str()),
            _ => None,
        }
    }

    /// The truth value, of one.
    pub fn as_bool(&self) -> (r: Option<bool>)
        ensures
            match r {
                Some(b) => self.v() == JsonV::Bool(b),
                None => !(self.v() is Bool),
            },
    {
        broadcast use meaning;

        match self {
            Json::Bool(b) => Some(*b),
            _ => None,
        }
    }

    /// The number, of a whole one that is not negative.
    pub fn as_u64(&self) -> (r: Option<u64>)
        ensures
            r == self.v().uint(),
    {
        broadcast use meaning;

        match self {
            Json::Uint(n) => Some(*n),
            _ => None,
        }
    }

    /// The text of a name, where its value is a string.
    pub fn text_at(&self, key: &str) -> (r: Option<&str>)
        ensures
            match r {
                Some(s) => self.v().field(key@).text() == Some(s@),
                None => self.v().field(key@).text() is None,
            },
    {
        broadcast use meaning;

        match self.get(key) {
            Some(j) => j.as_str(),
            None => None,
        }
    }

    /// The text of a name, empty where its value is no string.
    pub fn text_or_empty_at(&self, key: &str) -> (r: String)
        ensures
            r@ == self.v().field(key@).text_or_empty(),
    {
        broadcast use meaning;

        match self.text_at(key) {
            Some(s) => s.to_string(),
            None => String::new(),
        }
    }

    /// Whether the value of a name is `true`.
    pub fn true_at(&self, key: &str) -> (r: bool)
        ensures
            r == self.v().field(key@).is_true(),
    {
        broadcast use meaning;

        match self.get(key) {
            Some(j) => match j.as_bool() {
                Some(b) => b,
                None => false,
            },
            None => false,
        }
    }

    /// The number of a name, where it has a whole one that is not negative.
    pub fn uint_at(&self, key: &str) -> (r: Option<u64>)
        ensures
            r == self.v().field(key@).uint(),
    {
        broadcast use meaning;

        match self.get(key) {
            Some(j) => j.as_u64(),
            None => None,
        }
    }

    /// The members of a name's array, where it has one.
    pub fn items_at(&self, key: &str) -> (r: Option<&Vec<Json>>)
        ensures
            match r {
                Some(a) => self.v().field(key@) == JsonV::Arr(metas(a@)),
                None => !(self.v().field(key@) is Arr),
            },
    {
        broadcast use meaning;

        match self.get(key) {
            Some(Json::Arr(a)) => Some(a),
            _ => None,
        }
    }

    /// The names of a name's object, where it has one.
    pub fn fields_at(&self, key: &str) -> (r: Option<&Dict<Json>>)
        ensures
            match r {
                Some(d) => self.v().field(key@) == JsonV::Obj(d.deep_view()),
                None => !(self.v().field(key@) is Obj),
            },
    {
        broadcast use meaning;

        match self.get(key) {
            Some(Json::Obj(d)) => Some(d),
            _ => None,
        }
    }

    /// A copy of the value.
    pub fn copy(&self) -> (r: Json)
        ensures
            r.v() == self.v(),
        decreases self,
    {
        broadcast use meaning;

        match self {
            Json::Null => Json::Null,
            Json::Bool(b) => Json::Bool(*b),
            Json::Uint(n) => Json::Uint(*n),
            Json::Neg(n) => Json::Neg(*n),
            Json::Real(r) => Json::Real(Real { text: r.text.clone(), up: r.up, whole: r.whole }),
            Json::Str(s) => Json::Str(s.clone()),
            Json::Arr(a) => {
                let mut out: Vec<Json> = Vec::new();
                let mut i: usize = 0;
                while i < a.len()
                    invariant
                        i <= a@.len(),
                        decreases_to!(self => a),
                        out@.len() == i,
                        forall|j: int| 0 <= j < i ==> (#[trigger] out@[j]).v() == a@[j].v(),
                    decreases a@.len() - i,
                {
                    out.push(a[i].copy());
                    i += 1;
                }
                proof {
                    assert(metas(out@) =~= metas(a@));
                }
                Json::Arr(out)
            },
            Json::Obj(d) => {
                let mut vals: Vec<Json> = Vec::new();
                let n: usize = d.len();
                let mut i: usize = 0;
                while i < n
                    invariant
                        i <= n,
                        n == d.order().len(),
                        decreases_to!(self => d.vals),
                        vals@.len() == i,
                        forall|j: int|
                            0 <= j < i ==> (#[trigger] vals@[j]).v() == d@[d.order()[j]].v(),
                    decreases n - i,
                {
                    vals.push(d.nth(i).copy());
                    i += 1;
                }
                let out = d.with_values(vals);
                proof {
                    assert forall|k: Seq<char>| d@.contains_key(k) implies out@[k].v()
                        == d@[k].v() by {
                        assert(d@.dom().contains(k));
                        let j = d.order().index_of(k);
                        assert(d.order()[j] == k);
                        assert(vals@[j].v() == d@[d.order()[j]].v());
                    }
                    assert(out.deep_view() =~= d.deep_view());
                }
                Json::Obj(out)
            },
        }
    }

    /// Whether two values mean the same.
    pub fn same(&self, o: &Json) -> (r: bool)
        ensures
            r == (self.v() == o.v()),
        decreases self,
    {
        broadcast use meaning;

        match (self, o) {
            (Json::Null, Json::Null) => true,
            (Json::Bool(a), Json::Bool(b)) => *a == *b,
            (Json::Uint(a), Json::Uint(b)) => *a == *b,
            (Json::Neg(a), Json::Neg(b)) => *a == *b,
            (Json::Real(a), Json::Real(b)) => same(a.text.as_str(), b.text.as_str()) && a.up
                == b.up && a.whole == b.whole,
            (Json::Str(a), Json::Str(b)) => same(a.as_str(), b.as_str()),
            (Json::Arr(a), Json::Arr(b)) => {
                if a.len() != b.len() {
                    proof {
                        assert(metas(a@).len() != metas(b@).len());
                    }
                    return false;
                }
                let mut i: usize = 0;
                while i < a.len()
                    invariant
                        i <= a@.len(),
                        a@.len() == b@.len(),
                        decreases_to!(self => a),
                        self.v() == JsonV::Arr(metas(a@)),
                        o.v() == JsonV::Arr(metas(b@)),
                        forall|j: int| 0 <= j < i ==> (#[trigger] a@[j]).v() == b@[j].v(),
                    decreases a@.len() - i,
                {
                    if !a[i].same(&b[i]) {
                        proof {
                            assert(metas(a@)[i as int] != metas(b@)[i as int]);
                        }
                        return false;
                    }
                    i += 1;
                }
                proof {
                    assert(metas(a@) =~= metas(b@));
                }
                true
            },
            (Json::Obj(a), Json::Obj(b)) => {
                let n: usize = a.len();
                let m: usize = b.len();
                proof {
                    if a.deep_view() == b.deep_view() {
                        assert(a@.dom() =~= a.deep_view().dom());
                        assert(b@.dom() =~= b.deep_view().dom());
                        assert(a.order() == b.order());
                    }
                }
                if n != m {
                    return false;
                }
                let mut i: usize = 0;
                while i < n
                    invariant
                        i <= n,
                        n == a.order().len(),
                        n == b.order().len(),
                        lists(a.order(), a@.dom()),
                        lists(b.order(), b@.dom()),
                        decreases_to!(self => a.vals),
                        self.v() == JsonV::Obj(a.deep_view()),
                        o.v() == JsonV::Obj(b.deep_view()),
                        a.deep_view() == b.deep_view() ==> a.order() == b.order(),
                        forall|j: int|
                            0 <= j < i ==> #[trigger] a.order()[j] == b.order()[j]
                                && a@[a.order()[j]].v() == b@[b.order()[j]].v(),
                    decreases n - i,
                {
                    if !same(a.key_at(i).as_str(), b.key_at(i).as_str()) {
                        return false;
                    }
                    let y = b.val_at(i);
                    let x = a.nth(i);
                    if !x.same(y) {
                        proof {
                            if a.deep_view() == b.deep_view() {
                                let k = a.order()[i as int];
                                assert(a.deep_view()[k] == x.v());
                                assert(b.deep_view()[k] == y.v());
                            }
                        }
                        return false;
                    }
                    i += 1;
                }
                proof {
                    assert(a.order() =~= b.order());
                    assert(a.deep_view() =~= b.deep_view()) by {
                        assert forall|k: Seq<char>| #[trigger]
                            a.deep_view().contains_key(k) == b.deep_view().contains_key(k) by {
                            assert(a@.dom().contains(k) == a.order().contains(k));
                            assert(b@.dom().contains(k) == b.order().contains(k));
                        }
                        assert forall|k: Seq<char>| #[trigger]
                            a.deep_view().contains_key(k) implies a.deep_view()[k]
                            == b.deep_view()[k] by {
                            assert(a@.dom().contains(k));
                            let j = a.order().index_of(k);
                            assert(a.order()[j] == k);
                        }
                    }
                }
                true
            },
            _ => false,
        }
    }
}

/// Stores a value under a name.
pub fn put(d: &mut Dict<Json>, key: &str, val: Json)
    ensures
        final(d).deep_view() == old(d).deep_view().insert(key@, val.v()),
{
    broadcast use meaning;

    let ghost was = d.deep_view();
    d.insert(key.to_string(), val);
    proof {
        assert(d.deep_view() =~= was.insert(key@, val.v()));
    }
}

/// A list of strings as an array.
pub fn str_list(v: &Vec<String>) -> (r: Json)
    ensures
        r.v() == str_array(texts(v@)),
{
    broadcast use meaning;

    let mut out: Vec<Json> = Vec::new();
    let mut i: usize = 0;
    while i < v.len()
        invariant
            i <= v@.len(),
            out@.len() == i,
            forall|j: int| 0 <= j < i ==> (#[trigger] out@[j]).v() == JsonV::Str(v@[j]@),
        decreases v@.len() - i,
    {
        out.push(Json::Str(v[i].clone()));
        i += 1;
    }
    proof {
        assert(metas(out@) =~= str_array(texts(v@))->Arr_0);
    }
    Json::Arr(out)
}

/// An array of strings.
pub open spec fn str_array(v: Seq<Seq<char>>) -> JsonV {
    JsonV::Arr(Seq::new(v.len(), |i: int| JsonV::Str(v[i])))
}

/// A string, or null where there is none.
pub open spec fn opt_str(v: Option<Seq<char>>) -> JsonV {
    match v {
        Some(s) => JsonV::Str(s),
        None => JsonV::Null,
    }
}

/// A number, or null where there is none.
pub open spec fn opt_uint(v: Option<u64>) -> JsonV {
    match v {
        Some(n) => JsonV::Uint(n),
        None => JsonV::Null,
    }
}

/// A string, or null where there is none.
pub fn opt_str_json(v: &Option<String>) -> (r: Json)
    ensures
        r.v() == opt_str(opt_text(*v)),
{
    broadcast use meaning;

    match v {
        Some(s) => Json::Str(s.clone()),
        None => Json::Null,
    }
}

/// A number, or null where there is none.
pub fn opt_uint_json(v: Option<u64>) -> (r: Json)
    ensures
        r.v() == opt_uint(v),
{
    broadcast use meaning;

    match v {
        Some(n) => Json::Uint(n),
        None => Json::Null,
    }
}

/// Copies of some values.
pub fn copies(v: &Vec<Json>) -> (r: Vec<Json>)
    ensures
        metas(r@) == metas(v@),
{
    let mut out: Vec<Json> = Vec::new();
    let mut i: usize = 0;
    while i < v.len()
        invariant
            i <= v@.len(),
            out@.len() == i,
            forall|j: int| 0 <= j < i ==> (#[trigger] out@[j]).v() == v@[j].v(),
        decreases v@.len() - i,
    {
        out.push(v[i].copy());
        i += 1;
    }
    proof {
        assert(metas(out@) =~= metas(v@));
    }
    out
}

/// What an object means whose values were given in the order of its names.
pub proof fn lemma_valued(
    dom: Set<Seq<char>>,
    order: Seq<Seq<char>>,
    out: Dict<Json>,
    vals: Seq<Json>,
    f: spec_fn(Seq<char>) -> JsonV,
)
    requires
        out@.dom() == dom,
        lists(order, dom),
        vals.len() == order.len(),
        forall|i: int| 0 <= i < order.len() ==> out@[#[trigger] order[i]] == vals[i],
        forall|i: int| 0 <= i < order.len() ==> (#[trigger] vals[i]).v() == f(order[i]),
    ensures
        out.deep_view() == Map::new(|k: Seq<char>| dom.contains(k), f),
{
    let want = Map::new(|k: Seq<char>| dom.contains(k), f);
    assert forall|k: Seq<char>| dom.contains(k) implies out@[k].v() == f(k) by {
        assert(order.contains(k));
        let i = order.index_of(k);
        assert(order[i] == k);
        assert(vals[i].v() == f(order[i]));
    }
    assert(out.deep_view() =~= want);
}

} // verus!
