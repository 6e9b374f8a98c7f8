//! A map from strings to values, walked in key order.

use vstd::prelude::*;

use crate::common::text::{
    before, copied, lemma_before_asymmetric, lemma_before_irreflexive, lemma_before_total,
    lemma_before_transitive, same, sorts_before, texts,
};

verus! {

// ---------------------------------------------------------------------------
// Texts in order
// ---------------------------------------------------------------------------
/// Whether the texts stand in strictly increasing order.
pub open spec fn increasing(k: Seq<Seq<char>>) -> bool {
    forall|i: int, j: int| 0 <= i < j < k.len() ==> before(#[trigger] k[i], #[trigger] k[j])
}

/// Texts in strictly increasing order are all different.
pub proof fn lemma_increasing_distinct(k: Seq<Seq<char>>, i: int, j: int)
    requires
        increasing(k),
        0 <= i < k.len(),
        0 <= j < k.len(),
        k[i] == k[j],
    ensures
        i == j,
{
    lemma_before_irreflexive(k[i]);
    if i < j {
        assert(before(k[i], k[j]));
    } else if j < i {
        assert(before(k[j], k[i]));
    }
}

/// The members of a set of texts, in order.
pub open spec fn ordered(dom: Set<Seq<char>>) -> Seq<Seq<char>> {
    choose|s: Seq<Seq<char>>| lists(s, dom)
}

/// Whether `s` lists the members of a set, each once, in order.
pub open spec fn lists(s: Seq<Seq<char>>, dom: Set<Seq<char>>) -> bool {
    increasing(s) && forall|k: Seq<char>| s.contains(k) <==> #[trigger] dom.contains(k)
}

/// Two lists in order with the same members are the same list.
pub proof fn lemma_lists_unique(a: Seq<Seq<char>>, b: Seq<Seq<char>>, dom: Set<Seq<char>>)
    requires
        lists(a, dom),
        lists(b, dom),
    ensures
        a == b,
    decreases a.len(),
{
    if a.len() == 0 {
        if b.len() > 0 {
            assert(b.contains(b[0]));
            assert(dom.contains(b[0]));
        }
        assert(a =~= b);
    } else {
        assert(a.contains(a[0]));
        assert(dom.contains(a[0]));
        let (x, y) = (a.last(), b.last());
        assert(b.contains(a[0]));
        assert(a[a.len() - 1] == x && b[b.len() - 1] == y);
        assert(dom.contains(x));
        assert(dom.contains(y));
        let i = a.index_of(y);
        let j = b.index_of(x);
        if x != y {
            assert(before(a[i], a[a.len() - 1]));
            assert(before(b[j], b[b.len() - 1]));
            lemma_before_asymmetric(x, y);
        }
        let (c, d) = (a.drop_last(), b.drop_last());
        let rest = dom.remove(x);
        assert forall|k: Seq<char>| c.contains(k) <==> #[trigger] rest.contains(k) by {
            lemma_init_contains(a, k);
        }
        assert forall|k: Seq<char>| d.contains(k) <==> #[trigger] rest.contains(k) by {
            lemma_init_contains(b, k);
        }
        lemma_increasing_init(a);
        lemma_increasing_init(b);
        lemma_lists_unique(c, d, rest);
        assert(a =~= c.push(x));
        assert(b =~= d.push(y));
    }
}

proof fn lemma_increasing_init(a: Seq<Seq<char>>)
    requires
        increasing(a),
        a.len() > 0,
    ensures
        increasing(a.drop_last()),
{
    let c = a.drop_last();
    assert forall|i: int, j: int| 0 <= i < j < c.len() implies before(
        #[trigger] c[i],
        #[trigger] c[j],
    ) by {
        assert(c[i] == a[i] && c[j] == a[j]);
    }
}

proof fn lemma_init_contains(a: Seq<Seq<char>>, k: Seq<char>)
    requires
        increasing(a),
        a.len() > 0,
    ensures
        a.drop_last().contains(k) <==> a.contains(k) && k != a.last(),
{
    let c = a.drop_last();
    if c.contains(k) {
        let i = c.index_of(k);
        assert(a[i] == k);
        if k == a.last() {
            lemma_increasing_distinct(a, i, a.len() - 1);
        }
    }
    if a.contains(k) && k != a.last() {
        let i = a.index_of(k);
        assert(c[i] == k);
    }
}

/// What one more member of a list adds to it.
pub proof fn lemma_take_contains(s: Seq<Seq<char>>, i: int, k: Seq<char>)
    requires
        0 <= i < s.len(),
    ensures
        s.take(i + 1).contains(k) <==> s.take(i).contains(k) || k == s[i],
        increasing(s) ==> !s.take(i).contains(s[i]),
{
    let (a, b) = (s.take(i), s.take(i + 1));
    if b.contains(k) {
        let j = b.index_of(k);
        if j < i {
            assert(a[j] == k);
        }
    }
    if a.contains(k) {
        let j = a.index_of(k);
        assert(b[j] == k);
    }
    assert(b[i] == s[i]);
    if increasing(s) && a.contains(s[i]) {
        let j = a.index_of(s[i]);
        lemma_increasing_distinct(s, i, j);
    }
}

/// A list of a set's members in order is the one that `ordered` gives.
pub proof fn lemma_ordered(s: Seq<Seq<char>>, dom: Set<Seq<char>>)
    requires
        lists(s, dom),
    ensures
        ordered(dom) == s,
        lists(ordered(dom), dom),
{
    lemma_lists_unique(ordered(dom), s, dom);
}

/// Those of some texts that a condition holds of, in the same order.
pub open spec fn those(keys: Seq<Seq<char>>, p: spec_fn(Seq<char>) -> bool) -> Seq<Seq<char>>
    decreases keys.len(),
{
    if keys.len() == 0 {
        Seq::empty()
    } else {
        let had = those(keys.drop_last(), p);
        if p(keys.last()) {
            had.push(keys.last())
        } else {
            had
        }
    }
}

/// What `those` leaves, and what it keeps.
pub proof fn lemma_those(keys: Seq<Seq<char>>, p: spec_fn(Seq<char>) -> bool)
    ensures
        forall|i: int|
            0 <= i < those(keys, p).len() ==> keys.contains(#[trigger] those(keys, p)[i]) && p(
                those(keys, p)[i],
            ),
        forall|k: Seq<char>| #[trigger]
            those(keys, p).contains(k) <==> keys.contains(k) && p(k),
        increasing(keys) ==> increasing(those(keys, p)),
    decreases keys.len(),
{
    let out = those(keys, p);
    if keys.len() > 0 {
        let init = keys.drop_last();
        let x = keys.last();
        let had = those(init, p);
        lemma_those(init, p);
        assert forall|k: Seq<char>| keys.contains(k) <==> #[trigger] init.contains(k) || k == x by {
            if init.contains(k) {
                let i = init.index_of(k);
                assert(keys[i] == k);
            }
            if keys.contains(k) {
                let i = keys.index_of(k);
                if i < init.len() {
                    assert(init[i] == k);
                }
            }
            assert(keys[keys.len() - 1] == x);
        }
        assert forall|k: Seq<char>| #[trigger] out.contains(k) <==> keys.contains(k) && p(k) by {
            if out.contains(k) {
                let i = out.index_of(k);
                if i < had.len() {
                    assert(had[i] == k);
                    assert(had.contains(k));
                }
            }
            if had.contains(k) {
                let i = had.index_of(k);
                assert(out[i] == k);
            }
            if k == x && p(k) {
                assert(out[out.len() - 1] == k);
            }
            assert(init.contains(k) ==> keys.contains(k));
        }
        assert forall|i: int| 0 <= i < out.len() implies keys.contains(#[trigger] out[i]) && p(
            out[i],
        ) by {
            assert(out.contains(out[i]));
        }
        if increasing(keys) {
            lemma_increasing_init(keys);
            assert forall|i: int, j: int| 0 <= i < j < out.len() implies before(
                #[trigger] out[i],
                #[trigger] out[j],
            ) by {
                if j < had.len() {
                    assert(out[i] == had[i] && out[j] == had[j]);
                } else {
                    assert(out[i] == had[i]);
                    assert(init.contains(had[i]));
                    let a = init.index_of(had[i]);
                    assert(before(keys[a], keys[keys.len() - 1]));
                }
            }
        }
    } else {
        assert forall|k: Seq<char>| #[trigger] out.contains(k) <==> keys.contains(k) && p(k) by {}
    }
}

spec fn spot(s: Seq<Seq<char>>, x: Seq<char>) -> int
    decreases s.len(),
{
    if s.len() > 0 && before(x, s.last()) {
        spot(s.drop_last(), x)
    } else {
        s.len() as int
    }
}

proof fn lemma_spot(s: Seq<Seq<char>>, x: Seq<char>)
    requires
        increasing(s),
        !s.contains(x),
    ensures
        0 <= spot(s, x) <= s.len(),
        forall|i: int| 0 <= i < spot(s, x) ==> before(#[trigger] s[i], x),
        forall|i: int| spot(s, x) <= i < s.len() ==> before(x, #[trigger] s[i]),
    decreases s.len(),
{
    if s.len() > 0 {
        let last = s.last();
        assert(s[s.len() - 1] == last);
        if before(x, last) {
            let init = s.drop_last();
            lemma_increasing_init(s);
            lemma_init_contains(s, x);
            lemma_spot(init, x);
            assert forall|i: int| 0 <= i < spot(s, x) implies before(#[trigger] s[i], x) by {
                assert(init[i] == s[i]);
            }
            assert forall|i: int| spot(s, x) <= i < s.len() implies before(x, #[trigger] s[i]) by {
                if i < init.len() {
                    assert(init[i] == s[i]);
                }
            }
        } else {
            lemma_before_total(x, last);
            assert forall|i: int| 0 <= i < s.len() implies before(#[trigger] s[i], x) by {
                if i < s.len() - 1 {
                    assert(before(s[i], s[s.len() - 1]));
                    lemma_before_transitive(s[i], last, x);
                }
            }
        }
    }
}

/// The members of a finite set can be listed in order.
pub proof fn lemma_finite_lists(dom: Set<Seq<char>>)
    requires
        dom.finite(),
    ensures
        lists(ordered(dom), dom),
    decreases dom.len(),
{
    if dom.len() == 0 {
        let s = Seq::<Seq<char>>::empty();
        assert forall|k: Seq<char>| s.contains(k) <==> #[trigger] dom.contains(k) by {
            if dom.contains(k) {
                assert(dom =~= Set::empty());
            }
        }
        assert(lists(s, dom));
        lemma_ordered(s, dom);
    } else {
        let x = dom.choose();
        assert(dom.contains(x)) by {
            if forall|k: Seq<char>| !dom.contains(k) {
                assert(dom =~= Set::empty());
            }
        }
        let rest = dom.remove(x);
        lemma_finite_lists(rest);
        let a = ordered(rest);
        assert(!a.contains(x)) by {
            assert(!rest.contains(x));
        }
        lemma_spot(a, x);
        let p = spot(a, x);
        let s = a.insert(p, x);
        assert forall|i: int, j: int| 0 <= i < j < s.len() implies before(
            #[trigger] s[i],
            #[trigger] s[j],
        ) by {
            let u = if i < p {
                i
            } else {
                i - 1
            };
            let v = if j < p {
                j
            } else {
                j - 1
            };
            if i == p {
                assert(s[j] == a[v]);
            } else if j == p {
                assert(s[i] == a[u]);
            } else {
                assert(s[i] == a[u] && s[j] == a[v]);
            }
        }
        assert forall|k: Seq<char>| s.contains(k) <==> #[trigger] dom.contains(k) by {
            if s.contains(k) {
                let i = s.index_of(k);
                if i != p {
                    let u = if i < p {
                        i
                    } else {
                        i - 1
                    };
                    assert(a[u] == k);
                    assert(a.contains(k));
                    assert(rest.contains(k));
                }
            }
            if dom.contains(k) {
                if k == x {
                    assert(s[p] == k);
                } else {
                    assert(rest.contains(k));
                    let u = a.index_of(k);
                    assert(s[if u < p {
                        u
                    } else {
                        u + 1
                    }] == k);
                }
            }
        }
        lemma_ordered(s, dom);
    }
}

// ---------------------------------------------------------------------------
// The map
// ---------------------------------------------------------------------------
/// A map keyed by strings. A walk by index visits the keys in the order of
/// `before`.
#[derive(Debug, PartialEq, Eq)]
pub struct Dict<V> {
    pub(crate) keys: Vec<String>,
    pub(crate) vals: Vec<V>,
}

impl<V> View for Dict<V> {
    type V = Map<Seq<char>, V>;

    closed spec fn view(&self) -> Map<Seq<char>, V> {
        Map::new(
            |k: Seq<char>|
                texts(self.keys@).contains(k) && texts(self.keys@).index_of(k) < self.vals@.len(),
            |k: Seq<char>| self.vals@[texts(self.keys@).index_of(k)],
        )
    }
}

impl<V: DeepView> DeepView for Dict<V> {
    type V = Map<Seq<char>, <V as DeepView>::V>;

    open spec fn deep_view(&self) -> Map<Seq<char>, <V as DeepView>::V> {
        Map::new(|k: Seq<char>| self@.contains_key(k), |k: Seq<char>| self@[k].deep_view())
    }
}

impl<V> Dict<V> {
    /// One value for each key, keys in increasing order.
    #[verifier::type_invariant]
    spec fn inv(&self) -> bool {
        &&& self.keys@.len() == self.vals@.len()
        &&& increasing(texts(self.keys@))
    }

    /// The keys, in order.
    pub open spec fn order(&self) -> Seq<Seq<char>> {
        ordered(self@.dom())
    }

    /// Where the value of a key is held.
    pub(crate) proof fn lemma_held_at(&self, k: Seq<char>)
        requires
            self@.contains_key(k),
        ensures
            0 <= texts(self.keys@).index_of(k) < self.vals@.len(),
            self@[k] == self.vals@[texts(self.keys@).index_of(k)],
    {
        assert(texts(self.keys@).contains(k));
    }

    proof fn lemma_at(&self, i: int)
        requires
            self.inv(),
            0 <= i < self.keys@.len(),
        ensures
            texts(self.keys@)[i] == self.keys@[i]@,
            self@.contains_key(self.keys@[i]@),
            self@[self.keys@[i]@] == self.vals@[i],
    {
        let k = texts(self.keys@);
        assert(k[i] == self.keys@[i]@);
        assert(k.contains(k[i]));
        lemma_increasing_distinct(k, i, k.index_of(k[i]));
    }

    proof fn lemma_is_order(&self)
        requires
            self.inv(),
        ensures
            self.order() == texts(self.keys@),
            lists(self.order(), self@.dom()),
    {
        let k = texts(self.keys@);
        assert forall|x: Seq<char>| k.contains(x) <==> #[trigger] self@.dom().contains(x) by {
            if k.contains(x) {
                assert(0 <= k.index_of(x) < k.len());
            }
        }
        lemma_ordered(k, self@.dom());
    }

    /// The empty map.
    pub fn new() -> (r: Dict<V>)
        ensures
            r@ == Map::<Seq<char>, V>::empty(),
            r.order().len() == 0,
    {
        let r = Dict { keys: Vec::new(), vals: Vec::new() };
        proof {
            use_type_invariant(&r);
            r.lemma_is_order();
            assert(r@ =~= Map::<Seq<char>, V>::empty());
        }
        r
    }

    /// How many keys there are.
    pub fn len(&self) -> (n: usize)
        ensures
            n == self.order().len(),
            lists(self.order(), self@.dom()),
    {
        proof {
            use_type_invariant(self);
            self.lemma_is_order();
        }
        self.keys.len()
    }

    /// The key at a place in the order.
    pub fn key_at(&self, i: usize) -> (k: &String)
        requires
            i < self.order().len(),
        ensures
            k@ == self.order()[i as int],
            self@.contains_key(k@),
    {
        proof {
            use_type_invariant(self);
            self.lemma_is_order();
            self.lemma_at(i as int);
        }
        &self.keys[i]
    }

    /// The value at a place in the order.
    pub fn val_at(&self, i: usize) -> (v: &V)
        requires
            i < self.order().len(),
        ensures
            self@.contains_key(self.order()[i as int]),
            *v == self@[self.order()[i as int]],
    {
        proof {
            use_type_invariant(self);
            self.lemma_is_order();
            self.lemma_at(i as int);
        }
        &self.vals[i]
    }

    /// The value at a place in the order, as a part of the map.
    pub(crate) fn nth(&self, i: usize) -> (v: &V)
        requires
            i < self.order().len(),
        ensures
            self@.contains_key(self.order()[i as int]),
            *v == self@[self.order()[i as int]],
            i < self.vals@.len(),
            *v == self.vals@[i as int],
    {
        proof {
            use_type_invariant(self);
            self.lemma_is_order();
            self.lemma_at(i as int);
        }
        &self.vals[i]
    }

    /// The keys, in order.
    pub fn keys(&self) -> (r: Vec<String>)
        ensures
            texts(r@) == self.order(),
            lists(self.order(), self@.dom()),
    {
        proof {
            use_type_invariant(self);
            self.lemma_is_order();
        }
        copied(&self.keys)
    }

    /// The same keys with other values, given in the order of the keys.
    pub fn with_values<W>(&self, vals: Vec<W>) -> (r: Dict<W>)
        requires
            vals@.len() == self.order().len(),
        ensures
            r@.dom() == self@.dom(),
            forall|i: int|
                0 <= i < self.order().len() ==> r@[#[trigger] self.order()[i]] == vals@[i],
    {
        proof {
            use_type_invariant(self);
            self.lemma_is_order();
        }
        let keys = copied(&self.keys);
        let r = Dict { keys, vals };
        proof {
            assert(r@.dom() =~= self@.dom());
            assert forall|i: int| 0 <= i < self.order().len() implies r@[#[trigger] self.order()[i]]
                == vals@[i] by {
                r.lemma_at(i);
            }
        }
        r
    }

    /// The value at a place in the order, to be changed.
    pub fn val_at_mut(&mut self, i: usize) -> (v: &mut V)
        requires
            i < old(self).order().len(),
        ensures
            old(self)@.contains_key(old(self).order()[i as int]),
            *v == old(self)@[old(self).order()[i as int]],
            final(self).order() == old(self).order(),
            final(self)@ == old(self)@.insert(old(self).order()[i as int], *final(v)),
    {
        proof {
            use_type_invariant(&*self);
            self.lemma_is_order();
            self.lemma_at(i as int);
        }
        let ghost had = self.vals@;
        let ghost k = texts(self.keys@);
        let ghost m = self@;
        let r = &mut self.vals[i];
        proof {
            assert forall|w: V, key: Seq<char>| k.contains(key) implies #[trigger] had.update(
                i as int,
                w,
            )[k.index_of(key)] == (if key == k[i as int] {
                w
            } else {
                had[k.index_of(key)]
            }) by {
                if k.index_of(key) != i && key == k[i as int] {
                    lemma_increasing_distinct(k, i as int, k.index_of(key));
                }
            }
            let made = Map::new(
                |key: Seq<char>|
                    k.contains(key) && k.index_of(key) < had.update(i as int, *final(r)).len(),
                |key: Seq<char>| had.update(i as int, *final(r))[k.index_of(key)],
            );
            assert(made =~= m.insert(k[i as int], *final(r)));
            assert(made.dom() =~= m.dom());
        }
        r
    }

    /// The place of a key, or where it would go.
    fn place(&self, key: &str) -> (r: (usize, bool))
        ensures
            r.0 <= self.keys@.len(),
            r.1 ==> r.0 < self.keys@.len() && self.keys@[r.0 as int]@ == key@,
            r.1 == self@.contains_key(key@),
            forall|j: int| 0 <= j < r.0 ==> before(texts(self.keys@)[j], key@),
            !r.1 ==> forall|j: int|
                r.0 <= j < self.keys@.len() ==> before(key@, texts(self.keys@)[j]),
    {
        proof {
            use_type_invariant(self);
        }
        let ghost k = texts(self.keys@);
        let mut i: usize = 0;
        while i < self.keys.len() && sorts_before(self.keys[i].as_str(), key)
            invariant
                k == texts(self.keys@),
                i <= self.keys@.len(),
                forall|j: int| 0 <= j < i ==> before(k[j], key@),
            decreases self.keys@.len() - i,
        {
            i += 1;
        }
        let hit = i < self.keys.len() && same(self.keys[i].as_str(), key);
        proof {
            if hit {
                self.lemma_at(i as int);
            } else {
                assert forall|j: int| i <= j < k.len() implies before(key@, k[j]) by {
                    lemma_before_total(k[i as int], key@);
                    if i < j {
                        assert(before(k[i as int], k[j]));
                        lemma_before_transitive(key@, k[i as int], k[j]);
                    }
                }
                if k.contains(key@) {
                    lemma_before_irreflexive(key@);
                    let j = k.index_of(key@);
                    assert(j < i || j >= i);
                }
            }
        }
        (i, hit)
    }

    /// Whether the key is there.
    pub fn contains(&self, key: &str) -> (r: bool)
        ensures
            r == self@.contains_key(key@),
    {
        self.place(key).1
    }

    /// The place of a key in the order.
    pub fn index_of(&self, key: &str) -> (r: Option<usize>)
        ensures
            match r {
                Some(i) => self@.contains_key(key@) && i < self.order().len()
                    && self.order()[i as int] == key@,
                None => !self@.contains_key(key@),
            },
    {
        let (i, hit) = self.place(key);
        proof {
            use_type_invariant(self);
            self.lemma_is_order();
        }
        if hit {
            Some(i)
        } else {
            None
        }
    }

    /// The value of a key.
    pub fn get(&self, key: &str) -> (r: Option<&V>)
        ensures
            match r {
                Some(v) => self@.contains_key(key@) && *v == self@[key@],
                None => !self@.contains_key(key@),
            },
    {
        match self.index_of(key) {
            Some(i) => Some(self.val_at(i)),
            None => None,
        }
    }

    /// The value of a key, to be changed.
    pub fn get_mut(&mut self, key: &str) -> (r: Option<&mut V>)
        ensures
            match r {
                Some(v) => {
                    &&& old(self)@.contains_key(key@)
                    &&& *v == old(self)@[key@]
                    &&& final(self).order() == old(self).order()
                    &&& final(self)@ == old(self)@.insert(key@, *final(v))
                },
                None => !old(self)@.contains_key(key@) && *final(self) == *old(self),
            },
    {
        match self.index_of(key) {
            Some(i) => Some(self.val_at_mut(i)),
            None => None,
        }
    }

    /// Stores a value under a key, in place of the one that was there.
    pub fn insert(&mut self, key: String, val: V)
        ensures
            final(self)@ == old(self)@.insert(key@, val),
    {
        let (i, hit) = self.place(key.as_str());
        let ghost was = *self;
        let ghost k = texts(self.keys@);
        let ghost name = key@;
        let mut had: Dict<V> = Dict::new();
        std::mem::swap(self, &mut had);
        proof {
            use_type_invariant(&had);
            if hit {
                had.lemma_at(i as int);
            }
        }
        let Dict { mut keys, mut vals } = had;
        if hit {
            vals.set(i, val);
            *self = Dict { keys, vals };
            proof {
                assert forall|key2: Seq<char>| k.contains(key2) implies self@[key2] == was@.insert(
                    name,
                    val,
                )[key2] by {
                    if k.index_of(key2) != i && key2 == k[i as int] {
                        lemma_increasing_distinct(k, i as int, k.index_of(key2));
                    }
                }
                assert(self@ =~= was@.insert(name, val));
            }
        } else {
            keys.insert(i, key);
            vals.insert(i, val);
            let ghost n = texts(keys@);
            proof {
                assert(n =~= k.insert(i as int, name));
                assert forall|a: int, b: int| 0 <= a < b < n.len() implies before(
                    #[trigger] n[a],
                    #[trigger] n[b],
                ) by {
                    if b < i {
                        assert(n[a] == k[a] && n[b] == k[b]);
                    } else if b == i {
                        assert(n[a] == k[a]);
                    } else if a < i {
                        assert(n[a] == k[a] && n[b] == k[b - 1]);
                    } else if a == i {
                        assert(n[b] == k[b - 1]);
                    } else {
                        assert(n[a] == k[a - 1] && n[b] == k[b - 1]);
                    }
                }
            }
            *self = Dict { keys, vals };
            proof {
                assert forall|key2: Seq<char>| n.contains(key2) <==> (k.contains(key2) || key2
                    == name) by {
                    if k.contains(key2) {
                        let a = k.index_of(key2);
                        assert(n[if a < i {
                            a
                        } else {
                            a + 1
                        }] == key2);
                    }
                    if key2 == name {
                        assert(n[i as int] == name);
                    }
                    if n.contains(key2) && key2 != name {
                        let a = n.index_of(key2);
                        assert(k[if a < i {
                            a
                        } else {
                            a - 1
                        }] == key2);
                    }
                }
                assert forall|key2: Seq<char>| n.contains(key2) implies self@[key2] == was@.insert(
                    name,
                    val,
                )[key2] by {
                    let a = n.index_of(key2);
                    if key2 == name {
                        assert(n[i as int] == name);
                        lemma_increasing_distinct(n, a, i as int);
                    } else {
                        let b = if a < i {
                            a
                        } else {
                            a - 1
                        };
                        assert(k[b] == key2);
                        assert(k.contains(key2));
                        lemma_increasing_distinct(k, b, k.index_of(key2));
                    }
                }
                assert(self@ =~= was@.insert(name, val));
            }
        }
    }

    /// Takes out the key at a place in the order.
    pub fn remove_at(&mut self, i: usize) -> (v: V)
        requires
            i < old(self).order().len(),
        ensures
            old(self)@.contains_key(old(self).order()[i as int]),
            v == old(self)@[old(self).order()[i as int]],
            final(self)@ == old(self)@.remove(old(self).order()[i as int]),
            final(self).order() == old(self).order().remove(i as int),
    {
        proof {
            use_type_invariant(&*self);
            self.lemma_is_order();
            self.lemma_at(i as int);
        }
        let ghost was = *self;
        let ghost k = texts(self.keys@);
        let mut had: Dict<V> = Dict::new();
        std::mem::swap(self, &mut had);
        let Dict { mut keys, mut vals } = had;
        let _key = keys.remove(i);
        let v = vals.remove(i);
        let ghost n = texts(keys@);
        proof {
            assert(n =~= k.remove(i as int));
            assert forall|a: int, b: int| 0 <= a < b < n.len() implies before(
                #[trigger] n[a],
                #[trigger] n[b],
            ) by {
                let x = if a < i {
                    a
                } else {
                    a + 1
                };
                let y = if b < i {
                    b
                } else {
                    b + 1
                };
                assert(n[a] == k[x] && n[b] == k[y]);
            }
        }
        *self = Dict { keys, vals };
        proof {
            assert forall|key2: Seq<char>| n.contains(key2) <==> (k.contains(key2) && key2
                != k[i as int]) by {
                if n.contains(key2) {
                    let a = n.index_of(key2);
                    let x = if a < i {
                        a
                    } else {
                        a + 1
                    };
                    assert(k[x] == key2);
                    if key2 == k[i as int] {
                        lemma_increasing_distinct(k, x, i as int);
                    }
                }
                if k.contains(key2) && key2 != k[i as int] {
                    let x = k.index_of(key2);
                    assert(n[if x < i {
                        x
                    } else {
                        x - 1
                    }] == key2);
                }
            }
            assert forall|key2: Seq<char>| n.contains(key2) implies self@[key2] == was@[key2] by {
                let a = n.index_of(key2);
                let x = if a < i {
                    a
                } else {
                    a + 1
                };
                assert(k[x] == key2);
                assert(k.contains(key2));
                lemma_increasing_distinct(k, x, k.index_of(key2));
            }
            assert(self@ =~= was@.remove(k[i as int]));
            use_type_invariant(&*self);
            self.lemma_is_order();
        }
        v
    }

    /// Takes out a key, if it is there.
    pub fn remove(&mut self, key: &str) -> (r: Option<V>)
        ensures
            final(self)@ == old(self)@.remove(key@),
            match r {
                Some(v) => old(self)@.contains_key(key@) && v == old(self)@[key@],
                None => !old(self)@.contains_key(key@) && *final(self) == *old(self),
            },
    {
        match self.index_of(key) {
            Some(i) => Some(self.remove_at(i)),
            None => {
                proof {
                    assert(self@.remove(key@) =~= self@);
                }
                None
            },
        }
    }
}

/// A copy of a map from strings to strings.
pub fn copy_texts(d: &Dict<String>) -> (r: Dict<String>)
    ensures
        r@ == d@,
{
    let mut vals: Vec<String> = Vec::new();
    let n: usize = d.len();
    let mut i: usize = 0;
    while i < n
        invariant
            i <= n,
            n == d.order().len(),
            vals@.len() == i,
            forall|j: int| 0 <= j < i ==> (#[trigger] vals@[j]) == d@[d.order()[j]],
        decreases n - i,
    {
        vals.push(d.val_at(i).clone());
        i += 1;
    }
    let out = d.with_values(vals);
    proof {
        assert forall|k: Seq<char>| d@.contains_key(k) implies out@[k] == d@[k] by {
            assert(d@.dom().contains(k));
            let j = d.order().index_of(k);
            assert(d.order()[j] == k);
            assert(vals@[j] == d@[d.order()[j]]);
        }
        assert(out@ =~= d@);
    }
    out
}

/// Takes out each of some keys that is there.
pub fn drop_keys<V>(d: &mut Dict<V>, ids: &Vec<String>)
    ensures
        final(d)@ == old(d)@.remove_keys(texts(ids@).to_set()),
{
    let ghost was = d@;
    let ghost all = texts(ids@);
    let mut i: usize = 0;
    proof {
        assert(was.remove_keys(all.take(0).to_set()) =~= was);
    }
    while i < ids.len()
        invariant
            i <= ids@.len(),
            all == texts(ids@),
            d@ == was.remove_keys(all.take(i as int).to_set()),
        decreases ids@.len() - i,
    {
        d.remove(ids[i].as_str());
        proof {
            assert(d@ =~= was.remove_keys(all.take(i + 1).to_set())) by {
                assert forall|k: Seq<char>| all.take(i + 1).contains(k) <==> #[trigger] all.take(
                    i as int,
                ).contains(k) || k == ids@[i as int]@ by {
                    lemma_take_contains(all, i as int, k);
                }
            }
        }
        i += 1;
    }
    proof {
        assert(all.take(all.len() as int) =~= all);
    }
}

} // verus!
