//! Which agents a placement group's bundles go to, and in which order.

use vstd::prelude::*;

use crate::common::dict::{lemma_finite_lists, lemma_increasing_distinct, ordered};
use crate::common::text::{
    before, lemma_before_irreflexive, lemma_before_total,
    lemma_before_transitive,
};
use crate::daemon::count_laws::{law_free_gpus_are_those_not_taken, taken};
use crate::daemon::place::{
    fills_before, filling_order, filling_place, first_room, fitted, lemma_first_room, need_of,
    packed, slots, SlotV,
};
use crate::daemon::state::{BundleV, StateV};

verus! {

/// Whether an agent may be given bundles of a group: it is alive, it is of the group,
/// and its node is one of those allowed, where some are named.
pub open spec fn usable(
    s: StateV,
    k: Seq<char>,
    group: Seq<char>,
    nodes: Option<Seq<Seq<char>>>,
) -> bool {
    &&& s.agents.contains_key(k)
    &&& s.agents[k].alive
    &&& s.agents[k].group == group
    &&& nodes is Some ==> nodes->0.contains(s.agents[k].node_id)
}

/// Whether one agent comes before another: on the driver's node before elsewhere,
/// and of two alike the one with the smaller registration number, or of one number
/// the one with the smaller id.
pub open spec fn comes_first(s: StateV, driver: Seq<char>, x: Seq<char>, y: Seq<char>) -> bool {
    let near = |k: Seq<char>| s.agents[k].node_id == driver;
    ||| near(x) && !near(y)
    ||| near(x) == near(y) && s.agents[x].seq < s.agents[y].seq
    ||| near(x) == near(y) && s.agents[x].seq == s.agents[y].seq && before(x, y)
}

proof fn lemma_comes_first(s: StateV, driver: Seq<char>, x: Seq<char>, y: Seq<char>)
    ensures
        fills_before(s, driver, x, y) == comes_first(s, driver, x, y),
{
}

proof fn lemma_total(s: StateV, driver: Seq<char>, x: Seq<char>, y: Seq<char>)
    ensures
        x != y ==> comes_first(s, driver, x, y) || comes_first(s, driver, y, x),
{
    lemma_before_total(x, y);
}

proof fn lemma_transitive(
    s: StateV,
    driver: Seq<char>,
    x: Seq<char>,
    y: Seq<char>,
    z: Seq<char>,
)
    requires
        comes_first(s, driver, x, y),
        comes_first(s, driver, y, z),
    ensures
        comes_first(s, driver, x, z),
{
    if before(x, y) && before(y, z) {
        lemma_before_transitive(x, y, z);
    }
}

/// Whether some agents stand in the order in which they are filled.
pub open spec fn in_filling_order(s: StateV, driver: Seq<char>, v: Seq<Seq<char>>) -> bool {
    forall|i: int, j: int|
        0 <= i < j < v.len() ==> comes_first(s, driver, #[trigger] v[i], #[trigger] v[j])
}

proof fn lemma_place(s: StateV, driver: Seq<char>, sorted: Seq<Seq<char>>, x: Seq<char>)
    requires
        in_filling_order(s, driver, sorted),
        !sorted.contains(x),
    ensures
        ({
            let p = filling_place(s, driver, sorted, x);
            &&& 0 <= p <= sorted.len()
            &&& forall|i: int| 0 <= i < p ==> comes_first(s, driver, #[trigger] sorted[i], x)
            &&& forall|i: int|
                p <= i < sorted.len() ==> comes_first(s, driver, x, #[trigger] sorted[i])
        }),
    decreases sorted.len(),
{
    if sorted.len() > 0 {
        let last = sorted.last();
        assert(sorted[sorted.len() - 1] == last);
        lemma_comes_first(s, driver, x, last);
        if fills_before(s, driver, x, last) {
            let init = sorted.drop_last();
            assert forall|i: int, j: int| 0 <= i < j < init.len() implies comes_first(
                s,
                driver,
                #[trigger] init[i],
                #[trigger] init[j],
            ) by {
                assert(init[i] == sorted[i] && init[j] == sorted[j]);
            }
            assert(!init.contains(x)) by {
                if init.contains(x) {
                    assert(sorted[init.index_of(x)] == x);
                }
            }
            lemma_place(s, driver, init, x);
            let p = filling_place(s, driver, sorted, x);
            assert forall|i: int| 0 <= i < p implies comes_first(
                s,
                driver,
                #[trigger] sorted[i],
                x,
            ) by {
                assert(init[i] == sorted[i]);
            }
            assert forall|i: int| p <= i < sorted.len() implies comes_first(
                s,
                driver,
                x,
                #[trigger] sorted[i],
            ) by {
                if i < init.len() {
                    assert(init[i] == sorted[i]);
                }
            }
        } else {
            lemma_total(s, driver, x, last);
            assert(comes_first(s, driver, last, x));
            assert forall|i: int| 0 <= i < sorted.len() implies comes_first(
                s,
                driver,
                #[trigger] sorted[i],
                x,
            ) by {
                if i < sorted.len() - 1 {
                    assert(comes_first(s, driver, sorted[i], sorted[sorted.len() - 1]));
                    lemma_transitive(s, driver, sorted[i], last, x);
                }
            }
        }
    }
}

proof fn lemma_order(
    s: StateV,
    group: Seq<char>,
    driver: Seq<char>,
    nodes: Option<Seq<Seq<char>>>,
    keys: Seq<Seq<char>>,
)
    requires
        keys.no_duplicates(),
        forall|i: int| 0 <= i < keys.len() ==> s.agents.contains_key(#[trigger] keys[i]),
    ensures
        ({
            let out = filling_order(s, group, driver, nodes, keys);
            &&& in_filling_order(s, driver, out)
            &&& forall|k: Seq<char>| #[trigger]
                out.contains(k) <==> keys.contains(k) && usable(s, k, group, nodes)
        }),
    decreases keys.len(),
{
    if keys.len() > 0 {
        let init = keys.drop_last();
        let x = keys.last();
        assert(keys[keys.len() - 1] == x);
        assert(init.no_duplicates()) by {
            assert forall|a: int, b: int|
                0 <= a < init.len() && 0 <= b < init.len() && a != b implies init[a] != init[b] by {
                assert(init[a] == keys[a] && init[b] == keys[b]);
            }
        }
        assert forall|i: int| 0 <= i < init.len() implies s.agents.contains_key(
            #[trigger] init[i],
        ) by {
            assert(init[i] == keys[i]);
        }
        lemma_order(s, group, driver, nodes, init);
        assert forall|k: Seq<char>| keys.contains(k) == (init.contains(k) || k == x) by {
            if keys.contains(k) {
                let i = keys.index_of(k);
                if i < init.len() {
                    assert(init[i] == k);
                }
            }
            if init.contains(k) {
                assert(keys[init.index_of(k)] == k);
            }
        }
        assert(!init.contains(x)) by {
            if init.contains(x) {
                assert(keys[init.index_of(x)] == keys[keys.len() - 1]);
            }
        }
        let had = filling_order(s, group, driver, nodes, init);
        let out = filling_order(s, group, driver, nodes, keys);
        if usable(s, x, group, nodes) {
            assert(!had.contains(x));
            lemma_place(s, driver, had, x);
            let p = filling_place(s, driver, had, x);
            assert(out == had.insert(p, x));
            assert forall|i: int, j: int| 0 <= i < j < out.len() implies comes_first(
                s,
                driver,
                #[trigger] out[i],
                #[trigger] out[j],
            ) by {
                let a = if i < p {
                    i
                } else {
                    i - 1
                };
                let b = if j < p {
                    j
                } else {
                    j - 1
                };
                if i == p {
                    assert(out[j] == had[b]);
                } else if j == p {
                    assert(out[i] == had[a]);
                } else {
                    assert(out[i] == had[a] && out[j] == had[b]);
                }
            }
            assert forall|k: Seq<char>| #[trigger] out.contains(k) <==> keys.contains(k) && usable(
                s,
                k,
                group,
                nodes,
            ) by {
                if out.contains(k) {
                    let i = out.index_of(k);
                    if i < p {
                        assert(had[i] == k);
                    } else if i > p {
                        assert(had[i - 1] == k);
                    }
                }
                if had.contains(k) {
                    let i = had.index_of(k);
                    if i < p {
                        assert(out[i] == k);
                    } else {
                        assert(out[i + 1] == k);
                    }
                }
                assert(out[p] == x);
            }
        }
    }
}

/// Agents are filled in one order: those that are alive, of the group and in scope,
/// each once; those on the driver's node before all others; and of two alike the one
/// that registered first.
pub proof fn law_the_drivers_node_is_filled_first(
    s: StateV,
    group: Seq<char>,
    driver: Seq<char>,
    nodes: Option<Seq<Seq<char>>>,
)
    requires
        s.agents.dom().finite(),
    ensures
        ({
            let v = filling_order(s, group, driver, nodes, ordered(s.agents.dom()));
            &&& forall|k: Seq<char>| #[trigger] v.contains(k) <==> usable(s, k, group, nodes)
            &&& v.no_duplicates()
            &&& forall|i: int, j: int|
                0 <= i < j < v.len() ==> {
                    let (a, b) = (s.agents[#[trigger] v[i]], s.agents[#[trigger] v[j]]);
                    &&& b.node_id == driver ==> a.node_id == driver
                    &&& (a.node_id == driver) == (b.node_id == driver) ==> a.seq <= b.seq
                }
        }),
{
    lemma_the_order(s, group, driver, nodes);
    let v = filling_order(s, group, driver, nodes, ordered(s.agents.dom()));
    assert(v.no_duplicates()) by {
        assert forall|i: int, j: int|
            0 <= i < v.len() && 0 <= j < v.len() && i != j implies v[i] != v[j] by {
            lemma_before_irreflexive(v[i]);
            if i < j {
                assert(comes_first(s, driver, v[i], v[j]));
            } else {
                assert(comes_first(s, driver, v[j], v[i]));
            }
        }
    }
}

proof fn lemma_the_order(
    s: StateV,
    group: Seq<char>,
    driver: Seq<char>,
    nodes: Option<Seq<Seq<char>>>,
)
    requires
        s.agents.dom().finite(),
    ensures
        ({
            let v = filling_order(s, group, driver, nodes, ordered(s.agents.dom()));
            &&& forall|k: Seq<char>| #[trigger] v.contains(k) <==> usable(s, k, group, nodes)
            &&& in_filling_order(s, driver, v)
        }),
{
    let keys = ordered(s.agents.dom());
    lemma_finite_lists(s.agents.dom());
    assert forall|i: int| 0 <= i < keys.len() implies s.agents.contains_key(#[trigger] keys[i]) by {
        assert(keys.contains(keys[i]));
        assert(s.agents.dom().contains(keys[i]));
    }
    assert(keys.no_duplicates()) by {
        assert forall|a: int, b: int|
            0 <= a < keys.len() && 0 <= b < keys.len() && a != b implies keys[a] != keys[b] by {
            if keys[a] == keys[b] {
                lemma_increasing_distinct(keys, a, b);
            }
        }
    }
    lemma_order(s, group, driver, nodes, keys);
    let v = filling_order(s, group, driver, nodes, keys);
    assert forall|k: Seq<char>| #[trigger] v.contains(k) <==> usable(s, k, group, nodes) by {
        assert(keys.contains(k) == s.agents.dom().contains(k));
    }
}

/// How many of an agent's devices nothing has taken.
pub open spec fn room(s: StateV, k: Seq<char>) -> nat {
    Seq::new(
        s.agents[k].machine.gpus.len(),
        |i: int| s.agents[k].machine.gpus[i].index,
    ).filter(|g: u32| !taken(s, k, g)).len()
}

/// Whether an agent is given a bundle of this size before any other is: it has room
/// for it, and none with room comes before it.
pub open spec fn first_with_room(
    s: StateV,
    group: Seq<char>,
    driver: Seq<char>,
    nodes: Option<Seq<Seq<char>>>,
    need: nat,
    k: Seq<char>,
) -> bool {
    &&& usable(s, k, group, nodes)
    &&& room(s, k) >= need
    &&& forall|o: Seq<char>|
        o != k && #[trigger] usable(s, o, group, nodes) && room(s, o) >= need ==> comes_first(
            s,
            driver,
            k,
            o,
        )
}

proof fn lemma_packed_head(
    s: StateV,
    bundles: Seq<u32>,
    pool: Seq<SlotV>,
    had: Seq<Option<BundleV>>,
)
    requires
        packed(s, bundles, pool, had) is Some,
    ensures
        packed(s, bundles, pool, had)->0.len() == had.len() + bundles.len(),
        forall|i: int|
            0 <= i < had.len() ==> #[trigger] packed(s, bundles, pool, had)->0[i] == had[i],
    decreases bundles.len(),
{
    if bundles.len() > 0 {
        let need = need_of(bundles[0]);
        let i = first_room(pool, need);
        let b = BundleV {
            agent: pool[i].agent,
            node_id: s.agents[pool[i].agent].node_id,
            gpu_ids: pool[i].free.take(need as int),
        };
        let more = pool.update(
            i,
            SlotV { agent: pool[i].agent, free: pool[i].free.skip(need as int) },
        );
        lemma_packed_head(s, bundles.drop_first(), more, had.push(Some(b)));
        assert forall|j: int| 0 <= j < had.len() implies #[trigger] packed(
            s,
            bundles,
            pool,
            had,
        )->0[j] == had[j] by {
            assert(had.push(Some(b))[j] == had[j]);
        }
    }
}

/// A placement group's first bundle goes to the first agent with room for it: on the
/// driver's node wherever an agent there has as many GPUs that nothing has taken. It
/// takes the first of them. A bundle of no GPUs takes one.
pub proof fn law_the_first_bundle_stands_by_the_driver(
    s: StateV,
    group: Seq<char>,
    bundles: Seq<u32>,
    driver: Seq<char>,
    nodes: Option<Seq<Seq<char>>>,
    k: Seq<char>,
)
    requires
        s.agents.dom().finite(),
        bundles.len() > 0,
        fitted(s, group, bundles, driver, nodes) is Some,
        usable(s, k, group, nodes),
        room(s, k) >= bundles[0],
        room(s, k) >= 1,
    ensures
        ({
            let need: nat = if bundles[0] == 0 {
                1
            } else {
                bundles[0] as nat
            };
            let b = fitted(s, group, bundles, driver, nodes)->0[0]->0;
            &&& fitted(s, group, bundles, driver, nodes)->0[0] is Some
            &&& first_with_room(s, group, driver, nodes, need, b.agent)
            &&& b.node_id == s.agents[b.agent].node_id
            &&& s.agents[k].node_id == driver ==> b.node_id == driver
            &&& b.gpu_ids == s.free_gpus(b.agent).take(need as int)
        }),
{
    let v = filling_order(s, group, driver, nodes, ordered(s.agents.dom()));
    lemma_the_order(s, group, driver, nodes);
    let pool = slots(s, v);
    let need = need_of(bundles[0]);
    lemma_first_room(pool, need);
    let i = first_room(pool, need);
    assert(v.contains(k));
    let j = v.index_of(k);
    law_free_gpus_are_those_not_taken(s, k);
    assert(pool[j].free.len() == room(s, k));
    assert(i <= j);
    assert(v.contains(v[i]));
    let c = v[i];
    law_free_gpus_are_those_not_taken(s, c);
    let b = BundleV {
        agent: pool[i].agent,
        node_id: s.agents[pool[i].agent].node_id,
        gpu_ids: pool[i].free.take(need as int),
    };
    let none = Seq::<Option<BundleV>>::empty();
    let more = pool.update(
        i,
        SlotV { agent: pool[i].agent, free: pool[i].free.skip(need as int) },
    );
    lemma_packed_head(s, bundles.drop_first(), more, none.push(Some(b)));
    assert(fitted(s, group, bundles, driver, nodes)->0[0] == none.push(Some(b))[0]);
    assert forall|o: Seq<char>|
        o != c && #[trigger] usable(s, o, group, nodes) && room(s, o)
            >= need implies comes_first(s, driver, c, o) by {
        assert(v.contains(o));
        let x = v.index_of(o);
        law_free_gpus_are_those_not_taken(s, o);
        assert(pool[x].free.len() == room(s, o));
        assert(i <= x);
        assert(comes_first(s, driver, v[i], v[x]));
    }
    if i < j {
        assert(comes_first(s, driver, v[i], v[j]));
    }
}

/// A placement group of one bundle fits exactly where some agent that may be used has
/// as many GPUs that nothing has taken.
pub proof fn law_one_bundle_fits_where_there_is_room(
    s: StateV,
    group: Seq<char>,
    bundle: u32,
    driver: Seq<char>,
    nodes: Option<Seq<Seq<char>>>,
)
    requires
        s.agents.dom().finite(),
    ensures
        fitted(s, group, seq![bundle], driver, nodes) is Some <==> exists|k: Seq<char>|
            #[trigger] usable(s, k, group, nodes) && room(s, k) >= bundle && room(s, k) >= 1,
{
    let v = filling_order(s, group, driver, nodes, ordered(s.agents.dom()));
    lemma_the_order(s, group, driver, nodes);
    let pool = slots(s, v);
    let need = need_of(bundle);
    lemma_first_room(pool, need);
    let i = first_room(pool, need);
    assert(seq![bundle][0] == bundle);
    assert(seq![bundle].drop_first() =~= Seq::empty());
    if i < pool.len() {
        let c = v[i];
        assert(v.contains(c));
        law_free_gpus_are_those_not_taken(s, c);
        assert(usable(s, c, group, nodes) && room(s, c) >= bundle && room(s, c) >= 1);
        assert(fitted(s, group, seq![bundle], driver, nodes) is Some) by {
            reveal_with_fuel(packed, 2);
        }
    } else {
        assert forall|k: Seq<char>| #[trigger] usable(s, k, group, nodes) implies !(room(s, k)
            >= bundle && room(s, k) >= 1) by {
            assert(v.contains(k));
            let x = v.index_of(k);
            law_free_gpus_are_those_not_taken(s, k);
            assert(pool[x].free.len() == room(s, k));
        }
    }
}

// ---------------------------------------------------------------------------
// Every bundle
// ---------------------------------------------------------------------------
/// How many of an agent's GPUs the first `n` of some bundles took.
pub open spec fn drawn(out: Seq<Option<BundleV>>, n: nat, k: Seq<char>) -> nat
    decreases n,
{
    if n == 0 {
        0
    } else {
        drawn(out, (n - 1) as nat, k) + (if out[n - 1] is Some && out[n - 1]->0.agent == k {
            out[n - 1]->0.gpu_ids.len()
        } else {
            0
        })
    }
}

/// Whether an agent has room for a bundle of this size, after the first `n` of some
/// bundles were given out.
pub open spec fn has_room(
    s: StateV,
    group: Seq<char>,
    nodes: Option<Seq<Seq<char>>>,
    out: Seq<Option<BundleV>>,
    n: nat,
    need: int,
    k: Seq<char>,
) -> bool {
    usable(s, k, group, nodes) && room(s, k) - drawn(out, n, k) >= need
}

/// The GPUs a bundle takes: one at least.
pub open spec fn takes(b: u32) -> int {
    if b >= 1 {
        b as int
    } else {
        1
    }
}

/// Whether each of some bundles went to the first agent that had room for it after
/// those before it, and took the first GPUs left there.
pub open spec fn each_takes_the_first_room(
    s: StateV,
    group: Seq<char>,
    bundles: Seq<u32>,
    driver: Seq<char>,
    nodes: Option<Seq<Seq<char>>>,
    out: Seq<Option<BundleV>>,
) -> bool {
    forall|n: int|
        0 <= n < out.len() ==> ({
            let b = (#[trigger] out[n])->0;
            let need = takes(bundles[n]);
            let from = drawn(out, n as nat, b.agent) as int;
            &&& out[n] is Some
            &&& has_room(s, group, nodes, out, n as nat, need, b.agent)
            &&& forall|o: Seq<char>|
                o != b.agent && #[trigger] has_room(s, group, nodes, out, n as nat, need, o)
                    ==> comes_first(s, driver, b.agent, o)
            &&& b.node_id == s.agents[b.agent].node_id
            &&& b.gpu_ids == s.free_gpus(b.agent).subrange(from, from + need)
        })
}

proof fn lemma_drawn_alike(
    a: Seq<Option<BundleV>>,
    b: Seq<Option<BundleV>>,
    n: nat,
    k: Seq<char>,
)
    requires
        n <= a.len(),
        n <= b.len(),
        forall|i: int| 0 <= i < n ==> a[i] == b[i],
    ensures
        drawn(a, n, k) == drawn(b, n, k),
    decreases n,
{
    if n > 0 {
        lemma_drawn_alike(a, b, (n - 1) as nat, k);
    }
}

/// Whether the slots hold what the bundles given out so far left of the free GPUs.
spec fn left_over(
    s: StateV,
    v: Seq<Seq<char>>,
    pool: Seq<SlotV>,
    had: Seq<Option<BundleV>>,
) -> bool {
    &&& pool.len() == v.len()
    &&& forall|i: int|
        0 <= i < pool.len() ==> ({
            &&& (#[trigger] pool[i]).agent == v[i]
            &&& drawn(had, had.len(), v[i]) <= s.free_gpus(v[i]).len()
            &&& pool[i].free == s.free_gpus(v[i]).skip(drawn(had, had.len(), v[i]) as int)
        })
}

#[verifier::rlimit(60)]
#[verifier::spinoff_prover]
proof fn lemma_packed_greedy(
    s: StateV,
    group: Seq<char>,
    all: Seq<u32>,
    driver: Seq<char>,
    nodes: Option<Seq<Seq<char>>>,
    v: Seq<Seq<char>>,
    pool: Seq<SlotV>,
    had: Seq<Option<BundleV>>,
)
    requires
        had.len() <= all.len(),
        in_filling_order(s, driver, v),
        forall|k: Seq<char>| #[trigger] v.contains(k) <==> usable(s, k, group, nodes),
        left_over(s, v, pool, had),
        each_takes_the_first_room(s, group, all, driver, nodes, had),
    ensures
        match packed(s, all.skip(had.len() as int), pool, had) {
            Some(out) => {
                &&& out.len() == all.len()
                &&& each_takes_the_first_room(s, group, all, driver, nodes, out)
            },
            None => exists|out: Seq<Option<BundleV>>|
                {
                    &&& out.len() < all.len()
                    &&& #[trigger] each_takes_the_first_room(s, group, all, driver, nodes, out)
                    &&& forall|k: Seq<char>|
                        !#[trigger] has_room(
                            s,
                            group,
                            nodes,
                            out,
                            out.len(),
                            takes(all[out.len() as int]),
                            k,
                        )
                },
        },
    decreases all.len() - had.len(),
{
    let rest = all.skip(had.len() as int);
    let n = had.len();
    if rest.len() > 0 {
        assert(rest[0] == all[n as int]);
        let need = need_of(rest[0]);
        assert(need == takes(all[n as int]));
        lemma_first_room(pool, need);
        let i = first_room(pool, need);
        assert forall|k: Seq<char>| #[trigger] usable(s, k, group, nodes) implies room(s, k)
            == s.free_gpus(k).len() && v.contains(k) by {
            law_free_gpus_are_those_not_taken(s, k);
        }
        if i < pool.len() {
            let c = v[i];
            let b = BundleV {
                agent: pool[i].agent,
                node_id: s.agents[pool[i].agent].node_id,
                gpu_ids: pool[i].free.take(need as int),
            };
            let next = had.push(Some(b));
            let more = pool.update(
                i,
                SlotV { agent: pool[i].agent, free: pool[i].free.skip(need as int) },
            );
            assert(v.contains(c));
            assert(usable(s, c, group, nodes));
            let from = drawn(had, n, c) as int;
            assert(b.gpu_ids =~= s.free_gpus(c).subrange(from, from + need));
            assert forall|k: Seq<char>| #[trigger] drawn(next, n, k) == drawn(had, n, k) by {
                lemma_drawn_alike(next, had, n, k);
            }
            assert(left_over(s, v, more, next)) by {
                assert forall|j: int| 0 <= j < more.len() implies ({
                    &&& (#[trigger] more[j]).agent == v[j]
                    &&& drawn(next, next.len(), v[j]) <= s.free_gpus(v[j]).len()
                    &&& more[j].free == s.free_gpus(v[j]).skip(
                        drawn(next, next.len(), v[j]) as int,
                    )
                }) by {
                    assert(pool[j].agent == v[j]);
                    assert(drawn(next, n, v[j]) == drawn(had, n, v[j]));
                    if j == i {
                        assert(more[j].free =~= s.free_gpus(v[j]).skip(from + need));
                    } else {
                        lemma_before_irreflexive(v[i]);
                        if i < j {
                            assert(comes_first(s, driver, v[i], v[j]));
                        } else {
                            assert(comes_first(s, driver, v[j], v[i]));
                        }
                        assert(v[j] != v[i]);
                    }
                }
            }
            assert(each_takes_the_first_room(s, group, all, driver, nodes, next)) by {
                assert forall|m: int| 0 <= m < next.len() implies ({
                    let b = (#[trigger] next[m])->0;
                    let need = takes(all[m]);
                    let from = drawn(next, m as nat, b.agent) as int;
                    &&& next[m] is Some
                    &&& has_room(s, group, nodes, next, m as nat, need, b.agent)
                    &&& forall|o: Seq<char>|
                        o != b.agent && #[trigger] has_room(
                            s,
                            group,
                            nodes,
                            next,
                            m as nat,
                            need,
                            o,
                        ) ==> comes_first(s, driver, b.agent, o)
                    &&& b.node_id == s.agents[b.agent].node_id
                    &&& b.gpu_ids == s.free_gpus(b.agent).subrange(from, from + need)
                }) by {
                    let before_it = m as nat;
                    assert forall|k: Seq<char>| #[trigger]
                        drawn(next, before_it, k) == drawn(had, before_it, k) by {
                        lemma_drawn_alike(next, had, before_it, k);
                    }
                    if m < n {
                        assert(next[m] == had[m]);
                        let d = had[m]->0;
                        assert forall|o: Seq<char>|
                            o != d.agent && #[trigger] has_room(
                                s,
                                group,
                                nodes,
                                next,
                                m as nat,
                                takes(all[m]),
                                o,
                            ) implies comes_first(s, driver, d.agent, o) by {
                            assert(has_room(s, group, nodes, had, m as nat, takes(all[m]), o));
                        }
                        assert(has_room(s, group, nodes, had, m as nat, takes(all[m]), d.agent));
                    } else {
                        assert(next[m] == Some(b));
                        assert forall|o: Seq<char>|
                            o != b.agent && #[trigger] has_room(
                                s,
                                group,
                                nodes,
                                next,
                                m as nat,
                                takes(all[m]),
                                o,
                            ) implies comes_first(s, driver, b.agent, o) by {
                            assert(v.contains(o));
                            let x = v.index_of(o);
                            assert(pool[x].agent == v[x]);
                            assert(pool[x].free.len() >= need);
                            assert(i <= x);
                            assert(comes_first(s, driver, v[i], v[x]));
                        }
                    }
                }
            }
            assert(rest.drop_first() =~= all.skip(next.len() as int));
            lemma_packed_greedy(s, group, all, driver, nodes, v, more, next);
        } else {
            assert forall|k: Seq<char>|
                !#[trigger] has_room(s, group, nodes, had, n, takes(all[n as int]), k) by {
                if usable(s, k, group, nodes) {
                    let x = v.index_of(k);
                    assert(pool[x].agent == v[x]);
                    assert(pool[x].free.len() < need);
                }
            }
        }
    }
}

/// Bundles are given out one after another, each to the first agent with room left,
/// and a group fits unless one of them finds no room after those before it.
pub proof fn law_every_bundle_takes_the_first_room(
    s: StateV,
    group: Seq<char>,
    bundles: Seq<u32>,
    driver: Seq<char>,
    nodes: Option<Seq<Seq<char>>>,
)
    requires
        s.agents.dom().finite(),
    ensures
        match fitted(s, group, bundles, driver, nodes) {
            Some(out) => {
                &&& out.len() == bundles.len()
                &&& each_takes_the_first_room(s, group, bundles, driver, nodes, out)
            },
            None => exists|out: Seq<Option<BundleV>>|
                {
                    &&& out.len() < bundles.len()
                    &&& #[trigger] each_takes_the_first_room(
                        s,
                        group,
                        bundles,
                        driver,
                        nodes,
                        out,
                    )
                    &&& forall|k: Seq<char>|
                        !#[trigger] has_room(
                            s,
                            group,
                            nodes,
                            out,
                            out.len(),
                            takes(bundles[out.len() as int]),
                            k,
                        )
                },
        },
{
    let v = filling_order(s, group, driver, nodes, ordered(s.agents.dom()));
    lemma_the_order(s, group, driver, nodes);
    let none = Seq::<Option<BundleV>>::empty();
    let pool = slots(s, v);
    assert(left_over(s, v, pool, none)) by {
        assert forall|i: int| 0 <= i < pool.len() implies (#[trigger] pool[i]).free
            == s.free_gpus(v[i]).skip(0) by {
            assert(s.free_gpus(v[i]).skip(0) =~= s.free_gpus(v[i]));
        }
    }
    assert(bundles.skip(0) =~= bundles);
    lemma_packed_greedy(s, group, bundles, driver, nodes, v, pool, none);
}

} // verus!
