//! What holds of every placement that `place::try_place` makes.

use vstd::prelude::*;

use crate::common::dict::{lemma_finite_lists, lemma_increasing_distinct, ordered};
use crate::daemon::place::{
    driver_node, eligible, filling_order, filling_place, first_fit, first_room, fitted,
    lemma_first_room, need_of, need_total, opted_in, packed, placed_one, room_place, room_scope,
    rooms, scopes_of, slots, trying_order, RoomV, ScopeV, SlotV,
};
use crate::daemon::state::{gpu_indices, BundleV, PgState, PgV, StateV};

verus! {

// ---------------------------------------------------------------------------
// Packing
// ---------------------------------------------------------------------------
/// Whether one bundle's assignment comes out of a slot: the GPUs it has left,
/// none of them elsewhere.
pub open spec fn drawn_from(s: StateV, b: BundleV, slot: SlotV) -> bool {
    &&& b.agent == slot.agent
    &&& b.node_id == s.agents[b.agent].node_id
    &&& forall|g: u32| b.gpu_ids.contains(g) ==> #[trigger] slot.free.contains(g)
}

/// No two slots are of one agent, and no GPU is in a slot twice.
pub open spec fn orderly(pool: Seq<SlotV>) -> bool {
    &&& forall|i: int, j: int|
        0 <= i < j < pool.len() ==> (#[trigger] pool[i]).agent != (#[trigger] pool[j]).agent
    &&& forall|i: int| 0 <= i < pool.len() ==> (#[trigger] pool[i]).free.no_duplicates()
}

/// Two assignments share no GPU.
pub open spec fn apart(a: BundleV, b: BundleV) -> bool {
    a.agent == b.agent ==> forall|g: u32|
        #![auto]
        !(a.gpu_ids.contains(g) && b.gpu_ids.contains(g))
}

proof fn lemma_packed(
    s: StateV,
    bundles: Seq<u32>,
    pool: Seq<SlotV>,
    had: Seq<Option<BundleV>>,
)
    requires
        packed(s, bundles, pool, had) is Some,
    ensures
        ({
            let out = packed(s, bundles, pool, had)->Some_0;
            let n = had.len() as int;
            &&& out.len() == n + bundles.len()
            &&& forall|i: int| 0 <= i < n ==> #[trigger] out[i] == had[i]
            &&& forall|i: int|
                n <= i < out.len() ==> (#[trigger] out[i]) is Some
                    && out[i]->Some_0.gpu_ids.len() == need_of(bundles[i - n])
                    && (orderly(pool) ==> out[i]->Some_0.gpu_ids.no_duplicates()) && exists|j: int|
                    0 <= j < pool.len() && drawn_from(s, out[i]->Some_0, #[trigger] pool[j])
            &&& orderly(pool) ==> forall|i: int, k: int|
                n <= i < k < out.len() ==> apart(
                    (#[trigger] out[i])->Some_0,
                    (#[trigger] out[k])->Some_0,
                )
        }),
    decreases bundles.len(),
{
    if bundles.len() > 0 {
        let need = need_of(bundles[0]);
        let at = first_room(pool, need);
        lemma_first_room(pool, need);
        let slot = pool[at];
        let b = BundleV {
            agent: slot.agent,
            node_id: s.agents[slot.agent].node_id,
            gpu_ids: slot.free.take(need as int),
        };
        let left = SlotV { agent: slot.agent, free: slot.free.skip(need as int) };
        let pool1 = pool.update(at, left);
        let had1 = had.push(Some(b));
        assert(orderly(pool) ==> left.free.no_duplicates()) by {
            assert forall|x: int, y: int|
                orderly(pool) && 0 <= x < left.free.len() && 0 <= y < left.free.len() && x
                    != y implies left.free[x] != left.free[y] by {
                assert(left.free[x] == slot.free[x + need]);
                assert(left.free[y] == slot.free[y + need]);
            }
        }
        if orderly(pool) {
            assert(orderly(pool1)) by {
                assert forall|i: int, j: int| 0 <= i < j < pool1.len() implies (
                #[trigger] pool1[i]).agent != (#[trigger] pool1[j]).agent by {
                    assert(pool1[i].agent == pool[i].agent);
                    assert(pool1[j].agent == pool[j].agent);
                    assert(pool[i].agent != pool[j].agent);
                }
                assert forall|i: int| 0 <= i < pool1.len() implies (
                #[trigger] pool1[i]).free.no_duplicates() by {
                    if i != at {
                        assert(pool1[i] == pool[i]);
                    }
                }
            }
        }
        lemma_packed(s, bundles.drop_first(), pool1, had1);
        let out = packed(s, bundles, pool, had)->Some_0;
        let n = had.len() as int;
        assert(out[n] == had1[n]);
        assert(drawn_from(s, b, pool[at])) by {
            assert forall|g: u32| b.gpu_ids.contains(g) implies #[trigger] slot.free.contains(g) by {
                let x = b.gpu_ids.index_of(g);
                assert(slot.free[x] == g);
            }
        }
        assert(orderly(pool) ==> b.gpu_ids.no_duplicates());
        assert forall|i: int| 0 <= i < n implies #[trigger] out[i] == had[i] by {
            assert(had1[i] == had[i]);
            assert(out[i] == had1[i]);
        }
        assert forall|i: int| n <= i < out.len() implies (#[trigger] out[i]) is Some
            && out[i]->Some_0.gpu_ids.len() == need_of(bundles[i - n])
            && (orderly(pool) ==> out[i]->Some_0.gpu_ids.no_duplicates()) && exists|j: int|
            0 <= j < pool.len() && drawn_from(s, out[i]->Some_0, #[trigger] pool[j]) by {
            if i > n {
                assert(bundles.drop_first()[i - n - 1] == bundles[i - n]);
                let j = choose|j: int|
                    0 <= j < pool1.len() && drawn_from(s, out[i]->Some_0, #[trigger] pool1[j]);
                assert(drawn_from(s, out[i]->Some_0, pool[j])) by {
                    if j == at {
                        assert forall|g: u32|
                            out[i]->Some_0.gpu_ids.contains(g) implies #[trigger] pool[j].free.contains(
                            g,
                        ) by {
                            assert(pool1[j].free.contains(g));
                            let x = left.free.index_of(g);
                            assert(slot.free[x + need] == g);
                        }
                    }
                }
            }
        }
        assert forall|i: int, k: int| orderly(pool) && n <= i < k < out.len() implies apart(
            (#[trigger] out[i])->Some_0,
            (#[trigger] out[k])->Some_0,
        ) by {
            if i == n {
                let c = out[k]->Some_0;
                let j = choose|j: int|
                    0 <= j < pool1.len() && drawn_from(s, c, #[trigger] pool1[j]);
                if c.agent == b.agent {
                    if j != at {
                        assert(pool1[j] == pool[j]);
                        if j < at {
                            assert(pool[j].agent != pool[at].agent);
                        } else {
                            assert(pool[at].agent != pool[j].agent);
                        }
                    }
                    assert forall|g: u32| #![auto] !(b.gpu_ids.contains(g) && c.gpu_ids.contains(
                        g,
                    )) by {
                        if b.gpu_ids.contains(g) && c.gpu_ids.contains(g) {
                            assert(pool1[at].free.contains(g));
                            let x = b.gpu_ids.index_of(g);
                            let y = left.free.index_of(g);
                            assert(slot.free[x] == g);
                            assert(slot.free[y + need] == g);
                        }
                    }
                }
            }
        }
    }
}

// ---------------------------------------------------------------------------
// The agents that are filled
// ---------------------------------------------------------------------------
proof fn lemma_filling_place(
    s: StateV,
    driver: Seq<char>,
    sorted: Seq<Seq<char>>,
    x: Seq<char>,
)
    ensures
        0 <= filling_place(s, driver, sorted, x) <= sorted.len(),
    decreases sorted.len(),
{
    if sorted.len() > 0 {
        lemma_filling_place(s, driver, sorted.drop_last(), x);
    }
}

proof fn lemma_filling_order(
    s: StateV,
    group: Seq<char>,
    driver: Seq<char>,
    nodes: Option<Seq<Seq<char>>>,
    keys: Seq<Seq<char>>,
)
    requires
        keys.no_duplicates(),
    ensures
        ({
            let out = filling_order(s, group, driver, nodes, keys);
            &&& out.no_duplicates()
            &&& forall|i: int|
                0 <= i < out.len() ==> keys.contains(#[trigger] out[i]) && eligible(
                    s.agents[out[i]],
                    group,
                    nodes,
                )
        }),
    decreases keys.len(),
{
    if keys.len() > 0 {
        let init = keys.drop_last();
        let x = keys.last();
        assert(init.no_duplicates()) by {
            assert forall|a: int, b: int|
                0 <= a < init.len() && 0 <= b < init.len() && a != b implies init[a] != init[b] by {
                assert(init[a] == keys[a] && init[b] == keys[b]);
            }
        }
        lemma_filling_order(s, group, driver, nodes, init);
        let had = filling_order(s, group, driver, nodes, init);
        let out = filling_order(s, group, driver, nodes, keys);
        if eligible(s.agents[x], group, nodes) {
            let p = filling_place(s, driver, had, x);
            lemma_filling_place(s, driver, had, x);
            assert forall|i: int| 0 <= i < out.len() implies keys.contains(#[trigger] out[i])
                && eligible(s.agents[out[i]], group, nodes) by {
                if i == p {
                    assert(keys[keys.len() - 1] == out[i]);
                } else {
                    let j = if i < p {
                        i
                    } else {
                        i - 1
                    };
                    assert(out[i] == had[j]);
                    let k = init.index_of(had[j]);
                    assert(keys[k] == out[i]);
                }
            }
            assert(!had.contains(x)) by {
                if had.contains(x) {
                    let j = had.index_of(x);
                    assert(init.contains(had[j]));
                    let k = init.index_of(x);
                    assert(keys[k] == keys[keys.len() - 1]);
                }
            }
            assert forall|a: int, b: int|
                0 <= a < out.len() && 0 <= b < out.len() && a != b implies out[a] != out[b] by {
                let i = if a < p {
                    a
                } else {
                    a - 1
                };
                let j = if b < p {
                    b
                } else {
                    b - 1
                };
                if a == p {
                    assert(out[b] == had[j]);
                } else if b == p {
                    assert(out[a] == had[i]);
                } else {
                    assert(out[a] == had[i] && out[b] == had[j]);
                }
            }
        } else {
            assert forall|i: int| 0 <= i < out.len() implies keys.contains(#[trigger] out[i])
                && eligible(s.agents[out[i]], group, nodes) by {
                let k = init.index_of(out[i]);
                assert(keys[k] == out[i]);
            }
        }
    }
}

proof fn lemma_unheld(s: StateV, agent: Seq<char>, gpus: Seq<u32>)
    ensures
        forall|g: u32| #[trigger]
            s.unheld(agent, gpus).contains(g) ==> gpus.contains(g) && !s.held(agent, g),
        gpus.no_duplicates() ==> s.unheld(agent, gpus).no_duplicates(),
    decreases gpus.len(),
{
    if gpus.len() > 0 {
        let init = gpus.drop_last();
        let x = gpus.last();
        let had = s.unheld(agent, init);
        let out = s.unheld(agent, gpus);
        lemma_unheld(s, agent, init);
        assert forall|g: u32| #[trigger] out.contains(g) implies gpus.contains(g) && !s.held(
            agent,
            g,
        ) by {
            let i = out.index_of(g);
            if i < had.len() {
                assert(had[i] == g);
                assert(had.contains(g));
                let k = init.index_of(g);
                assert(gpus[k] == g);
            } else {
                assert(gpus[gpus.len() - 1] == g);
            }
        }
        if gpus.no_duplicates() {
            assert(init.no_duplicates()) by {
                assert forall|a: int, b: int|
                    0 <= a < init.len() && 0 <= b < init.len() && a != b implies init[a]
                    != init[b] by {
                    assert(init[a] == gpus[a] && init[b] == gpus[b]);
                }
            }
            if out.len() > had.len() {
                assert(!had.contains(x)) by {
                    if had.contains(x) {
                        let k = init.index_of(x);
                        assert(gpus[k] == gpus[gpus.len() - 1]);
                    }
                }
                assert forall|a: int, b: int|
                    0 <= a < out.len() && 0 <= b < out.len() && a != b implies out[a]
                    != out[b] by {
                    if a < had.len() {
                        assert(out[a] == had[a]);
                    }
                    if b < had.len() {
                        assert(out[b] == had[b]);
                    }
                }
            }
        }
    }
}

/// No machine lists a device twice.
pub open spec fn devices_distinct(s: StateV) -> bool {
    forall|k: Seq<char>| #[trigger]
        s.agents.contains_key(k) ==> gpu_indices(s.agents[k].machine).no_duplicates()
}

/// What holds of a fitted group: one assignment for each bundle, of the GPUs
/// it needs, on a live agent of the group inside the scope, out of the GPUs
/// that nothing held; and no GPU twice, where no machine lists one twice.
pub open spec fn well_fitted(
    s: StateV,
    group: Seq<char>,
    bundles: Seq<u32>,
    nodes: Option<Seq<Seq<char>>>,
    out: Seq<Option<BundleV>>,
) -> bool {
    &&& out.len() == bundles.len()
    &&& forall|i: int|
        0 <= i < out.len() ==> ({
            let b = (#[trigger] out[i])->Some_0;
            &&& out[i] is Some
            &&& s.agents.contains_key(b.agent)
            &&& eligible(s.agents[b.agent], group, nodes)
            &&& b.node_id == s.agents[b.agent].node_id
            &&& b.gpu_ids.len() == need_of(bundles[i])
            &&& devices_distinct(s) ==> b.gpu_ids.no_duplicates()
            &&& forall|g: u32| #[trigger]
                b.gpu_ids.contains(g) ==> gpu_indices(s.agents[b.agent].machine).contains(g)
                    && !s.held(b.agent, g)
        })
    &&& devices_distinct(s) ==> forall|i: int, k: int|
        0 <= i < k < out.len() ==> apart(
            (#[trigger] out[i])->Some_0,
            (#[trigger] out[k])->Some_0,
        )
}

/// A group that fits fits as `well_fitted` says.
pub proof fn law_a_fit_is_whole_and_exclusive(
    s: StateV,
    group: Seq<char>,
    bundles: Seq<u32>,
    driver: Seq<char>,
    nodes: Option<Seq<Seq<char>>>,
)
    requires
        s.agents.dom().finite(),
        fitted(s, group, bundles, driver, nodes) is Some,
    ensures
        well_fitted(s, group, bundles, nodes, fitted(s, group, bundles, driver, nodes)->Some_0),
{
    let keys = ordered(s.agents.dom());
    lemma_finite_lists(s.agents.dom());
    assert(keys.no_duplicates()) by {
        assert forall|a: int, b: int|
            0 <= a < keys.len() && 0 <= b < keys.len() && a != b implies keys[a] != keys[b] by {
            if keys[a] == keys[b] {
                lemma_increasing_distinct(keys, a, b);
            }
        }
    }
    lemma_filling_order(s, group, driver, nodes, keys);
    let ids = filling_order(s, group, driver, nodes, keys);
    let pool = slots(s, ids);
    assert forall|i: int| 0 <= i < pool.len() implies s.agents.contains_key(
        (#[trigger] pool[i]).agent,
    ) && eligible(s.agents[pool[i].agent], group, nodes) by {
        assert(pool[i].agent == ids[i]);
        assert(keys.contains(ids[i]));
        assert(s.agents.dom().contains(ids[i]));
    }
    assert(devices_distinct(s) ==> orderly(pool)) by {
        assert forall|i: int, j: int| 0 <= i < j < pool.len() implies (#[trigger] pool[i]).agent
            != (#[trigger] pool[j]).agent by {
            assert(ids[i] != ids[j]);
        }
        assert forall|i: int| devices_distinct(s) && 0 <= i < pool.len() implies (
        #[trigger] pool[i]).free.no_duplicates() by {
            lemma_unheld(s, ids[i], gpu_indices(s.agents[ids[i]].machine));
        }
    }
    lemma_packed(s, bundles, pool, Seq::empty());
    let out = fitted(s, group, bundles, driver, nodes)->Some_0;
    assert forall|i: int| 0 <= i < out.len() implies ({
        let b = (#[trigger] out[i])->Some_0;
        &&& out[i] is Some
        &&& s.agents.contains_key(b.agent)
        &&& eligible(s.agents[b.agent], group, nodes)
        &&& b.node_id == s.agents[b.agent].node_id
        &&& b.gpu_ids.len() == need_of(bundles[i])
        &&& devices_distinct(s) ==> b.gpu_ids.no_duplicates()
        &&& forall|g: u32| #[trigger]
            b.gpu_ids.contains(g) ==> gpu_indices(s.agents[b.agent].machine).contains(g)
                && !s.held(b.agent, g)
    }) by {
        let b = out[i]->Some_0;
        let j = choose|j: int| 0 <= j < pool.len() && drawn_from(s, b, #[trigger] pool[j]);
        assert(pool[j].agent == ids[j]);
        lemma_unheld(s, ids[j], gpu_indices(s.agents[ids[j]].machine));
        assert forall|g: u32| #[trigger] b.gpu_ids.contains(g) implies gpu_indices(
            s.agents[b.agent].machine,
        ).contains(g) && !s.held(b.agent, g) by {
            assert(pool[j].free.contains(g));
            assert(s.unheld(ids[j], gpu_indices(s.agents[ids[j]].machine)).contains(g));
        }
    }
}

// ---------------------------------------------------------------------------
// Placing a group
// ---------------------------------------------------------------------------
/// The scope that a group was placed in.
pub open spec fn placed_in(
    s: StateV,
    p: PgV,
    driver: Seq<char>,
    scopes: Seq<ScopeV>,
    at: int,
) -> bool {
    &&& 0 <= at < scopes.len()
    &&& fitted(s, p.group, p.bundles, driver, scopes[at].nodes) is Some
    &&& first_fit(s, p.group, p.bundles, driver, scopes) == Some(
        (
            scopes[at].island,
            fitted(s, p.group, p.bundles, driver, scopes[at].nodes)->Some_0,
        ),
    )
}

pub proof fn lemma_first_fit(s: StateV, p: PgV, driver: Seq<char>, scopes: Seq<ScopeV>)
    requires
        first_fit(s, p.group, p.bundles, driver, scopes) is Some,
    ensures
        exists|at: int| placed_in(s, p, driver, scopes, at),
    decreases scopes.len(),
{
    if scopes.len() > 0 {
        if fitted(s, p.group, p.bundles, driver, scopes[0].nodes) is Some {
            assert(placed_in(s, p, driver, scopes, 0));
        } else {
            let tail = scopes.drop_first();
            lemma_first_fit(s, p, driver, tail);
            let at = choose|at: int| placed_in(s, p, driver, tail, at);
            assert(tail[at] == scopes[at + 1]);
            assert(placed_in(s, p, driver, scopes, at + 1));
        }
    }
}

/// Placing is all or nothing: a group that was tried is created with an
/// assignment for every bundle, exclusive as `well_fitted` says, or holds what
/// it held before. No other group changes, and no agent, actor or claim.
pub proof fn law_placing_is_all_or_nothing(s: StateV, id: Seq<char>, by_island: bool)
    requires
        s.pgs.contains_key(id),
        s.agents.dom().finite(),
    ensures
        ({
            let t = placed_one(s, id, by_island);
            let (p, q) = (s.pgs[id], t.pgs[id]);
            &&& q.state == PgState::Created && well_fitted(
                s,
                p.group,
                p.bundles,
                None,
                q.assignment,
            ) || q == (PgV { pending_reason: q.pending_reason, ..p })
            &&& t.pgs == s.pgs.insert(id, q)
            &&& t.agents == s.agents
            &&& t.actors == s.actors
            &&& t.claims == s.claims
            &&& t.refs == s.refs
            &&& t.clients == s.clients
        }),
{
    let p = s.pgs[id];
    let driver = driver_node(s, p.owner);
    assert(s.pgs.insert(id, s.pgs[id]) =~= s.pgs);
    match scopes_of(s, p.group, p.bundles, driver, p.claim, by_island) {
        Err(why) => {},
        Ok(scopes) => {
            if first_fit(s, p.group, p.bundles, driver, scopes) is Some {
                lemma_first_fit(s, p, driver, scopes);
                let at = choose|at: int| placed_in(s, p, driver, scopes, at);
                let nodes = scopes[at].nodes;
                law_a_fit_is_whole_and_exclusive(s, p.group, p.bundles, driver, nodes);
                let out = fitted(s, p.group, p.bundles, driver, nodes)->Some_0;
                assert(well_fitted(s, p.group, p.bundles, nodes, out));
                assert(well_fitted(s, p.group, p.bundles, None, out)) by {
                    assert forall|i: int| 0 <= i < out.len() implies eligible(
                        s.agents[(#[trigger] out[i])->Some_0.agent],
                        p.group,
                        None,
                    ) by {
                        assert(eligible(s.agents[out[i]->Some_0.agent], p.group, nodes));
                    }
                }
            }
        },
    }
}

proof fn lemma_trying_order_members(found: Seq<RoomV>)
    ensures
        trying_order(found).len() == found.len(),
        forall|i: int|
            0 <= i < found.len() ==> found.contains(#[trigger] trying_order(found)[i]),
    decreases found.len(),
{
    if found.len() > 0 {
        let init = found.drop_last();
        let x = found.last();
        lemma_trying_order_members(init);
        let had = trying_order(init);
        let p = room_place(had, x);
        lemma_room_place(had, x);
        let out = trying_order(found);
        assert forall|i: int| 0 <= i < found.len() implies found.contains(#[trigger] out[i]) by {
            if i == p {
                assert(found[found.len() - 1] == out[i]);
            } else {
                let j = if i < p {
                    i
                } else {
                    i - 1
                };
                assert(out[i] == had[j]);
                let k = init.index_of(had[j]);
                assert(found[k] == out[i]);
            }
        }
    }
}

proof fn lemma_room_place(sorted: Seq<RoomV>, x: RoomV)
    ensures
        0 <= room_place(sorted, x) <= sorted.len(),
    decreases sorted.len(),
{
    if sorted.len() > 0 {
        lemma_room_place(sorted.drop_last(), x);
    }
}

/// A group of several bundles that opted in, and names no claim, is placed on
/// the nodes of one scope: an island, or one node.
pub proof fn law_ranks_share_one_fabric(s: StateV, id: Seq<char>)
    requires
        s.pgs.contains_key(id),
        s.agents.dom().finite(),
        s.pgs[id].state == PgState::Pending,
        s.pgs[id].claim.len() == 0,
        s.pgs[id].bundles.len() >= 2,
        opted_in(s, s.pgs[id].group),
        placed_one(s, id, true).pgs[id].state == PgState::Created,
    ensures
        ({
            let p = s.pgs[id];
            let q = placed_one(s, id, true).pgs[id];
            let driver = driver_node(s, p.owner);
            exists|r: RoomV|
                #![auto]
                rooms(s, p.group, driver, need_total(p.bundles)).contains(r) && forall|i: int|
                    0 <= i < q.assignment.len() ==> r.island.nodes.contains(
                        (#[trigger] q.assignment[i])->Some_0.node_id,
                    )
        }),
{
    let p = s.pgs[id];
    let q = placed_one(s, id, true).pgs[id];
    let driver = driver_node(s, p.owner);
    let found = rooms(s, p.group, driver, need_total(p.bundles));
    let order = trying_order(found);
    let scopes = Seq::new(order.len(), |i: int| room_scope(order[i]));
    assert(scopes_of(s, p.group, p.bundles, driver, p.claim, true) is Ok);
    lemma_first_fit(s, p, driver, scopes);
    let at = choose|at: int| placed_in(s, p, driver, scopes, at);
    lemma_trying_order_members(found);
    let r = order[at];
    assert(found.contains(r));
    let nodes = scopes[at].nodes;
    assert(nodes == Some(r.island.nodes));
    law_a_fit_is_whole_and_exclusive(s, p.group, p.bundles, driver, nodes);
    let out = fitted(s, p.group, p.bundles, driver, nodes)->Some_0;
    assert(q.assignment == out);
    assert forall|i: int| 0 <= i < q.assignment.len() implies r.island.nodes.contains(
        (#[trigger] q.assignment[i])->Some_0.node_id,
    ) by {
        let b = out[i]->Some_0;
        assert(eligible(s.agents[b.agent], p.group, nodes));
    }
}

} // verus!
