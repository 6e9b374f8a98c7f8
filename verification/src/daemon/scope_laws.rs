//! Where a placement group may be placed, and what is tried first.

use vstd::prelude::*;

use crate::common::dict::{lemma_finite_lists, ordered};
use crate::common::json::JsonV;
use crate::daemon::count_laws::{
    device_taken, gpus_where, lemma_keys, lemma_nothing_counted, lemma_tally, lemma_unheld_counted,
    taken, tally,
};
use crate::daemon::filling_laws::{takes, usable};
use crate::daemon::place::{
    claimed, driver_node, eligible, first_fit, first_unserved, fitted, free_among,
    free_in, island_rooms, lone_rooms, names_node, need_total, opted_in, placed_one,
    room_place, rooms, scopes_of, served, tried_before, trying_order, RoomV, ScopeV,
};
use crate::daemon::state::{gpu_indices, BundleV, IslandV, PgState, PgV, StateV};
use crate::daemon::status::counts;

verus! {

// ---------------------------------------------------------------------------
// Counting
// ---------------------------------------------------------------------------
/// The GPUs that bundles ask for, one at least for each.
pub open spec fn gpus_asked(bundles: Seq<u32>) -> int
    decreases bundles.len(),
{
    if bundles.len() == 0 {
        0
    } else {
        gpus_asked(bundles.drop_last()) + takes(bundles.last())
    }
}

proof fn lemma_need_total(bundles: Seq<u32>)
    ensures
        need_total(bundles) == gpus_asked(bundles),
    decreases bundles.len(),
{
    if bundles.len() > 0 {
        lemma_need_total(bundles.drop_last());
    }
}

/// The GPUs that agents of a group on some nodes have, and that nothing has taken.
pub open spec fn free_for(s: StateV, group: Seq<char>, nodes: Option<Seq<Seq<char>>>) -> Set<
    (Seq<char>, int),
> {
    gpus_where(
        s,
        |k: Seq<char>, i: int| usable(s, k, group, nodes) && !device_taken(s, k, i),
    )
}

proof fn lemma_free_among(
    s: StateV,
    group: Seq<char>,
    nodes: Option<Seq<Seq<char>>>,
    keys: Seq<Seq<char>>,
)
    requires
        forall|i: int| 0 <= i < keys.len() ==> s.agents.contains_key(#[trigger] keys[i]),
    ensures
        free_among(s, group, nodes, keys) == tally(
            s,
            keys,
            |k: Seq<char>, i: int| usable(s, k, group, nodes) && !device_taken(s, k, i),
        ),
    decreases keys.len(),
{
    if keys.len() > 0 {
        let init = keys.drop_last();
        assert forall|i: int| 0 <= i < init.len() implies s.agents.contains_key(
            #[trigger] init[i],
        ) by {
            assert(init[i] == keys[i]);
        }
        lemma_free_among(s, group, nodes, init);
        let k = keys.last();
        assert(keys[keys.len() - 1] == k);
        let all = gpu_indices(s.agents[k].machine);
        let q = |k: Seq<char>, i: int| usable(s, k, group, nodes) && !device_taken(s, k, i);
        if eligible(s.agents[k], group, nodes) {
            assert forall|i: int| 0 <= i < all.len() implies q(k, i) == (true != taken(
                s,
                k,
                #[trigger] all[i],
            )) by {
                assert(all[i] == s.agents[k].machine.gpus[i].index);
            }
            lemma_unheld_counted(s, k, all, q, true);
            assert(s.free_gpus(k) == s.unheld(k, all));
        } else {
            lemma_nothing_counted(k, all.len(), q);
        }
    }
}

proof fn lemma_free_in(s: StateV, group: Seq<char>, nodes: Option<Seq<Seq<char>>>)
    requires
        s.agents.dom().finite(),
    ensures
        free_for(s, group, nodes).finite(),
        free_in(s, group, nodes) == free_for(s, group, nodes).len(),
{
    lemma_keys(s);
    lemma_free_among(s, group, nodes, ordered(s.agents.dom()));
    lemma_tally(s, |k: Seq<char>, i: int| usable(s, k, group, nodes) && !device_taken(s, k, i));
}

// ---------------------------------------------------------------------------
// A claim's nodes
// ---------------------------------------------------------------------------
/// Whether what a claim was granted names a node: some set has a member there.
pub open spec fn names(view: JsonV, n: Seq<char>) -> bool {
    exists|set: Seq<char>, i: int| member_on(view, set, i, n)
}

/// Whether a member of a set is on a node.
pub open spec fn member_on(view: JsonV, set: Seq<char>, i: int, n: Seq<char>) -> bool {
    let members = view.field("sets"@).field(set).items();
    &&& view.field("sets"@).has(set)
    &&& 0 <= i < members.len()
    &&& members[i].field("node"@) == JsonV::Str(n)
}

proof fn lemma_names(view: JsonV, n: Seq<char>)
    ensures
        claimed(view).contains(n) == names(view, n),
{
    let sets = view.field("sets"@);
    let m = sets.fields();
    if claimed(view).contains(n) {
        let k = choose|k: Seq<char>| #[trigger] m.contains_key(k) && names_node(m[k].items(), n);
        let i = choose|i: int|
            0 <= i < m[k].items().len() && (#[trigger] m[k].items()[i]).field("node"@).text()
                == Some(n);
        assert(sets.has(k) && sets.field(k) == m[k]);
        assert(member_on(view, k, i, n));
    }
    if names(view, n) {
        let (set, i) = choose|set: Seq<char>, i: int| member_on(view, set, i, n);
        assert(m.contains_key(set) && m[set] == sets.field(set));
        assert(m[set].items()[i].field("node"@).text() == Some(n));
        assert(names_node(m[set].items(), n));
    }
}

/// Whether a live agent of a group is on a node.
pub open spec fn has_agent(s: StateV, group: Seq<char>, n: Seq<char>) -> bool {
    exists|k: Seq<char>| #[trigger] usable(s, k, group, None) && s.agents[k].node_id == n
}

proof fn lemma_served(s: StateV, group: Seq<char>, n: Seq<char>)
    ensures
        served(s, group).contains(n) == has_agent(s, group, n),
{
    if served(s, group).contains(n) {
        let k = choose|k: Seq<char>| #[trigger]
            s.agents.contains_key(k) && counts(s.agents[k], group)
                && s.agents[k].node_id == n;
        assert(usable(s, k, group, None));
    }
    if has_agent(s, group, n) {
        let k = choose|k: Seq<char>| #[trigger]
            usable(s, k, group, None) && s.agents[k].node_id == n;
        assert(s.agents.contains_key(k));
    }
}

proof fn lemma_first_unserved(s: StateV, group: Seq<char>, nodes: Seq<Seq<char>>)
    ensures
        match first_unserved(s, group, nodes) {
            Some(n) => nodes.contains(n) && !has_agent(s, group, n),
            None => forall|i: int| 0 <= i < nodes.len() ==> has_agent(s, group, #[trigger] nodes[i]),
        },
    decreases nodes.len(),
{
    if nodes.len() > 0 {
        lemma_served(s, group, nodes[0]);
        let tail = nodes.drop_first();
        lemma_first_unserved(s, group, tail);
        if served(s, group).contains(nodes[0]) {
            match first_unserved(s, group, tail) {
                Some(n) => {
                    let i = tail.index_of(n);
                    assert(nodes[i + 1] == n);
                },
                None => {
                    assert forall|i: int| 0 <= i < nodes.len() implies has_agent(
                        s,
                        group,
                        #[trigger] nodes[i],
                    ) by {
                        if i > 0 {
                            assert(tail[i - 1] == nodes[i]);
                        }
                    }
                },
            }
        } else {
            assert(nodes.contains(nodes[0]));
        }
    }
}

/// A placement group that names a claim goes to the nodes that the claim was granted,
/// all of them and no other. It cannot be placed where its group does not hold the claim,
/// the claim names no node, or one of the nodes has no live agent of the group.
pub proof fn law_a_claimed_group_stays_on_its_nodes(
    s: StateV,
    group: Seq<char>,
    bundles: Seq<u32>,
    driver: Seq<char>,
    claim: Seq<char>,
    by_island: bool,
)
    requires
        claim.len() > 0,
        s.claims.contains_key(group) && s.claims[group].contains_key(claim) ==> claimed(
            s.claims[group][claim].view,
        ).finite(),
    ensures
        ({
            let view = s.claims[group][claim].view;
            let held = s.claims.contains_key(group) && s.claims[group].contains_key(claim);
            match scopes_of(s, group, bundles, driver, claim, by_island) {
                Ok(scopes) => {
                    &&& held
                    &&& scopes.len() == 1
                    &&& scopes[0].island is None
                    &&& scopes[0].nodes is Some
                    &&& scopes[0].nodes->0.len() > 0
                    &&& forall|n: Seq<char>| #[trigger]
                        scopes[0].nodes->0.contains(n) <==> names(view, n)
                    &&& forall|n: Seq<char>| #[trigger] names(view, n) ==> has_agent(s, group, n)
                },
                Err(_) => !held || (forall|n: Seq<char>| !#[trigger] names(view, n)) || exists|
                    n: Seq<char>,
                | #[trigger] names(view, n) && !has_agent(s, group, n),
            }
        }),
{
    let held = s.claims.contains_key(group) && s.claims[group].contains_key(claim);
    if held {
        let view = s.claims[group][claim].view;
        let nodes = ordered(claimed(view));
        lemma_finite_lists(claimed(view));
        assert forall|n: Seq<char>| #[trigger] nodes.contains(n) <==> names(view, n) by {
            lemma_names(view, n);
            assert(nodes.contains(n) == claimed(view).contains(n));
        }
        lemma_first_unserved(s, group, nodes);
        if nodes.len() == 0 {
            assert forall|n: Seq<char>| !#[trigger] names(view, n) by {
                assert(!nodes.contains(n));
            }
        } else {
            match first_unserved(s, group, nodes) {
                Some(n) => {
                    assert(names(view, n));
                },
                None => {
                    assert forall|n: Seq<char>| #[trigger] names(view, n) implies has_agent(
                        s,
                        group,
                        n,
                    ) by {
                        assert(nodes.contains(n));
                        let i = nodes.index_of(n);
                        assert(has_agent(s, group, nodes[i]));
                    }
                },
            }
        }
    }
}

/// A placement group that names no claim may go anywhere, where it is of one bundle,
/// where islands are switched off, or where no live agent of its group is on a node with
/// a tagged address.
pub proof fn law_a_plain_group_goes_anywhere(
    s: StateV,
    group: Seq<char>,
    bundles: Seq<u32>,
    driver: Seq<char>,
    by_island: bool,
)
    ensures
        ({
            let tied = bundles.len() >= 2 && by_island && exists|n: Seq<char>|
                has_agent(s, group, n) && #[trigger] s.tagged.contains(n);
            let r = scopes_of(s, group, bundles, driver, Seq::empty(), by_island);
            &&& !tied ==> r is Ok && r->Ok_0.len() == 1 && r->Ok_0[0].nodes is None
                && r->Ok_0[0].island is None
            &&& tied && r is Ok ==> forall|i: int|
                0 <= i < r->Ok_0.len() ==> (#[trigger] r->Ok_0[i]).nodes is Some
        }),
{
    if opted_in(s, group) {
        let n = choose|n: Seq<char>| #[trigger]
            served(s, group).contains(n) && s.tagged.contains(n);
        lemma_served(s, group, n);
    }
    if exists|n: Seq<char>| has_agent(s, group, n) && #[trigger] s.tagged.contains(n) {
        let n = choose|n: Seq<char>| has_agent(s, group, n) && #[trigger] s.tagged.contains(n);
        lemma_served(s, group, n);
        assert(served(s, group).contains(n));
    }
}

// ---------------------------------------------------------------------------
// Islands
// ---------------------------------------------------------------------------
proof fn lemma_island_rooms(
    s: StateV,
    group: Seq<char>,
    driver: Seq<char>,
    need: nat,
    islands: Seq<IslandV>,
)
    ensures
        ({
            let v = island_rooms(s, group, driver, need, islands);
            &&& forall|i: int|
                0 <= i < v.len() ==> ({
                    let r = #[trigger] v[i];
                    &&& islands.contains(r.island)
                    &&& r.away == !r.island.nodes.contains(driver)
                    &&& free_in(s, group, Some(r.island.nodes)) >= need
                })
            &&& forall|i: int|
                0 <= i < islands.len() && free_in(s, group, Some((#[trigger] islands[i]).nodes))
                    >= need ==> exists|j: int|
                    0 <= j < v.len() && (#[trigger] v[j]).island == islands[i]
        }),
    decreases islands.len(),
{
    if islands.len() > 0 {
        let init = islands.drop_last();
        let last = islands.last();
        assert(islands[islands.len() - 1] == last);
        lemma_island_rooms(s, group, driver, need, init);
        let had = island_rooms(s, group, driver, need, init);
        let v = island_rooms(s, group, driver, need, islands);
        assert forall|i: int| 0 <= i < v.len() implies ({
            let r = #[trigger] v[i];
            &&& islands.contains(r.island)
            &&& r.away == !r.island.nodes.contains(driver)
            &&& free_in(s, group, Some(r.island.nodes)) >= need
        }) by {
            if i < had.len() {
                assert(v[i] == had[i]);
                let j = init.index_of(had[i].island);
                assert(islands[j] == had[i].island);
            } else {
                assert(islands.contains(last));
            }
        }
        assert forall|i: int|
            0 <= i < islands.len() && free_in(s, group, Some((#[trigger] islands[i]).nodes))
                >= need implies exists|j: int|
            0 <= j < v.len() && (#[trigger] v[j]).island == islands[i] by {
            if i < init.len() {
                assert(init[i] == islands[i]);
                let j = choose|j: int|
                    0 <= j < had.len() && (#[trigger] had[j]).island == init[i];
                assert(v[j] == had[j]);
            } else {
                assert(v[had.len() as int].island == last);
            }
        }
    }
}

proof fn lemma_lone_rooms(
    s: StateV,
    group: Seq<char>,
    driver: Seq<char>,
    need: nat,
    nodes: Seq<Seq<char>>,
)
    ensures
        ({
            let v = lone_rooms(s, group, driver, need, nodes);
            &&& forall|i: int|
                0 <= i < v.len() ==> ({
                    let r = #[trigger] v[i];
                    &&& r.island.nodes.len() == 1
                    &&& nodes.contains(r.island.nodes[0])
                    &&& r.away == (r.island.nodes[0] != driver)
                    &&& free_in(s, group, Some(r.island.nodes)) >= need
                })
            &&& forall|i: int|
                0 <= i < nodes.len() && free_in(s, group, Some(seq![#[trigger] nodes[i]])) >= need
                    ==> exists|j: int|
                    0 <= j < v.len() && (#[trigger] v[j]).island.nodes == seq![nodes[i]]
        }),
    decreases nodes.len(),
{
    if nodes.len() > 0 {
        let init = nodes.drop_last();
        let last = nodes.last();
        assert(nodes[nodes.len() - 1] == last);
        lemma_lone_rooms(s, group, driver, need, init);
        let had = lone_rooms(s, group, driver, need, init);
        let v = lone_rooms(s, group, driver, need, nodes);
        assert forall|i: int| 0 <= i < v.len() implies ({
            let r = #[trigger] v[i];
            &&& r.island.nodes.len() == 1
            &&& nodes.contains(r.island.nodes[0])
            &&& r.away == (r.island.nodes[0] != driver)
            &&& free_in(s, group, Some(r.island.nodes)) >= need
        }) by {
            if i < had.len() {
                assert(v[i] == had[i]);
                let j = init.index_of(had[i].island.nodes[0]);
                assert(nodes[j] == had[i].island.nodes[0]);
            } else {
                assert(nodes.contains(last));
            }
        }
        assert forall|i: int|
            0 <= i < nodes.len() && free_in(s, group, Some(seq![#[trigger] nodes[i]]))
                >= need implies exists|j: int|
            0 <= j < v.len() && (#[trigger] v[j]).island.nodes == seq![nodes[i]] by {
            if i < init.len() {
                assert(init[i] == nodes[i]);
                let j = choose|j: int|
                    0 <= j < had.len() && (#[trigger] had[j]).island.nodes == seq![init[i]];
                assert(v[j] == had[j]);
            } else {
                assert(v[had.len() as int].island.nodes == seq![last]);
            }
        }
    }
}

/// Whether a room may stand before another: with the driver before without, and of two
/// alike the smaller.
pub open spec fn no_later(a: RoomV, b: RoomV) -> bool {
    if a.away == b.away {
        a.island.nodes.len() <= b.island.nodes.len()
    } else {
        b.away
    }
}

proof fn lemma_room_place(sorted: Seq<RoomV>, x: RoomV)
    requires
        forall|i: int, j: int|
            0 <= i < j < sorted.len() ==> no_later(#[trigger] sorted[i], #[trigger] sorted[j]),
    ensures
        ({
            let p = room_place(sorted, x);
            &&& 0 <= p <= sorted.len()
            &&& forall|i: int| 0 <= i < p ==> no_later(#[trigger] sorted[i], x)
            &&& forall|i: int| p <= i < sorted.len() ==> no_later(x, #[trigger] sorted[i])
        }),
    decreases sorted.len(),
{
    if sorted.len() > 0 {
        let last = sorted.last();
        assert(sorted[sorted.len() - 1] == last);
        if tried_before(x, last) {
            let init = sorted.drop_last();
            assert forall|i: int, j: int| 0 <= i < j < init.len() implies no_later(
                #[trigger] init[i],
                #[trigger] init[j],
            ) by {
                assert(init[i] == sorted[i] && init[j] == sorted[j]);
            }
            lemma_room_place(init, x);
            let p = room_place(sorted, x);
            assert forall|i: int| 0 <= i < p implies no_later(#[trigger] sorted[i], x) by {
                assert(init[i] == sorted[i]);
            }
            assert forall|i: int| p <= i < sorted.len() implies no_later(x, #[trigger] sorted[i]) by {
                if i < init.len() {
                    assert(init[i] == sorted[i]);
                }
            }
        } else {
            assert(no_later(last, x));
            assert forall|i: int| 0 <= i < sorted.len() implies no_later(#[trigger] sorted[i], x) by {
                if i < sorted.len() - 1 {
                    assert(no_later(sorted[i], sorted[sorted.len() - 1]));
                }
            }
        }
    }
}

proof fn lemma_trying_order(v: Seq<RoomV>)
    ensures
        ({
            let o = trying_order(v);
            &&& o.len() == v.len()
            &&& forall|i: int, j: int|
                0 <= i < j < o.len() ==> no_later(#[trigger] o[i], #[trigger] o[j])
            &&& forall|r: RoomV| #[trigger] o.contains(r) <==> v.contains(r)
        }),
    decreases v.len(),
{
    if v.len() > 0 {
        let init = v.drop_last();
        let x = v.last();
        lemma_trying_order(init);
        let had = trying_order(init);
        lemma_room_place(had, x);
        let p = room_place(had, x);
        let o = trying_order(v);
        assert(o == had.insert(p, x));
        assert forall|i: int, j: int| 0 <= i < j < o.len() implies no_later(
            #[trigger] o[i],
            #[trigger] o[j],
        ) by {
            let a = if i < p {
                i
            } else {
                i - 1
            };
            let b = if j < p {
                j
            } else {
                j - 1
            };
            if i == p {
                assert(o[j] == had[b]);
            } else if j == p {
                assert(o[i] == had[a]);
            } else {
                assert(o[i] == had[a] && o[j] == had[b]);
            }
        }
        assert forall|r: RoomV| #[trigger] o.contains(r) <==> v.contains(r) by {
            if o.contains(r) {
                let i = o.index_of(r);
                if i == p {
                    assert(v[v.len() - 1] == r);
                } else {
                    let a = if i < p {
                        i
                    } else {
                        i - 1
                    };
                    assert(had[a] == r);
                    assert(had.contains(r));
                    assert(v[init.index_of(r)] == r);
                }
            }
            if v.contains(r) {
                let i = v.index_of(r);
                if i < init.len() {
                    assert(init[i] == r);
                    assert(init.contains(r));
                    assert(had.contains(r));
                    let a = had.index_of(r);
                    if a < p {
                        assert(o[a] == r);
                    } else {
                        assert(o[a + 1] == r);
                    }
                } else {
                    assert(o[p] == r);
                }
            }
        }
    }
}

/// Whether a group has as many GPUs free on some nodes as bundles ask for.
pub open spec fn enough(
    s: StateV,
    group: Seq<char>,
    bundles: Seq<u32>,
    nodes: Seq<Seq<char>>,
) -> bool {
    free_for(s, group, Some(nodes)).len() >= gpus_asked(bundles)
}

/// Whether a room is one that may be tried: with enough GPUs, and an island's or a single
/// node's of the group.
spec fn fair(s: StateV, group: Seq<char>, bundles: Seq<u32>, driver: Seq<char>, r: RoomV) -> bool {
    &&& enough(s, group, bundles, r.island.nodes)
    &&& r.away == !r.island.nodes.contains(driver)
    &&& s.islands.contains(r.island) || (r.island.nodes.len() == 1 && has_agent(
        s,
        group,
        r.island.nodes[0],
    ))
}

proof fn lemma_enough(s: StateV, group: Seq<char>, bundles: Seq<u32>)
    requires
        s.agents.dom().finite(),
    ensures
        forall|v: Seq<Seq<char>>| #[trigger]
            enough(s, group, bundles, v) == (free_in(s, group, Some(v)) >= need_total(bundles)),
{
    lemma_need_total(bundles);
    assert forall|v: Seq<Seq<char>>| #[trigger] enough(s, group, bundles, v) == (free_in(
        s,
        group,
        Some(v),
    ) >= need_total(bundles)) by {
        lemma_free_in(s, group, Some(v));
    }
}

proof fn lemma_rooms_fair(s: StateV, group: Seq<char>, bundles: Seq<u32>, driver: Seq<char>)
    requires
        s.agents.dom().finite(),
    ensures
        ({
            let o = trying_order(rooms(s, group, driver, need_total(bundles)));
            &&& forall|i: int| 0 <= i < o.len() ==> fair(s, group, bundles, driver, #[trigger] o[i])
            &&& forall|i: int, j: int|
                0 <= i < j < o.len() ==> no_later(#[trigger] o[i], #[trigger] o[j])
            &&& o.len() == rooms(s, group, driver, need_total(bundles)).len()
        }),
{
    let need = need_total(bundles);
    lemma_enough(s, group, bundles);
    let on = island_rooms(s, group, driver, need, s.islands);
    let nodes = ordered(served(s, group));
    lemma_served_finite(s, group);
    lemma_finite_lists(served(s, group));
    let lone = lone_rooms(s, group, driver, need, nodes);
    lemma_island_rooms(s, group, driver, need, s.islands);
    lemma_lone_rooms(s, group, driver, need, nodes);
    let found = rooms(s, group, driver, need);
    lemma_trying_order(found);
    let o = trying_order(found);
    assert forall|i: int| 0 <= i < o.len() implies fair(
        s,
        group,
        bundles,
        driver,
        #[trigger] o[i],
    ) by {
        assert(o.contains(o[i]));
        let r = o[i];
        let x = found.index_of(r);
        assert(found.contains(r));
        if x < on.len() {
            assert(on[x] == r);
            assert(enough(s, group, bundles, r.island.nodes));
        } else {
            let y = x - on.len();
            assert(lone[y] == r);
            let n = r.island.nodes[0];
            assert(nodes.contains(n));
            assert(served(s, group).contains(n));
            lemma_served(s, group, n);
            assert(enough(s, group, bundles, r.island.nodes));
            if r.island.nodes.contains(driver) {
                assert(r.island.nodes[r.island.nodes.index_of(driver)] == driver);
            } else if n == driver {
                assert(r.island.nodes.contains(r.island.nodes[0]));
            }
        }
    }
}

proof fn lemma_rooms_all(s: StateV, group: Seq<char>, bundles: Seq<u32>, driver: Seq<char>)
    requires
        s.agents.dom().finite(),
    ensures
        ({
            let o = trying_order(rooms(s, group, driver, need_total(bundles)));
            &&& forall|j: int|
                0 <= j < s.islands.len() && enough(s, group, bundles, (
                #[trigger] s.islands[j]).nodes) ==> exists|i: int|
                    0 <= i < o.len() && (#[trigger] o[i]).island.nodes == s.islands[j].nodes
            &&& forall|n: Seq<char>|
                #[trigger] has_agent(s, group, n) && enough(s, group, bundles, seq![n])
                    ==> exists|i: int|
                    0 <= i < o.len() && (#[trigger] o[i]).island.nodes == seq![n]
        }),
{
    let need = need_total(bundles);
    lemma_enough(s, group, bundles);
    let on = island_rooms(s, group, driver, need, s.islands);
    let nodes = ordered(served(s, group));
    lemma_served_finite(s, group);
    lemma_finite_lists(served(s, group));
    let lone = lone_rooms(s, group, driver, need, nodes);
    lemma_island_rooms(s, group, driver, need, s.islands);
    lemma_lone_rooms(s, group, driver, need, nodes);
    let found = rooms(s, group, driver, need);
    lemma_trying_order(found);
    let o = trying_order(found);
    assert forall|j: int|
        0 <= j < s.islands.len() && enough(s, group, bundles, (
        #[trigger] s.islands[j]).nodes) implies exists|i: int|
        0 <= i < o.len() && (#[trigger] o[i]).island.nodes == s.islands[j].nodes by {
        let x = choose|x: int| 0 <= x < on.len() && (#[trigger] on[x]).island == s.islands[j];
        assert(found[x] == on[x]);
        assert(found.contains(on[x]));
        assert(o.contains(on[x]));
        assert(o[o.index_of(on[x])] == on[x]);
    }
    assert forall|n: Seq<char>|
        #[trigger] has_agent(s, group, n) && enough(s, group, bundles, seq![n]) implies exists|
        i: int,
    |
        0 <= i < o.len() && (#[trigger] o[i]).island.nodes == seq![n] by {
        lemma_served(s, group, n);
        assert(served(s, group).contains(n));
        assert(nodes.contains(n));
        let y = nodes.index_of(n);
        assert(nodes[y] == n);
        let x = choose|x: int| 0 <= x < lone.len() && (#[trigger] lone[x]).island.nodes == seq![n];
        assert(found[on.len() + x] == lone[x]);
        assert(found.contains(lone[x]));
        assert(o.contains(lone[x]));
        assert(o[o.index_of(lone[x])] == lone[x]);
    }
}

/// Whether a scope has the driver's node.
pub open spec fn by_the_driver(sc: ScopeV, driver: Seq<char>) -> bool {
    sc.nodes->0.contains(driver)
}

/// A placement group of several bundles whose group is on a tagged node is tried only on
/// islands, and on single nodes of the group, that have enough GPUs free for all of it.
/// Those with the driver come before those without, and of two alike the one with fewer
/// nodes. A fabric is named only where there is more than one node to cross.
pub proof fn law_a_group_is_tried_on_islands_with_room(
    s: StateV,
    group: Seq<char>,
    bundles: Seq<u32>,
    driver: Seq<char>,
)
    requires
        s.agents.dom().finite(),
        bundles.len() >= 2,
        exists|n: Seq<char>| has_agent(s, group, n) && #[trigger] s.tagged.contains(n),
        scopes_of(s, group, bundles, driver, Seq::empty(), true) is Ok,
    ensures
        ({
            let v = scopes_of(s, group, bundles, driver, Seq::empty(), true)->Ok_0;
            &&& v.len() > 0
            &&& forall|i: int|
                0 <= i < v.len() ==> ({
                    let sc = #[trigger] v[i];
                    &&& sc.nodes is Some
                    &&& enough(s, group, bundles, sc.nodes->0)
                    &&& sc.island is Some <==> sc.nodes->0.len() > 1
                    &&& sc.island is Some ==> s.islands.contains(sc.island->0)
                        && sc.island->0.nodes == sc.nodes->0
                    &&& sc.nodes->0.len() == 1 && has_agent(s, group, sc.nodes->0[0])
                        || exists|x: IslandV|
                        #[trigger] s.islands.contains(x) && x.nodes == sc.nodes->0
                })
            &&& forall|i: int, j: int|
                0 <= i < j < v.len() ==> ({
                    let (a, b) = (#[trigger] v[i], #[trigger] v[j]);
                    &&& by_the_driver(b, driver) ==> by_the_driver(a, driver)
                    &&& by_the_driver(a, driver) == by_the_driver(b, driver) ==> a.nodes->0.len()
                        <= b.nodes->0.len()
                })
        }),
{
    lemma_tied(s, group);
    lemma_rooms_fair(s, group, bundles, driver);
    let o = trying_order(rooms(s, group, driver, need_total(bundles)));
    let v = scopes_of(s, group, bundles, driver, Seq::empty(), true)->Ok_0;
    assert forall|i: int| 0 <= i < v.len() implies ({
        let sc = #[trigger] v[i];
        &&& sc.nodes is Some
        &&& enough(s, group, bundles, sc.nodes->0)
        &&& sc.island is Some <==> sc.nodes->0.len() > 1
        &&& sc.island is Some ==> s.islands.contains(sc.island->0) && sc.island->0.nodes
            == sc.nodes->0
        &&& sc.nodes->0.len() == 1 && has_agent(s, group, sc.nodes->0[0]) || exists|x: IslandV|
            #[trigger] s.islands.contains(x) && x.nodes == sc.nodes->0
    }) by {
        assert(fair(s, group, bundles, driver, o[i]));
    }
    assert forall|i: int, j: int| 0 <= i < j < v.len() implies ({
        let (a, b) = (#[trigger] v[i], #[trigger] v[j]);
        &&& by_the_driver(b, driver) ==> by_the_driver(a, driver)
        &&& by_the_driver(a, driver) == by_the_driver(b, driver) ==> a.nodes->0.len()
            <= b.nodes->0.len()
    }) by {
        assert(fair(s, group, bundles, driver, o[i]) && fair(s, group, bundles, driver, o[j]));
        assert(no_later(o[i], o[j]));
    }
}

proof fn lemma_tied(s: StateV, group: Seq<char>)
    requires
        exists|n: Seq<char>| has_agent(s, group, n) && #[trigger] s.tagged.contains(n),
    ensures
        opted_in(s, group),
{
    let n = choose|n: Seq<char>| has_agent(s, group, n) && #[trigger] s.tagged.contains(n);
    lemma_served(s, group, n);
    assert(served(s, group).contains(n));
}

/// Every island, and every node of the group, that has enough GPUs free for all of such
/// a placement group is tried; it cannot be placed only where there is none.
pub proof fn law_every_island_with_room_is_tried(
    s: StateV,
    group: Seq<char>,
    bundles: Seq<u32>,
    driver: Seq<char>,
    nodes: Seq<Seq<char>>,
)
    requires
        s.agents.dom().finite(),
        bundles.len() >= 2,
        exists|n: Seq<char>| has_agent(s, group, n) && #[trigger] s.tagged.contains(n),
        enough(s, group, bundles, nodes),
        (exists|x: IslandV| #[trigger] s.islands.contains(x) && x.nodes == nodes) || (nodes.len()
            == 1 && has_agent(s, group, nodes[0])),
    ensures
        ({
            let r = scopes_of(s, group, bundles, driver, Seq::empty(), true);
            r is Ok && exists|i: int|
                0 <= i < r->Ok_0.len() && (#[trigger] r->Ok_0[i]).nodes == Some(nodes)
        }),
{
    lemma_tied(s, group);
    lemma_rooms_fair(s, group, bundles, driver);
    lemma_rooms_all(s, group, bundles, driver);
    let o = trying_order(rooms(s, group, driver, need_total(bundles)));
    let i = if exists|x: IslandV| #[trigger] s.islands.contains(x) && x.nodes == nodes {
        let x = choose|x: IslandV| #[trigger] s.islands.contains(x) && x.nodes == nodes;
        let j = s.islands.index_of(x);
        assert(s.islands[j].nodes == nodes);
        choose|i: int| 0 <= i < o.len() && (#[trigger] o[i]).island.nodes == nodes
    } else {
        assert(nodes =~= seq![nodes[0]]);
        choose|i: int| 0 <= i < o.len() && (#[trigger] o[i]).island.nodes == nodes
    };
    let v = scopes_of(s, group, bundles, driver, Seq::empty(), true)->Ok_0;
    assert(v[i].nodes == Some(nodes));
}

proof fn lemma_served_finite(s: StateV, group: Seq<char>)
    requires
        s.agents.dom().finite(),
    ensures
        served(s, group).finite(),
{
    let f = |k: Seq<char>| s.agents[k].node_id;
    let all = s.agents.dom().map(f);
    s.agents.dom().lemma_map_finite(f);
    assert(served(s, group).subset_of(all)) by {
        assert forall|n: Seq<char>| served(s, group).contains(n) implies all.contains(n) by {
            let k = choose|k: Seq<char>| #[trigger]
                s.agents.contains_key(k) && counts(s.agents[k], group)
                    && s.agents[k].node_id == n;
            assert(s.agents.dom().contains(k) && f(k) == n);
        }
    }
}

// ---------------------------------------------------------------------------
// The first that fits
// ---------------------------------------------------------------------------
/// The node of the client that owns a placement group; none where there is no client.
pub open spec fn owners_node(s: StateV, p: PgV) -> Seq<char> {
    if s.clients.contains_key(p.owner) {
        s.clients[p.owner].node_id
    } else {
        Seq::empty()
    }
}

/// How a placement group fits a scope, if it does.
pub open spec fn fit_on(s: StateV, p: PgV, sc: ScopeV) -> Option<Seq<Option<BundleV>>> {
    fitted(s, p.group, p.bundles, owners_node(s, p), sc.nodes)
}

/// A placement group is created exactly where it fits one of the scopes it may be tried
/// on, and is placed on the first of them; its driver's node is the node of the client
/// that owns it. Otherwise it stays as it was, with a reason why.
pub proof fn law_a_group_is_placed_on_the_first_scope_that_fits(
    s: StateV,
    id: Seq<char>,
    by_island: bool,
)
    requires
        s.pgs.contains_key(id),
        s.pgs[id].state == PgState::Pending,
    ensures
        ({
            let p = s.pgs[id];
            let q = placed_one(s, id, by_island).pgs[id];
            let r = scopes_of(s, p.group, p.bundles, owners_node(s, p), p.claim, by_island);
            &&& q.state == PgState::Created <==> r is Ok && exists|i: int|
                0 <= i < r->Ok_0.len() && fit_on(s, p, #[trigger] r->Ok_0[i]) is Some
            &&& q.state == PgState::Created ==> exists|i: int|
                {
                    &&& 0 <= i < r->Ok_0.len()
                    &&& fit_on(s, p, #[trigger] r->Ok_0[i]) == Some(q.assignment)
                    &&& q.island == r->Ok_0[i].island
                    &&& forall|j: int| 0 <= j < i ==> fit_on(s, p, #[trigger] r->Ok_0[j]) is None
                }
            &&& q.state != PgState::Created ==> q.state == PgState::Pending && q.pending_reason is Some
                && q.assignment == p.assignment
            &&& q.group == p.group && q.owner == p.owner && q.bundles == p.bundles && q.claim
                == p.claim && q.created_ms == p.created_ms
        }),
{
    let p = s.pgs[id];
    let driver = driver_node(s, p.owner);
    assert(driver == owners_node(s, p));
    let r = scopes_of(s, p.group, p.bundles, driver, p.claim, by_island);
    if r is Ok {
        lemma_first_fit(s, p.group, p.bundles, driver, r->Ok_0);
        assert forall|sc: ScopeV| #[trigger] fit_on(s, p, sc) == fitted(
            s,
            p.group,
            p.bundles,
            driver,
            sc.nodes,
        ) by {
        }
    }
}

proof fn lemma_first_fit(
    s: StateV,
    group: Seq<char>,
    bundles: Seq<u32>,
    driver: Seq<char>,
    v: Seq<ScopeV>,
)
    ensures
        match first_fit(s, group, bundles, driver, v) {
            Some((island, a)) => exists|i: int|
                {
                    &&& 0 <= i < v.len()
                    &&& fitted(s, group, bundles, driver, (#[trigger] v[i]).nodes) == Some(a)
                    &&& island == v[i].island
                    &&& forall|j: int|
                        0 <= j < i ==> fitted(
                            s,
                            group,
                            bundles,
                            driver,
                            (#[trigger] v[j]).nodes,
                        ) is None
                },
            None => forall|i: int|
                0 <= i < v.len() ==> fitted(
                    s,
                    group,
                    bundles,
                    driver,
                    (#[trigger] v[i]).nodes,
                ) is None,
        },
    decreases v.len(),
{
    if v.len() > 0 {
        let tail = v.drop_first();
        lemma_first_fit(s, group, bundles, driver, tail);
        if fitted(s, group, bundles, driver, v[0].nodes) is None {
            match first_fit(s, group, bundles, driver, tail) {
                Some((island, a)) => {
                    let i = choose|i: int|
                        {
                            &&& 0 <= i < tail.len()
                            &&& fitted(s, group, bundles, driver, (
                            #[trigger] tail[i]).nodes) == Some(a)
                            &&& island == tail[i].island
                            &&& forall|j: int|
                                0 <= j < i ==> fitted(
                                    s,
                                    group,
                                    bundles,
                                    driver,
                                    (#[trigger] tail[j]).nodes,
                                ) is None
                        };
                    assert(v[i + 1] == tail[i]);
                    assert forall|j: int| 0 <= j < i + 1 implies fitted(
                        s,
                        group,
                        bundles,
                        driver,
                        (#[trigger] v[j]).nodes,
                    ) is None by {
                        if j > 0 {
                            assert(tail[j - 1] == v[j]);
                        }
                    }
                },
                None => {
                    assert forall|i: int| 0 <= i < v.len() implies fitted(
                        s,
                        group,
                        bundles,
                        driver,
                        (#[trigger] v[i]).nodes,
                    ) is None by {
                        if i > 0 {
                            assert(tail[i - 1] == v[i]);
                        }
                    }
                },
            }
        }
    }
}

} // verus!
