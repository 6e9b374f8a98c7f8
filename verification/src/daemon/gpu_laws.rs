//! Who holds which GPUs: bundles are handed out whole, and actors hold a bundle's.

use vstd::prelude::*;

use crate::common::dict::{lemma_finite_lists, lemma_increasing_distinct, ordered};
use crate::daemon::actors::{died, fan_out, marked};
use crate::daemon::calls::{
    create_complaint, created, pg_created, pg_entered, pg_gone, spawn_of, ActorReqV,
};
use crate::daemon::laws::{
    exclusive, law_placing_keeps_gpus_exclusive, law_placing_touches_groups_only,
    lemma_pending, lemma_placed_all,
};
use crate::daemon::place::{pending_of, placed, placed_all, placed_one};
use crate::daemon::place_laws::{apart, devices_distinct, law_placing_is_all_or_nothing};
use crate::daemon::state::{actor_holds, pg_holds, reserves, PgState, StateV};

verus! {

// ---------------------------------------------------------------------------
// Lots
// ---------------------------------------------------------------------------
/// Whether a bundle of a created group is these GPUs of an agent.
pub open spec fn bundle_is(
    s: StateV,
    pg: Seq<char>,
    i: int,
    agent: Seq<char>,
    gpus: Seq<u32>,
) -> bool {
    &&& s.pgs.contains_key(pg)
    &&& s.pgs[pg].state == PgState::Created
    &&& 0 <= i < s.pgs[pg].assignment.len()
    &&& s.pgs[pg].assignment[i] is Some
    &&& s.pgs[pg].assignment[i]->Some_0.agent == agent
    &&& s.pgs[pg].assignment[i]->Some_0.gpu_ids == gpus
}

/// Whether a live actor runs on these GPUs of an agent.
pub open spec fn actor_on(s: StateV, actor: Seq<char>, agent: Seq<char>, gpus: Seq<u32>) -> bool {
    &&& s.actors.contains_key(actor)
    &&& !(s.actors[actor].state is Dead)
    &&& s.actors[actor].agent == agent
    &&& s.actors[actor].gpu_ids == gpus
}

/// Whether something holds just these GPUs of an agent: a bundle of a created
/// group, or a live actor.
pub open spec fn lot(s: StateV, agent: Seq<char>, gpus: Seq<u32>) -> bool {
    ||| exists|pg: Seq<char>, i: int| bundle_is(s, pg, i, agent, gpus)
    ||| exists|actor: Seq<char>| actor_on(s, actor, agent, gpus)
}

/// GPUs are held by the bundle: what shares one GPU shares them all.
pub open spec fn by_the_bundle(s: StateV) -> bool {
    forall|agent: Seq<char>, a: Seq<u32>, b: Seq<u32>, g: u32|
        #[trigger] lot(s, agent, a) && #[trigger] lot(s, agent, b) && #[trigger] a.contains(g)
            && #[trigger] b.contains(g) ==> a == b
}

/// No GPU is held by two live actors.
pub open spec fn actors_exclusive(s: StateV) -> bool {
    forall|a: Seq<char>, b: Seq<char>, agent: Seq<char>, g: u32|
        s.actors.contains_key(a) && s.actors.contains_key(b) && #[trigger] actor_holds(
            s.actors[a],
            agent,
            g,
        ) && #[trigger] actor_holds(s.actors[b], agent, g) ==> a == b
}

proof fn lemma_lot_held(s: StateV, agent: Seq<char>, gpus: Seq<u32>, g: u32)
    requires
        lot(s, agent, gpus),
        gpus.contains(g),
    ensures
        s.held(agent, g),
{
    if exists|pg: Seq<char>, i: int| bundle_is(s, pg, i, agent, gpus) {
        let (pg, i) = choose|pg: Seq<char>, i: int| bundle_is(s, pg, i, agent, gpus);
        let bs = s.pgs[pg].assignment;
        assert(bs[i] is Some && bs[i]->Some_0.agent == agent);
        assert(reserves(bs, agent, g));
        assert(pg_holds(s.pgs[pg], agent, g));
    } else {
        let k = choose|k: Seq<char>| actor_on(s, k, agent, gpus);
        assert(actor_holds(s.actors[k], agent, g));
    }
}

/// What holds less is still held by the bundle.
proof fn lemma_fewer_lots(s: StateV, t: StateV)
    requires
        by_the_bundle(s),
        forall|agent: Seq<char>, gpus: Seq<u32>| #[trigger]
            lot(t, agent, gpus) ==> lot(s, agent, gpus),
    ensures
        by_the_bundle(t),
{
}

proof fn lemma_placed_one_by_the_bundle(s: StateV, id: Seq<char>, by_island: bool)
    requires
        by_the_bundle(s),
        s.pgs.contains_key(id),
        s.pgs[id].state == PgState::Pending,
        s.agents.dom().finite(),
        devices_distinct(s),
    ensures
        by_the_bundle(placed_one(s, id, by_island)),
{
    law_placing_is_all_or_nothing(s, id, by_island);
    let t = placed_one(s, id, by_island);
    let q = t.pgs[id];
    // What is new is a bundle of the group, of GPUs that nothing held.
    assert forall|agent: Seq<char>, gpus: Seq<u32>| #[trigger] lot(t, agent, gpus) implies lot(
        s,
        agent,
        gpus,
    ) || exists|i: int| bundle_is(t, id, i, agent, gpus) by {
        if exists|pg: Seq<char>, i: int| bundle_is(t, pg, i, agent, gpus) {
            let (pg, i) = choose|pg: Seq<char>, i: int| bundle_is(t, pg, i, agent, gpus);
            if pg != id {
                assert(bundle_is(s, pg, i, agent, gpus));
            }
        } else {
            let k = choose|k: Seq<char>| actor_on(t, k, agent, gpus);
            assert(actor_on(s, k, agent, gpus));
        }
    }
    assert forall|agent: Seq<char>, a: Seq<u32>, b: Seq<u32>, g: u32|
        #[trigger] lot(t, agent, a) && #[trigger] lot(t, agent, b) && #[trigger] a.contains(g)
            && #[trigger] b.contains(g) implies a == b by {
        if lot(s, agent, a) {
            lemma_lot_held(s, agent, a, g);
        }
        if lot(s, agent, b) {
            lemma_lot_held(s, agent, b, g);
        }
        if !lot(s, agent, a) || !lot(s, agent, b) {
            if !lot(s, agent, a) {
                let i = choose|i: int| bundle_is(t, id, i, agent, a);
                assert(q.assignment[i]->Some_0.gpu_ids.contains(g));
                assert(!s.held(agent, g));
                let j = choose|j: int| bundle_is(t, id, j, agent, b);
                lemma_one_bundle(t, id, i, j, g);
            } else {
                let j = choose|j: int| bundle_is(t, id, j, agent, b);
                assert(q.assignment[j]->Some_0.gpu_ids.contains(g));
                assert(!s.held(agent, g));
            }
        }
    }
}

/// Two bundles of a group that are apart and share a GPU are one.
proof fn lemma_one_bundle(t: StateV, id: Seq<char>, i: int, j: int, g: u32)
    requires
        ({
            let bs = t.pgs[id].assignment;
            &&& 0 <= i < bs.len()
            &&& 0 <= j < bs.len()
            &&& bs[i]->Some_0.agent == bs[j]->Some_0.agent
            &&& bs[i]->Some_0.gpu_ids.contains(g)
            &&& bs[j]->Some_0.gpu_ids.contains(g)
            &&& forall|x: int, y: int|
                0 <= x < y < bs.len() ==> apart(
                    (#[trigger] bs[x])->Some_0,
                    (#[trigger] bs[y])->Some_0,
                )
        }),
    ensures
        i == j,
{
    let bs = t.pgs[id].assignment;
    if i < j {
        assert(apart(bs[i]->Some_0, bs[j]->Some_0));
    } else if j < i {
        assert(apart(bs[j]->Some_0, bs[i]->Some_0));
    }
}

proof fn lemma_placed_all_by_the_bundle(s: StateV, ids: Seq<Seq<char>>, by_island: bool)
    requires
        by_the_bundle(s),
        s.agents.dom().finite(),
        devices_distinct(s),
        ids.no_duplicates(),
        forall|i: int|
            0 <= i < ids.len() ==> s.pgs.contains_key(#[trigger] ids[i]) && s.pgs[ids[i]].state
                == PgState::Pending,
    ensures
        by_the_bundle(placed_all(s, ids, by_island)),
    decreases ids.len(),
{
    if ids.len() > 0 {
        let init = ids.drop_last();
        assert forall|i: int| 0 <= i < init.len() implies s.pgs.contains_key(#[trigger] init[i])
            && s.pgs[init[i]].state == PgState::Pending by {
            assert(init[i] == ids[i]);
        }
        lemma_placed_all_by_the_bundle(s, init, by_island);
        lemma_placed_all(s, init, by_island);
        let t = placed_all(s, init, by_island);
        let last = ids.last();
        assert(last == ids[ids.len() - 1]);
        assert(!init.contains(last)) by {
            if init.contains(last) {
                let i = init.index_of(last);
                assert(ids[i] == ids[ids.len() - 1]);
            }
        }
        assert(t.pgs[last] == s.pgs[last]);
        assert(s.pgs.contains_key(last));
        lemma_placed_one_by_the_bundle(t, last, by_island);
    }
}

/// Placing hands out whole bundles: where what shares one GPU shared them all
/// before, it does after.
pub proof fn law_placing_keeps_bundles_whole(s: StateV, by_island: bool)
    requires
        by_the_bundle(s),
        s.agents.dom().finite(),
        s.pgs.dom().finite(),
        devices_distinct(s),
    ensures
        by_the_bundle(placed(s, by_island)),
{
    let keys = ordered(s.pgs.dom());
    lemma_finite_lists(s.pgs.dom());
    assert forall|i: int| 0 <= i < keys.len() implies s.pgs.contains_key(#[trigger] keys[i]) by {
        assert(keys.contains(keys[i]));
        assert(s.pgs.dom().contains(keys[i]));
    }
    assert(keys.no_duplicates()) by {
        assert forall|a: int, b: int|
            0 <= a < keys.len() && 0 <= b < keys.len() && a != b implies keys[a] != keys[b] by {
            if keys[a] == keys[b] {
                lemma_increasing_distinct(keys, a, b);
            }
        }
    }
    lemma_pending(s, keys);
    let ids = pending_of(s, keys);
    assert forall|i: int| 0 <= i < ids.len() implies s.pgs.contains_key(#[trigger] ids[i])
        && s.pgs[ids[i]].state == PgState::Pending by {
        assert(ids.contains(ids[i]));
    }
    lemma_placed_all_by_the_bundle(s, ids, by_island);
}

/// The death of an actor and the removal of a group keep bundles whole, with all
/// that is placed on what they free.
pub proof fn law_freeing_keeps_bundles_whole(
    s: StateV,
    id: Seq<char>,
    reason: Seq<char>,
    now: u64,
    by_island: bool,
)
    requires
        by_the_bundle(s),
        s.agents.dom().finite(),
        s.pgs.dom().finite(),
        devices_distinct(s),
    ensures
        by_the_bundle(died(s, id, reason, now, by_island)),
        by_the_bundle(placed(pg_gone(s, id, now, reason), by_island)),
{
    let m = marked(s, id, reason, now);
    let t = StateV { refs: fan_out(m.refs, id, reason), ..m };
    assert forall|agent: Seq<char>, gpus: Seq<u32>| #[trigger] lot(t, agent, gpus) implies lot(
        s,
        agent,
        gpus,
    ) by {
        if exists|pg: Seq<char>, i: int| bundle_is(t, pg, i, agent, gpus) {
            let (pg, i) = choose|pg: Seq<char>, i: int| bundle_is(t, pg, i, agent, gpus);
            assert(bundle_is(s, pg, i, agent, gpus));
        } else {
            let k = choose|k: Seq<char>| actor_on(t, k, agent, gpus);
            assert(k != id);
            assert(actor_on(s, k, agent, gpus));
        }
    }
    lemma_fewer_lots(s, t);
    law_placing_keeps_bundles_whole(t, by_island);
    let u = pg_gone(s, id, now, reason);
    assert forall|agent: Seq<char>, gpus: Seq<u32>| #[trigger] lot(u, agent, gpus) implies lot(
        s,
        agent,
        gpus,
    ) by {
        if exists|pg: Seq<char>, i: int| bundle_is(u, pg, i, agent, gpus) {
            let (pg, i) = choose|pg: Seq<char>, i: int| bundle_is(u, pg, i, agent, gpus);
            assert(bundle_is(s, pg, i, agent, gpus));
        } else {
            let k = choose|k: Seq<char>| actor_on(u, k, agent, gpus);
            assert(actor_on(s, k, agent, gpus));
        }
    }
    lemma_fewer_lots(s, u);
    if s.pgs.contains_key(id) {
        assert(u.pgs.dom() =~= s.pgs.dom());
    }
    law_placing_keeps_bundles_whole(u, by_island);
}

/// A new placement group keeps GPUs exclusive and bundles whole.
pub proof fn law_a_new_group_keeps_gpus_apart(
    s: StateV,
    client: Seq<char>,
    id: Seq<char>,
    bundles: Seq<u32>,
    strategy: Seq<char>,
    claim: Seq<char>,
    now: u64,
    by_island: bool,
)
    requires
        s.agents.dom().finite(),
        s.pgs.dom().finite(),
    ensures
        ({
            let t = pg_created(s, client, id, bundles, strategy, claim, now, by_island);
            &&& exclusive(s) ==> exclusive(t)
            &&& by_the_bundle(s) && devices_distinct(s) ==> by_the_bundle(t)
            &&& actors_exclusive(s) ==> actors_exclusive(t)
        }),
{
    let t = pg_entered(s, client, id, bundles, strategy, claim, now);
    law_placing_touches_groups_only(t, by_island);
    if exclusive(s) {
        assert forall|a: Seq<char>, b: Seq<char>, agent: Seq<char>, g: u32|
            t.pgs.contains_key(a) && t.pgs.contains_key(b) && #[trigger] pg_holds(
                t.pgs[a],
                agent,
                g,
            ) && #[trigger] pg_holds(t.pgs[b], agent, g) implies a == b by {
            assert(a != id && b != id);
            assert(pg_holds(s.pgs[a], agent, g) && pg_holds(s.pgs[b], agent, g));
        }
        law_placing_keeps_gpus_exclusive(t, by_island);
    }
    if by_the_bundle(s) && devices_distinct(s) {
        assert forall|agent: Seq<char>, gpus: Seq<u32>| #[trigger] lot(t, agent, gpus) implies lot(
            s,
            agent,
            gpus,
        ) by {
            if exists|pg: Seq<char>, i: int| bundle_is(t, pg, i, agent, gpus) {
                let (pg, i) = choose|pg: Seq<char>, i: int| bundle_is(t, pg, i, agent, gpus);
                assert(bundle_is(s, pg, i, agent, gpus));
            } else {
                let k = choose|k: Seq<char>| actor_on(t, k, agent, gpus);
                assert(actor_on(s, k, agent, gpus));
            }
        }
        lemma_fewer_lots(s, t);
        law_placing_keeps_bundles_whole(t, by_island);
    }
}

// ---------------------------------------------------------------------------
// Actors
// ---------------------------------------------------------------------------
/// A new actor runs on a bundle of its group, whole, so bundles stay whole and no
/// group comes to share a GPU. It shares a GPU with another live actor only where
/// that one runs on the bundle already: otherwise no GPU has two actors after
/// where none had before.
pub proof fn law_a_new_actor_holds_its_bundle(s: StateV, q: ActorReqV)
    requires
        create_complaint(s, q) is None,
    ensures
        ({
            let t = created(s, q);
            let w = spawn_of(s, q);
            &&& actor_on(t, q.actor_id, w.agent, w.gpu_ids)
            &&& bundle_is(t, q.pg_id, q.bundle as int, w.agent, w.gpu_ids)
            &&& t.pgs == s.pgs
            &&& by_the_bundle(s) ==> by_the_bundle(t)
            &&& actors_exclusive(s) ==> (actors_exclusive(t) <==> forall|k: Seq<char>, g: u32|
                k != q.actor_id && s.actors.contains_key(k) && #[trigger] w.gpu_ids.contains(g)
                    ==> !#[trigger] actor_holds(s.actors[k], w.agent, g))
        }),
{
    let t = created(s, q);
    let w = spawn_of(s, q);
    let me = q.actor_id;
    assert(bundle_is(s, q.pg_id, q.bundle as int, w.agent, w.gpu_ids));
    assert(actor_on(t, me, w.agent, w.gpu_ids));
    if by_the_bundle(s) {
        assert forall|agent: Seq<char>, gpus: Seq<u32>| #[trigger] lot(t, agent, gpus) implies lot(
            s,
            agent,
            gpus,
        ) by {
            if exists|pg: Seq<char>, i: int| bundle_is(t, pg, i, agent, gpus) {
                let (pg, i) = choose|pg: Seq<char>, i: int| bundle_is(t, pg, i, agent, gpus);
                assert(bundle_is(s, pg, i, agent, gpus));
            } else {
                let k = choose|k: Seq<char>| actor_on(t, k, agent, gpus);
                if k != me {
                    assert(actor_on(s, k, agent, gpus));
                }
            }
        }
        lemma_fewer_lots(s, t);
    }
    if actors_exclusive(s) {
        let alone = forall|k: Seq<char>, g: u32|
            k != me && s.actors.contains_key(k) && #[trigger] w.gpu_ids.contains(g)
                ==> !#[trigger] actor_holds(s.actors[k], w.agent, g);
        if alone {
            assert forall|a: Seq<char>, b: Seq<char>, agent: Seq<char>, g: u32|
                t.actors.contains_key(a) && t.actors.contains_key(b) && #[trigger] actor_holds(
                    t.actors[a],
                    agent,
                    g,
                ) && #[trigger] actor_holds(t.actors[b], agent, g) implies a == b by {
                if a != me && b != me {
                    assert(actor_holds(s.actors[a], agent, g));
                    assert(actor_holds(s.actors[b], agent, g));
                } else if a != b {
                    let o = if a == me {
                        b
                    } else {
                        a
                    };
                    assert(w.gpu_ids.contains(g));
                    assert(actor_holds(s.actors[o], agent, g));
                }
            }
        }
        if actors_exclusive(t) {
            assert forall|k: Seq<char>, g: u32|
                k != me && s.actors.contains_key(k) && #[trigger] w.gpu_ids.contains(
                    g,
                ) implies !#[trigger] actor_holds(s.actors[k], w.agent, g) by {
                if actor_holds(s.actors[k], w.agent, g) {
                    assert(t.actors[k] == s.actors[k]);
                    assert(actor_holds(t.actors[k], w.agent, g));
                    assert(actor_holds(t.actors[me], w.agent, g));
                }
            }
        }
    }
}

/// Placing, a death and the removal of a group give no actor a GPU: where no GPU
/// had two live actors before, none has after.
pub proof fn law_actors_stay_exclusive(
    s: StateV,
    id: Seq<char>,
    reason: Seq<char>,
    now: u64,
    by_island: bool,
)
    requires
        actors_exclusive(s),
    ensures
        actors_exclusive(placed(s, by_island)),
        actors_exclusive(died(s, id, reason, now, by_island)),
        actors_exclusive(placed(pg_gone(s, id, now, reason), by_island)),
{
    law_placing_touches_groups_only(s, by_island);
    let m = marked(s, id, reason, now);
    let t = StateV { refs: fan_out(m.refs, id, reason), ..m };
    law_placing_touches_groups_only(t, by_island);
    assert(actors_exclusive(t)) by {
        assert forall|a: Seq<char>, b: Seq<char>, agent: Seq<char>, g: u32|
            t.actors.contains_key(a) && t.actors.contains_key(b) && #[trigger] actor_holds(
                t.actors[a],
                agent,
                g,
            ) && #[trigger] actor_holds(t.actors[b], agent, g) implies a == b by {
            assert(a != id && b != id);
            assert(actor_holds(s.actors[a], agent, g) && actor_holds(s.actors[b], agent, g));
        }
    }
    law_placing_touches_groups_only(pg_gone(s, id, now, reason), by_island);
}

} // verus!
