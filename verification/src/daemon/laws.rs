//! What holds of the daemon's operations together.

use vstd::prelude::*;

use crate::common::dict::{lemma_finite_lists, lemma_those, ordered, those};
use crate::common::json::JsonV;
use crate::common::text::decimal;
use crate::daemon::actors::{died, fan_out, marked};
use crate::daemon::agents::{link_gone, result_told};
use crate::daemon::calls::pg_gone;
use crate::daemon::claims::{
    all_released, claim_answer, gather, is_held, released, released_groups, released_names,
    topology_of,
};
use crate::daemon::mesh::{aged_peers, fell_silent, forgettable, peers_swept, told_left};
use crate::daemon::moved::{hands_over, moved_away};
use crate::daemon::place::{agent_change, pending_of, placed, placed_all, placed_one};
use crate::daemon::place_laws::law_placing_is_all_or_nothing;
use crate::daemon::sessions::{greeted, hello_refusal, hello_row, session_taken, HelloV};
use crate::daemon::state::{pg_holds, ClaimV, ClientV, PgState, RefV, StateV};
use crate::daemon::status::LocalV;
use crate::daemon::sweep::{
    actor_spent, actors_on, aged_agents, agents_aged, all_died, all_given_up, degrades, down,
    given_up, history_swept, since, spent_actors, told_degraded, Limits,
};

verus! {

// ---------------------------------------------------------------------------
// Placement changes placement groups and nothing else
// ---------------------------------------------------------------------------
proof fn lemma_placed_one(s: StateV, id: Seq<char>, by_island: bool)
    ensures
        ({
            let t = placed_one(s, id, by_island);
            &&& t.actors == s.actors
            &&& t.agents == s.agents
            &&& t.refs == s.refs
            &&& t.clients == s.clients
            &&& t.claims == s.claims
            &&& t.peers == s.peers
            &&& t.next_ref == s.next_ref
            &&& forall|k: Seq<char>| k != id ==> t.pgs.contains_key(k) == s.pgs.contains_key(k)
            &&& forall|k: Seq<char>| k != id ==> #[trigger] t.pgs[k] == s.pgs[k]
            &&& s.pgs.contains_key(id) ==> t.pgs.contains_key(id)
        }),
{
}

pub(crate) proof fn lemma_placed_all(s: StateV, ids: Seq<Seq<char>>, by_island: bool)
    ensures
        ({
            let t = placed_all(s, ids, by_island);
            &&& t.actors == s.actors
            &&& t.agents == s.agents
            &&& t.refs == s.refs
            &&& t.clients == s.clients
            &&& t.claims == s.claims
            &&& t.peers == s.peers
            &&& t.next_ref == s.next_ref
            &&& forall|k: Seq<char>| #[trigger] s.pgs.contains_key(k) ==> t.pgs.contains_key(k)
            &&& forall|k: Seq<char>| !ids.contains(k) ==> #[trigger] t.pgs[k] == s.pgs[k]
        }),
    decreases ids.len(),
{
    if ids.len() > 0 {
        let init = ids.drop_last();
        lemma_placed_all(s, init, by_island);
        let t = placed_all(s, init, by_island);
        lemma_placed_one(t, ids.last(), by_island);
        assert(ids[ids.len() - 1] == ids.last());
        assert forall|k: Seq<char>| !ids.contains(k) implies !init.contains(k) by {
            if init.contains(k) {
                assert(ids[init.index_of(k)] == k);
            }
        }
        let u = placed_all(s, ids, by_island);
        assert forall|k: Seq<char>| !ids.contains(k) implies #[trigger] u.pgs[k] == s.pgs[k] by {
            assert(t.pgs[k] == s.pgs[k]);
        }
    }
}

/// Placing what waits changes placement groups and nothing else: no actor,
/// agent, call, client or claim.
pub proof fn law_placing_touches_groups_only(s: StateV, by_island: bool)
    ensures
        ({
            let t = placed(s, by_island);
            &&& t.actors == s.actors
            &&& t.agents == s.agents
            &&& t.refs == s.refs
            &&& t.clients == s.clients
            &&& t.claims == s.claims
            &&& t.peers == s.peers
            &&& t.next_ref == s.next_ref
        }),
{
    lemma_placed_all(s, pending_of(s, ordered(s.pgs.dom())), by_island);
}

// ---------------------------------------------------------------------------
// Death
// ---------------------------------------------------------------------------
/// A dead actor stays dead, with the reason it died of first, whoever dies
/// after it.
pub proof fn law_a_dead_actor_stays_dead(
    s: StateV,
    id: Seq<char>,
    other: Seq<char>,
    reason: Seq<char>,
    now: u64,
    by_island: bool,
)
    requires
        s.actors.contains_key(id),
        s.actors[id].state is Dead,
    ensures
        ({
            let t = died(s, other, reason, now, by_island);
            t.actors.contains_key(id) && t.actors[id] == s.actors[id]
        }),
{
    let m = marked(s, other, reason, now);
    law_placing_touches_groups_only(
        StateV { refs: fan_out(m.refs, other, reason), ..m },
        by_island,
    );
}

/// The death of an actor reaches every call that waits on it: none is left
/// waiting, so a wait on one comes back.
pub proof fn law_a_death_leaves_no_call_waiting(
    s: StateV,
    id: Seq<char>,
    reason: Seq<char>,
    now: u64,
    by_island: bool,
    call: Seq<char>,
)
    requires
        !(s.actors.contains_key(id) && s.actors[id].state is Dead),
        s.refs.contains_key(call),
        s.refs[call].actor == Some(id),
    ensures
        ({
            let t = died(s, id, reason, now, by_island);
            t.refs.contains_key(call) && !(t.refs[call].state is Pending)
        }),
{
    let m = marked(s, id, reason, now);
    law_placing_touches_groups_only(StateV { refs: fan_out(m.refs, id, reason), ..m }, by_island);
}

/// A call that was answered stays answered: neither a death nor a result that
/// comes again changes what a driver may have seen.
pub proof fn law_an_answered_call_never_changes(
    s: StateV,
    call: Seq<char>,
    id: Seq<char>,
    reason: Seq<char>,
    now: u64,
    by_island: bool,
    rid: Seq<char>,
    ok: bool,
    error: Seq<char>,
    payload: Seq<u8>,
)
    requires
        s.refs.contains_key(call),
        !(s.refs[call].state is Pending),
    ensures
        died(s, id, reason, now, by_island).refs[call] == s.refs[call],
        result_told(s, rid, ok, error, payload).refs[call] == s.refs[call],
{
    let m = marked(s, id, reason, now);
    law_placing_touches_groups_only(StateV { refs: fan_out(m.refs, id, reason), ..m }, by_island);
}

/// The death of one actor is no other's: every other keeps its row.
pub proof fn law_a_death_is_one_actors_own(
    s: StateV,
    id: Seq<char>,
    other: Seq<char>,
    reason: Seq<char>,
    now: u64,
    by_island: bool,
)
    requires
        other != id,
        s.actors.contains_key(other),
    ensures
        died(s, id, reason, now, by_island).actors[other] == s.actors[other],
{
    let m = marked(s, id, reason, now);
    law_placing_touches_groups_only(StateV { refs: fan_out(m.refs, id, reason), ..m }, by_island);
}

// ---------------------------------------------------------------------------
// GPUs
// ---------------------------------------------------------------------------
/// No GPU is held by two placement groups.
pub open spec fn exclusive(s: StateV) -> bool {
    forall|a: Seq<char>, b: Seq<char>, agent: Seq<char>, g: u32|
        s.pgs.contains_key(a) && s.pgs.contains_key(b) && #[trigger] pg_holds(
            s.pgs[a],
            agent,
            g,
        ) && #[trigger] pg_holds(s.pgs[b], agent, g) ==> a == b
}

proof fn lemma_placed_one_exclusive(s: StateV, id: Seq<char>, by_island: bool)
    requires
        exclusive(s),
        s.pgs.contains_key(id),
        s.pgs[id].state == PgState::Pending,
        s.agents.dom().finite(),
    ensures
        exclusive(placed_one(s, id, by_island)),
{
    law_placing_is_all_or_nothing(s, id, by_island);
    let t = placed_one(s, id, by_island);
    let q = t.pgs[id];
    assert forall|a: Seq<char>, b: Seq<char>, agent: Seq<char>, g: u32|
        t.pgs.contains_key(a) && t.pgs.contains_key(b) && #[trigger] pg_holds(
            t.pgs[a],
            agent,
            g,
        ) && #[trigger] pg_holds(t.pgs[b], agent, g) implies a == b by {
        if a != b {
            if a == id || b == id {
                let o = if a == id {
                    b
                } else {
                    a
                };
                assert(t.pgs[o] == s.pgs[o]);
                assert(s.pgs.contains_key(o));
                assert(pg_holds(s.pgs[o], agent, g));
                assert(s.held(agent, g));
                assert(pg_holds(q, agent, g));
                assert(q.state == PgState::Created);
                let i = choose|i: int|
                    0 <= i < q.assignment.len() && (#[trigger] q.assignment[i]) is Some
                        && q.assignment[i]->Some_0.agent == agent
                        && q.assignment[i]->Some_0.gpu_ids.contains(g);
                assert(q.assignment[i]->Some_0.gpu_ids.contains(g));
            } else {
                assert(pg_holds(s.pgs[a], agent, g) && pg_holds(s.pgs[b], agent, g));
            }
        }
    }
}

proof fn lemma_placed_all_exclusive(s: StateV, ids: Seq<Seq<char>>, by_island: bool)
    requires
        exclusive(s),
        s.agents.dom().finite(),
        ids.no_duplicates(),
        forall|i: int|
            0 <= i < ids.len() ==> s.pgs.contains_key(#[trigger] ids[i]) && s.pgs[ids[i]].state
                == PgState::Pending,
    ensures
        exclusive(placed_all(s, ids, by_island)),
    decreases ids.len(),
{
    if ids.len() > 0 {
        let init = ids.drop_last();
        assert forall|i: int| 0 <= i < init.len() implies s.pgs.contains_key(#[trigger] init[i])
            && s.pgs[init[i]].state == PgState::Pending by {
            assert(init[i] == ids[i]);
        }
        lemma_placed_all_exclusive(s, init, by_island);
        lemma_placed_all(s, init, by_island);
        let t = placed_all(s, init, by_island);
        let last = ids.last();
        assert(last == ids[ids.len() - 1]);
        assert(!init.contains(last)) by {
            if init.contains(last) {
                let i = init.index_of(last);
                assert(ids[i] == ids[ids.len() - 1]);
            }
        }
        assert(t.pgs[last] == s.pgs[last]);
        assert(s.pgs.contains_key(last));
        lemma_placed_one_exclusive(t, last, by_island);
    }
}

pub(crate) proof fn lemma_pending(s: StateV, keys: Seq<Seq<char>>)
    requires
        keys.no_duplicates(),
        forall|i: int| 0 <= i < keys.len() ==> s.pgs.contains_key(#[trigger] keys[i]),
    ensures
        pending_of(s, keys).no_duplicates(),
        forall|k: Seq<char>| #[trigger]
            pending_of(s, keys).contains(k) ==> keys.contains(k) && s.pgs.contains_key(k)
                && s.pgs[k].state == PgState::Pending,
    decreases keys.len(),
{
    if keys.len() > 0 {
        let init = keys.drop_last();
        assert forall|i: int| 0 <= i < init.len() implies s.pgs.contains_key(#[trigger] init[i]) by {
            assert(init[i] == keys[i]);
        }
        lemma_pending(s, init);
        let had = pending_of(s, init);
        let out = pending_of(s, keys);
        let last = keys.last();
        assert(keys[keys.len() - 1] == last);
        assert(!init.contains(last)) by {
            if init.contains(last) {
                assert(keys[init.index_of(last)] == keys[keys.len() - 1]);
            }
        }
        assert forall|k: Seq<char>| #[trigger] out.contains(k) implies keys.contains(k)
            && s.pgs.contains_key(k) && s.pgs[k].state == PgState::Pending by {
            let i = out.index_of(k);
            if i < had.len() {
                assert(had[i] == k);
                assert(had.contains(k));
                assert(keys[init.index_of(k)] == k);
            }
        }
        if out.len() > had.len() {
            assert forall|i: int, j: int|
                0 <= i < out.len() && 0 <= j < out.len() && i != j implies out[i] != out[j] by {
                if i < had.len() {
                    assert(had.contains(had[i]));
                }
                if j < had.len() {
                    assert(had.contains(had[j]));
                }
            }
        }
    }
}

/// Placing keeps GPUs exclusive: where no two groups held the same one before,
/// none do after.
pub proof fn law_placing_keeps_gpus_exclusive(s: StateV, by_island: bool)
    requires
        exclusive(s),
        s.agents.dom().finite(),
        s.pgs.dom().finite(),
    ensures
        exclusive(placed(s, by_island)),
{
    let keys = ordered(s.pgs.dom());
    lemma_finite_lists(s.pgs.dom());
    assert forall|i: int| 0 <= i < keys.len() implies s.pgs.contains_key(#[trigger] keys[i]) by {
        assert(keys.contains(keys[i]));
        assert(s.pgs.dom().contains(keys[i]));
    }
    assert(keys.no_duplicates()) by {
        assert forall|a: int, b: int|
            0 <= a < keys.len() && 0 <= b < keys.len() && a != b implies keys[a] != keys[b] by {
            if keys[a] == keys[b] {
                crate::common::dict::lemma_increasing_distinct(keys, a, b);
            }
        }
    }
    lemma_pending(s, keys);
    let ids = pending_of(s, keys);
    assert forall|i: int| 0 <= i < ids.len() implies s.pgs.contains_key(#[trigger] ids[i])
        && s.pgs[ids[i]].state == PgState::Pending by {
        assert(ids.contains(ids[i]));
    }
    lemma_placed_all_exclusive(s, ids, by_island);
}

/// The death of an actor and the removal of a group keep GPUs exclusive, with
/// all that is placed on what they free.
pub proof fn law_freeing_keeps_gpus_exclusive(
    s: StateV,
    id: Seq<char>,
    reason: Seq<char>,
    now: u64,
    by_island: bool,
)
    requires
        exclusive(s),
        s.agents.dom().finite(),
        s.pgs.dom().finite(),
    ensures
        exclusive(died(s, id, reason, now, by_island)),
        exclusive(placed(pg_gone(s, id, now, reason), by_island)),
{
    let m = marked(s, id, reason, now);
    let t = StateV { refs: fan_out(m.refs, id, reason), ..m };
    assert(t.pgs == s.pgs);
    assert(exclusive(t));
    law_placing_keeps_gpus_exclusive(t, by_island);
    let u = pg_gone(s, id, now, reason);
    if s.pgs.contains_key(id) {
        assert(u.pgs.dom() =~= s.pgs.dom());
        assert forall|a: Seq<char>, b: Seq<char>, agent: Seq<char>, g: u32|
            u.pgs.contains_key(a) && u.pgs.contains_key(b) && #[trigger] pg_holds(
                u.pgs[a],
                agent,
                g,
            ) && #[trigger] pg_holds(u.pgs[b], agent, g) implies a == b by {
            assert(a != id && b != id);
            assert(pg_holds(s.pgs[a], agent, g) && pg_holds(s.pgs[b], agent, g));
        }
    }
    law_placing_keeps_gpus_exclusive(u, by_island);
}

// ---------------------------------------------------------------------------
// Claims
// ---------------------------------------------------------------------------
/// Whether a client holds no part of a claim.
pub open spec fn let_go(s: StateV, client: Seq<char>, group: Seq<char>, name: Seq<char>) -> bool {
    is_held(s, group, name) ==> !s.claims[group][name].holders.contains(client)
}

proof fn lemma_released(
    s: StateV,
    client: Seq<char>,
    group: Seq<char>,
    name: Seq<char>,
    g: Seq<char>,
    n: Seq<char>,
)
    ensures
        let_go(released(s, client, group, name), client, group, name),
        let_go(s, client, g, n) ==> let_go(released(s, client, group, name), client, g, n),
        is_held(released(s, client, group, name), g, n) ==> is_held(s, g, n),
{
}

proof fn lemma_released_names(
    s: StateV,
    client: Seq<char>,
    group: Seq<char>,
    names: Seq<Seq<char>>,
    g: Seq<char>,
    n: Seq<char>,
)
    ensures
        let_go(s, client, g, n) || (g == group && names.contains(n)) ==> let_go(
            released_names(s, client, group, names),
            client,
            g,
            n,
        ),
        is_held(released_names(s, client, group, names), g, n) ==> is_held(s, g, n),
    decreases names.len(),
{
    if names.len() > 0 {
        let init = names.drop_last();
        lemma_released_names(s, client, group, init, g, n);
        let t = released_names(s, client, group, init);
        lemma_released(t, client, group, names.last(), g, n);
        if names.contains(n) && n != names.last() {
            let i = names.index_of(n);
            assert(init[i] == n);
            assert(init.contains(n));
        }
    }
}

proof fn lemma_released_groups(
    s: StateV,
    client: Seq<char>,
    at: StateV,
    groups: Seq<Seq<char>>,
    g: Seq<char>,
    n: Seq<char>,
)
    ensures
        let_go(s, client, g, n) || (groups.contains(g) && ordered(at.claims[g].dom()).contains(n))
            ==> let_go(released_groups(s, client, at, groups), client, g, n),
        is_held(released_groups(s, client, at, groups), g, n) ==> is_held(s, g, n),
    decreases groups.len(),
{
    if groups.len() > 0 {
        let init = groups.drop_last();
        lemma_released_groups(s, client, at, init, g, n);
        let t = released_groups(s, client, at, init);
        let last = groups.last();
        lemma_released_names(t, client, last, ordered(at.claims[last].dom()), g, n);
        if groups.contains(g) && g != last {
            assert(init[groups.index_of(g)] == g);
            assert(init.contains(g));
        }
    }
}

/// A client that gave up its claims holds none: what it claimed is given back.
pub proof fn law_a_client_that_lets_go_holds_nothing(
    s: StateV,
    client: Seq<char>,
    group: Seq<char>,
    name: Seq<char>,
)
    requires
        s.claims.dom().finite(),
        forall|g: Seq<char>| s.claims.contains_key(g) ==> (#[trigger] s.claims[g]).dom().finite(),
    ensures
        let_go(all_released(s, client), client, group, name),
{
    lemma_finite_lists(s.claims.dom());
    if s.claims.contains_key(group) {
        lemma_finite_lists(s.claims[group].dom());
    }
    let groups = ordered(s.claims.dom());
    lemma_released_groups(s, client, s, groups, group, name);
    if is_held(s, group, name) {
        assert(s.claims.dom().contains(group));
        assert(groups.contains(group));
        assert(s.claims[group].dom().contains(name));
        assert(ordered(s.claims[group].dom()).contains(name));
    }
}

/// A claim that is held is answered the same to everyone who asks for that
/// shape: the same view and generation, and nobody's nodes move.
pub proof fn law_a_second_holder_gets_the_same_claim(
    s: StateV,
    local: LocalV,
    client: Seq<char>,
    group: Seq<char>,
    name: Seq<char>,
    shape: JsonV,
    other: Seq<char>,
    local2: LocalV,
)
    requires
        claim_answer(s, local, client, group, name, shape).1 is Ok,
    ensures
        ({
            let (t, first) = claim_answer(s, local, client, group, name, shape);
            let (u, second) = claim_answer(t, local2, other, group, name, shape);
            second == first && u.claims[group][name].view == t.claims[group][name].view
        }),
{
}

/// Two daemons that see the same cluster solve a claim alike: the same view, or
/// the same refusal, whatever else their states hold. So one name never means two
/// placements.
pub proof fn law_one_view_gives_one_answer(
    s: StateV,
    local: LocalV,
    client: Seq<char>,
    t: StateV,
    local2: LocalV,
    client2: Seq<char>,
    group: Seq<char>,
    name: Seq<char>,
    shape: JsonV,
)
    requires
        s.head_node_id == s.node_id,
        t.head_node_id == t.node_id,
        !is_held(s, group, name),
        !is_held(t, group, name),
        topology_of(s, local) == topology_of(t, local2),
        gather(s, local).hosts == gather(t, local2).hosts,
    ensures
        match (
            claim_answer(s, local, client, group, name, shape).1,
            claim_answer(t, local2, client2, group, name, shape).1,
        ) {
            (Ok((_, v)), Ok((_, w))) => v == w,
            (Err(e), Err(f)) => e == f,
            _ => false,
        },
{
}

// ---------------------------------------------------------------------------
// History
// ---------------------------------------------------------------------------
/// The sweep of old rows takes no live actor, and no dead one whose driver is
/// still connected.
pub proof fn law_the_sweep_takes_only_spent_actors(
    s: StateV,
    now: u64,
    keep: u64,
    id: Seq<char>,
)
    requires
        s.actors.dom().finite(),
        s.actors.contains_key(id),
        !actor_spent(s, id, now, keep),
    ensures
        ({
            let t = history_swept(s, now, keep);
            t.actors.contains_key(id) && t.actors[id] == s.actors[id]
        }),
{
    lemma_finite_lists(s.actors.dom());
    lemma_those(ordered(s.actors.dom()), |k: Seq<char>| actor_spent(s, k, now, keep));
    if spent_actors(s, now, keep).contains(id) {
        assert(actor_spent(s, id, now, keep));
    }
}

/// An actor that is spent is dead, has been for long, and its driver is gone.
pub proof fn law_a_spent_actor_is_nobodys(s: StateV, id: Seq<char>, now: u64, keep: u64)
    requires
        actor_spent(s, id, now, keep),
    ensures
        s.actors[id].state is Dead,
        !s.clients.contains_key(s.actors[id].owner),
{
}

// ---------------------------------------------------------------------------
// Sessions
// ---------------------------------------------------------------------------
/// Every group has one driver session at most.
pub open spec fn one_driver(s: StateV) -> bool {
    forall|a: Seq<char>, b: Seq<char>|
        #![trigger s.clients[a], s.clients[b]]
        s.clients.contains_key(a) && s.clients.contains_key(b) && s.clients[a].has_session
            && s.clients[b].has_session && s.clients[a].group == s.clients[b].group ==> a == b
}

/// A client that is let in leaves every group with one driver session at most. A
/// client whose session is another group's asks for the one it moves to.
pub proof fn law_a_group_has_one_driver(
    s: StateV,
    h: HelloV,
    peer_ip: Seq<char>,
    mine: Seq<Seq<char>>,
)
    requires
        one_driver(s),
        hello_refusal(s, h) is None,
        h.session || !(s.clients.contains_key(h.client_id) && s.clients[h.client_id].has_session
            && s.clients[h.client_id].group != h.group),
    ensures
        one_driver(greeted(s, h, peer_ip, mine)),
{
    let t = greeted(s, h, peer_ip, mine);
    let c = h.client_id;
    assert(t.clients == s.clients.insert(c, hello_row(s, h, peer_ip, mine)));
    assert forall|a: Seq<char>, b: Seq<char>|
        #![trigger t.clients[a], t.clients[b]]
        t.clients.contains_key(a) && t.clients.contains_key(b) && t.clients[a].has_session
            && t.clients[b].has_session && t.clients[a].group == t.clients[b].group implies a
        == b by {
        if a != b {
            if a == c || b == c {
                let o = if a == c {
                    b
                } else {
                    a
                };
                assert(t.clients[o] == s.clients[o]);
                assert(s.clients.contains_key(o));
                if h.session {
                    assert(session_taken(s, h.group, c));
                } else {
                    assert(s.clients[c].has_session);
                    assert(s.clients[c].group == h.group);
                }
            } else {
                assert(s.clients[a] == t.clients[a] && s.clients[b] == t.clients[b]);
            }
        }
    }
}

// ---------------------------------------------------------------------------
// Agents
// ---------------------------------------------------------------------------
/// A lost link is not a death: a blip and a dead container look alike, so no
/// actor dies and no call fails with it.
pub proof fn law_a_lost_link_kills_nobody(
    s: StateV,
    agent: Seq<char>,
    link: u64,
    now: u64,
    dead_after_ms: u64,
)
    ensures
        link_gone(s, agent, link, now, dead_after_ms).actors == s.actors,
        link_gone(s, agent, link, now, dead_after_ms).refs == s.refs,
{
}

proof fn lemma_all_died(
    s: StateV,
    ids: Seq<Seq<char>>,
    reason: Seq<char>,
    now: u64,
    by_island: bool,
    other: Seq<char>,
)
    requires
        s.actors.contains_key(other),
        !ids.contains(other),
    ensures
        all_died(s, ids, reason, now, by_island).actors.contains_key(other),
        all_died(s, ids, reason, now, by_island).actors[other] == s.actors[other],
    decreases ids.len(),
{
    if ids.len() > 0 {
        let init = ids.drop_last();
        assert(!init.contains(other)) by {
            if init.contains(other) {
                assert(ids[init.index_of(other)] == other);
            }
        }
        lemma_all_died(s, init, reason, now, by_island, other);
        let t = all_died(s, init, reason, now, by_island);
        assert(ids[ids.len() - 1] == ids.last());
        let m = marked(t, ids.last(), reason, now);
        law_placing_touches_groups_only(
            StateV { refs: fan_out(m.refs, ids.last(), reason), ..m },
            by_island,
        );
    }
}

proof fn lemma_told_degraded(s: StateV, was: StateV, ids: Seq<Seq<char>>, now: u64)
    ensures
        told_degraded(s, was, ids, now).actors == s.actors,
    decreases ids.len(),
{
    if ids.len() > 0 {
        lemma_told_degraded(s, was, ids.drop_last(), now);
    }
}

proof fn lemma_all_given_up(
    s: StateV,
    was: StateV,
    ids: Seq<Seq<char>>,
    now: u64,
    by_island: bool,
    id: Seq<char>,
)
    requires
        s.actors.contains_key(id),
        !ids.contains(s.actors[id].agent),
    ensures
        all_given_up(s, was, ids, now, by_island).actors.contains_key(id),
        all_given_up(s, was, ids, now, by_island).actors[id] == s.actors[id],
    decreases ids.len(),
{
    if ids.len() > 0 {
        let init = ids.drop_last();
        assert(!init.contains(s.actors[id].agent)) by {
            if init.contains(s.actors[id].agent) {
                assert(ids[init.index_of(s.actors[id].agent)] == s.actors[id].agent);
            }
        }
        lemma_all_given_up(s, was, init, now, by_island, id);
        let t = all_given_up(s, was, init, now, by_island);
        let last = ids.last();
        assert(ids[ids.len() - 1] == last);
        let p = |k: Seq<char>| t.actors[k].agent == last && !(t.actors[k].state is Dead);
        lemma_those(ordered(t.actors.dom()), p);
        let orphaned = actors_on(t, last);
        assert(!orphaned.contains(id)) by {
            if orphaned.contains(id) {
                assert(p(id));
            }
        }
        let ms = down(was.agents[last], now);
        let u = t.emit(
            "agent_dead"@,
            agent_change(t, last),
            "down "@ + decimal(ms as nat) + " ms, "@ + decimal(orphaned.len())
                + " actors orphaned"@,
        );
        assert(u.actors == t.actors);
        lemma_all_died(
            u,
            orphaned,
            "agent link lost for "@ + decimal(ms as nat)
                + "ms, past MENTAT_AGENT_DEAD_AFTER_MS"@,
            now,
            by_island,
            id,
        );
    }
}

/// An actor outlives every outage that ends in time: only the actors of an agent
/// that was given up die of its silence.
pub proof fn law_an_actor_outlives_a_short_outage(
    s: StateV,
    now: u64,
    limits: Limits,
    id: Seq<char>,
)
    requires
        s.agents.dom().finite(),
        s.actors.contains_key(id),
        !(s.agents.contains_key(s.actors[id].agent) && given_up(
            s.agents[s.actors[id].agent],
            now,
            limits.agent_dead_after_ms,
        )),
    ensures
        agents_aged(s, now, limits).actors.contains_key(id),
        agents_aged(s, now, limits).actors[id] == s.actors[id],
{
    let agent = s.actors[id].agent;
    let t = StateV {
        agents: aged_agents(
            s.agents,
            now,
            limits.agent_degraded_after_ms,
            limits.agent_dead_after_ms,
        ),
        ..s
    };
    let keys = ordered(s.agents.dom());
    let worse = those(
        keys,
        |k: Seq<char>|
            degrades(
                s.agents[k],
                now,
                limits.agent_degraded_after_ms,
                limits.agent_dead_after_ms,
            ),
    );
    let p = |k: Seq<char>| given_up(s.agents[k], now, limits.agent_dead_after_ms);
    let lost = those(keys, p);
    lemma_told_degraded(t, s, worse, now);
    lemma_finite_lists(s.agents.dom());
    lemma_those(keys, p);
    assert(!lost.contains(agent)) by {
        if lost.contains(agent) {
            assert(p(agent));
            assert(keys.contains(agent));
            assert(s.agents.dom().contains(agent));
        }
    }
    lemma_all_given_up(
        told_degraded(t, s, worse, now),
        s,
        lost,
        now,
        limits.island_placement,
        id,
    );
}

// ---------------------------------------------------------------------------
// Peers
// ---------------------------------------------------------------------------
proof fn lemma_told_left(s: StateV, ids: Seq<Seq<char>>)
    ensures
        told_left(s, ids).peers == s.peers,
    decreases ids.len(),
{
    if ids.len() > 0 {
        lemma_told_left(s, ids.drop_last());
    }
}

/// A peer that was heard in time is neither lost nor forgotten.
pub proof fn law_a_peer_that_speaks_stays(
    s: StateV,
    now: u64,
    stale_after: u64,
    dead_after: u64,
    keep: u64,
    id: Seq<char>,
)
    requires
        s.peers.contains_key(id),
        s.peers[id].alive,
        since(now, s.peers[id].last_seen_ms) < dead_after,
    ensures
        peers_swept(s, now, stale_after, dead_after, keep).peers.contains_key(id),
        peers_swept(s, now, stale_after, dead_after, keep).peers[id].alive,
{
    let t = StateV { peers: aged_peers(s.peers, now, stale_after, dead_after), ..s };
    let silent = those(
        ordered(s.peers.dom()),
        |k: Seq<char>| fell_silent(s.peers[k], now, dead_after),
    );
    lemma_told_left(t, silent);
    let u = told_left(t, silent);
    let p = |k: Seq<char>| !u.peers[k].alive && since(now, u.peers[k].dead_since_ms) > keep;
    lemma_those(ordered(u.peers.dom()), p);
    assert(u.peers[id].alive);
    if forgettable(u, now, keep).contains(id) {
        assert(p(id));
    }
}

// ---------------------------------------------------------------------------
// A head that moved
// ---------------------------------------------------------------------------
/// A daemon that handed over holds nothing of the groups it had: no client, no
/// claim, no call, no live actor, and no placement group that holds a GPU.
pub proof fn law_a_head_that_moved_holds_nothing(s: StateV, now: u64)
    requires
        hands_over(s),
    ensures
        ({
            let t = moved_away(s, now);
            &&& t.clients == Map::<Seq<char>, ClientV>::empty()
            &&& t.claims == Map::<Seq<char>, Map<Seq<char>, ClaimV>>::empty()
            &&& t.refs == Map::<Seq<char>, RefV>::empty()
            &&& forall|k: Seq<char>| t.actors.contains_key(k) ==> (#[trigger] t.actors[k]).state is Dead
            &&& forall|k: Seq<char>|
                t.pgs.contains_key(k) ==> (#[trigger] t.pgs[k]).state == PgState::Removed
        }),
{
}

} // verus!
