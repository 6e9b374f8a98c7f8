//! How actors, sessions and what they held come to an end.

use vstd::prelude::*;
use vstd::string::*;

use crate::common::dict::{lemma_finite_lists, lemma_those, ordered, those};
use crate::common::text::decimal;
use crate::daemon::actors::{
    all_killed, died, fan_out, in_session, killed, marked, orphans, stoppable, stopped, KillV,
};
use crate::daemon::agents::{exit_counted, result_told, spawn_told};
use crate::daemon::calls::pg_gone;
use crate::daemon::claims::{all_released, released_groups, released_names};
use crate::daemon::laws::law_placing_touches_groups_only;
use crate::daemon::proto::{shares_major, PROTO};
use crate::daemon::sessions::{
    conn_gone, driver_gone, ends_session, greeted, hello_refusal, owned_actors, reaped,
    reaped_pg, reaped_pgs, told_removed, without_refs, HelloV,
};
use crate::daemon::state::{ActorStateV, ActorV, Counters, PgState, RefStateV, StateV};
use crate::daemon::sweep::all_died;

verus! {

// ---------------------------------------------------------------------------
// Death
// ---------------------------------------------------------------------------
/// Whether an actor is there and not dead.
pub open spec fn alive(s: StateV, id: Seq<char>) -> bool {
    s.actors.contains_key(id) && !(s.actors[id].state is Dead)
}

/// What is left of the actors and the calls when one actor, or several, died of one
/// reason: those that were alive are dead of it, with no call queued; each call that
/// waited on one has failed with it; and nothing else of either changes.
pub open spec fn ended(
    s: StateV,
    t: StateV,
    gone: spec_fn(Seq<char>) -> bool,
    reason: Seq<char>,
    now: u64,
) -> bool {
    &&& t.actors.dom() == s.actors.dom()
    &&& forall|k: Seq<char>| #[trigger]
        s.actors.contains_key(k) ==> t.actors[k] == (if gone(k) && !(s.actors[k].state is Dead) {
            ActorV {
                state: ActorStateV::Dead { reason, at_ms: now },
                queued_calls: Seq::empty(),
                ..s.actors[k]
            }
        } else {
            s.actors[k]
        })
    &&& t.refs.dom() == s.refs.dom()
    &&& forall|k: Seq<char>| #[trigger]
        s.refs.contains_key(k) ==> {
            let r = s.refs[k];
            &&& t.refs[k].actor == r.actor
            &&& t.refs[k].owner == r.owner
            &&& t.refs[k].state == (if r.state is Pending && r.actor is Some && gone(r.actor->0)
                && !(s.actors.contains_key(r.actor->0) && s.actors[r.actor->0].state is Dead) {
                RefStateV::ActorDied { reason }
            } else {
                r.state
            })
        }
    &&& t.agents == s.agents
    &&& t.clients == s.clients
    &&& t.claims == s.claims
}

/// An actor that dies is dead of the reason given, at the time given, and each call
/// that waited on it fails with that reason. No other actor or call is touched.
pub proof fn law_a_death_ends_one_actor(
    s: StateV,
    id: Seq<char>,
    reason: Seq<char>,
    now: u64,
    by_island: bool,
)
    ensures
        ended(s, died(s, id, reason, now, by_island), |k: Seq<char>| k == id, reason, now),
{
    let t = died(s, id, reason, now, by_island);
    let m = marked(s, id, reason, now);
    let f = StateV { refs: fan_out(m.refs, id, reason), ..m };
    law_placing_touches_groups_only(f, by_island);
    assert(t.actors.dom() =~= s.actors.dom());
    assert(t.refs.dom() =~= s.refs.dom());
}

/// The same of several that die of one reason.
pub proof fn law_deaths_end_each_actor(
    s: StateV,
    ids: Seq<Seq<char>>,
    reason: Seq<char>,
    now: u64,
    by_island: bool,
)
    requires
        forall|i: int| 0 <= i < ids.len() ==> alive(s, #[trigger] ids[i]),
    ensures
        ended(
            s,
            all_died(s, ids, reason, now, by_island),
            |k: Seq<char>| ids.contains(k),
            reason,
            now,
        ),
    decreases ids.len(),
{
    let t = all_died(s, ids, reason, now, by_island);
    if ids.len() > 0 {
        let init = ids.drop_last();
        let id = ids.last();
        assert(ids[ids.len() - 1] == id);
        assert forall|i: int| 0 <= i < init.len() implies alive(s, #[trigger] init[i]) by {
            assert(init[i] == ids[i]);
        }
        law_deaths_end_each_actor(s, init, reason, now, by_island);
        let u = all_died(s, init, reason, now, by_island);
        law_a_death_ends_one_actor(u, id, reason, now, by_island);
        assert forall|k: Seq<char>| ids.contains(k) == (init.contains(k) || k == id) by {
            if ids.contains(k) {
                let i = ids.index_of(k);
                if i < init.len() {
                    assert(init[i] == k);
                }
            }
            if init.contains(k) {
                assert(ids[init.index_of(k)] == k);
            }
        }
        assert forall|k: Seq<char>| #[trigger] s.actors.contains_key(k) implies t.actors[k] == (
        if ids.contains(k) && !(s.actors[k].state is Dead) {
            ActorV {
                state: ActorStateV::Dead { reason, at_ms: now },
                queued_calls: Seq::empty(),
                ..s.actors[k]
            }
        } else {
            s.actors[k]
        }) by {
            assert(u.actors.dom().contains(k));
            assert(u.actors.contains_key(k));
        }
        assert forall|k: Seq<char>| #[trigger] s.refs.contains_key(k) implies {
            let r = s.refs[k];
            &&& t.refs[k].actor == r.actor
            &&& t.refs[k].owner == r.owner
            &&& t.refs[k].state == (if r.state is Pending && r.actor is Some && ids.contains(
                r.actor->0,
            ) && !(s.actors.contains_key(r.actor->0) && s.actors[r.actor->0].state is Dead) {
                RefStateV::ActorDied { reason }
            } else {
                r.state
            })
        } by {
            assert(u.refs.dom().contains(k));
            assert(u.refs.contains_key(k));
            if s.refs[k].actor is Some {
                let a = s.refs[k].actor->0;
                assert(u.actors.dom().contains(a) == s.actors.dom().contains(a));
                if ids.contains(a) {
                    let i = ids.index_of(a);
                    assert(alive(s, ids[i]));
                    if init.contains(a) {
                        assert(u.actors.contains_key(a));
                    }
                }
            }
        }
    }
}

/// A spawn that failed ends its actor with the error. One that came about leaves a
/// spawning actor running, with its process where one was told; an actor that is
/// running or dead stays so.
pub proof fn law_a_spawn_result_settles_its_actor(
    s: StateV,
    id: Seq<char>,
    ok: bool,
    error: Seq<char>,
    pid: u32,
    now: u64,
    by_island: bool,
)
    requires
        s.actors.contains_key(id),
    ensures
        ({
            let a = s.actors[id];
            let b = spawn_told(s, id, ok, error, pid, now, by_island).actors[id];
            &&& ok && a.state is Spawning ==> b.state is Running
            &&& ok && !(a.state is Spawning) ==> b.state == a.state
            &&& pid != 0 && !(a.state is Dead) ==> b.pid == Some(pid)
            &&& !ok && !(a.state is Dead) ==> b.state is Dead
            &&& a.state is Dead ==> b.state == a.state
            &&& b.gpu_ids == a.gpu_ids && b.agent == a.agent && b.owner == a.owner && b.name
                == a.name && b.group == a.group
        }),
{
    assert forall|u: StateV, why: Seq<char>| #[trigger]
        died(u, id, why, now, by_island).actors[id] == (if u.actors.contains_key(id) && !(
        u.actors[id].state is Dead) {
            ActorV {
                state: ActorStateV::Dead { reason: why, at_ms: now },
                queued_calls: Seq::empty(),
                ..u.actors[id]
            }
        } else {
            died(u, id, why, now, by_island).actors[id]
        }) by {
        law_a_death_ends_one_actor(u, id, why, now, by_island);
    }
    assert forall|u: StateV, why: Seq<char>| u.actors.contains_key(id) && u.actors[id].state is Dead implies (
    #[trigger] died(u, id, why, now, by_island)).actors[id] == u.actors[id] by {
        law_a_death_ends_one_actor(u, id, why, now, by_island);
    }
}

/// The result of a call resolves that call and no other, and only while it is pending.
/// A failure with nothing but an error is told as the reason.
pub proof fn law_a_result_resolves_its_call(
    s: StateV,
    rid: Seq<char>,
    ok: bool,
    error: Seq<char>,
    payload: Seq<u8>,
)
    ensures
        ({
            let t = result_told(s, rid, ok, error, payload);
            &&& s.refs.contains_key(rid) && s.refs[rid].state is Pending ==> {
                let bare = !ok && payload.len() == 0 && error.len() > 0;
                &&& bare ==> t.refs[rid].state == (RefStateV::ActorDied { reason: error })
                &&& !bare ==> t.refs[rid].state == (RefStateV::Ready { ok, payload })
            }
            &&& s.refs.contains_key(rid) && !(s.refs[rid].state is Pending) ==> t.refs[rid]
                == s.refs[rid]
            &&& t.refs.dom() == s.refs.dom()
            &&& forall|k: Seq<char>|
                k != rid && s.refs.contains_key(k) ==> #[trigger] t.refs[k] == s.refs[k]
            &&& t.actors == s.actors
            &&& t.pgs == s.pgs
        }),
{
    let t = result_told(s, rid, ok, error, payload);
    assert(t.refs.dom() =~= s.refs.dom());
}

// ---------------------------------------------------------------------------
// Kills
// ---------------------------------------------------------------------------
/// Killing an actor that is alive tells its agent, where the agent is; where it is not,
/// the actor is dead at once. One that is dead or unknown is left alone.
pub proof fn law_a_kill_reaches_the_agent_or_the_row(
    s: StateV,
    id: Seq<char>,
    now: u64,
    by_island: bool,
)
    ensures
        ({
            let (t, k) = killed(s, id, now, by_island);
            let agent = s.actors[id].agent;
            &&& !alive(s, id) ==> k is Nothing && t == s
            &&& alive(s, id) && s.agents.contains_key(agent) && s.agents[agent].alive ==> {
                &&& k == (KillV::Tell { link: s.agents[agent].link, actor: id })
                &&& t == s
            }
            &&& alive(s, id) && !(s.agents.contains_key(agent) && s.agents[agent].alive) ==> {
                &&& k is Marked
                &&& t.actors.contains_key(id)
                &&& t.actors[id].state is Dead
            }
        }),
{
    if alive(s, id) {
        law_a_death_ends_one_actor(s, id, "killed while its agent was down"@, now, by_island);
    }
}

/// What a kill of several comes to: of each that was alive, its agent is told, or it is
/// dead; nobody else is touched, and nobody else's agent is told.
pub open spec fn all_reached(
    s: StateV,
    t: StateV,
    kills: Seq<KillV>,
    wanted: spec_fn(Seq<char>) -> bool,
) -> bool {
    &&& t.actors.dom() == s.actors.dom()
    &&& t.agents == s.agents
    &&& t.clients == s.clients
    &&& forall|k: Seq<char>| #[trigger]
        s.actors.contains_key(k) ==> {
            let a = s.actors[k];
            let there = s.agents.contains_key(a.agent) && s.agents[a.agent].alive;
            &&& !(wanted(k) && alive(s, k) && !there) ==> t.actors[k] == a
            &&& wanted(k) && alive(s, k) && !there ==> t.actors[k].state is Dead
            &&& wanted(k) && alive(s, k) && there ==> kills.contains(
                KillV::Tell { link: s.agents[a.agent].link, actor: k },
            )
        }
    &&& forall|i: int|
        0 <= i < kills.len() ==> ((#[trigger] kills[i]) matches KillV::Tell { link, actor } ==> {
            &&& wanted(actor)
            &&& alive(s, actor)
            &&& s.agents.contains_key(s.actors[actor].agent)
            &&& s.agents[s.actors[actor].agent].alive
            &&& s.agents[s.actors[actor].agent].link == link
        })
}

pub proof fn law_all_are_reached(s: StateV, ids: Seq<Seq<char>>, now: u64, by_island: bool)
    ensures
        all_reached(
            s,
            all_killed(s, ids, now, by_island).0,
            all_killed(s, ids, now, by_island).1,
            |k: Seq<char>| ids.contains(k),
        ),
    decreases ids.len(),
{
    let (t, kills) = all_killed(s, ids, now, by_island);
    if ids.len() > 0 {
        let init = ids.drop_last();
        let id = ids.last();
        assert(ids[ids.len() - 1] == id);
        law_all_are_reached(s, init, now, by_island);
        let (u, had) = all_killed(s, init, now, by_island);
        let (v, k) = killed(u, id, now, by_island);
        assert(kills == had.push(k));
        assert forall|k: Seq<char>| ids.contains(k) == (init.contains(k) || k == id) by {
            if ids.contains(k) {
                let i = ids.index_of(k);
                if i < init.len() {
                    assert(init[i] == k);
                }
            }
            if init.contains(k) {
                assert(ids[init.index_of(k)] == k);
            }
        }
        law_a_death_ends_one_actor(u, id, "killed while its agent was down"@, now, by_island);
        assert(t.actors.dom() =~= s.actors.dom());
        assert forall|x: KillV| had.contains(x) implies kills.contains(x) by {
            let i = had.index_of(x);
            assert(kills[i] == x);
        }
        assert(kills[kills.len() - 1] == k);
        assert(u.actors.dom().contains(id) == s.actors.dom().contains(id));
        assert forall|x: Seq<char>| #[trigger] s.actors.contains_key(x) implies ({
            let a = s.actors[x];
            let there = s.agents.contains_key(a.agent) && s.agents[a.agent].alive;
            &&& !(ids.contains(x) && alive(s, x) && !there) ==> t.actors[x] == a
            &&& ids.contains(x) && alive(s, x) && !there ==> t.actors[x].state is Dead
            &&& ids.contains(x) && alive(s, x) && there ==> kills.contains(
                KillV::Tell { link: s.agents[a.agent].link, actor: x },
            )
        }) by {
            assert(u.actors.dom().contains(x));
            assert(u.actors.contains_key(x));
        }
        assert forall|i: int| 0 <= i < kills.len() implies ((
        #[trigger] kills[i]) matches KillV::Tell { link, actor } ==> {
            &&& ids.contains(actor)
            &&& alive(s, actor)
            &&& s.agents.contains_key(s.actors[actor].agent)
            &&& s.agents[s.actors[actor].agent].alive
            &&& s.agents[s.actors[actor].agent].link == link
        }) by {
            if i < had.len() {
                assert(kills[i] == had[i]);
            }
        }
    }
}

/// A stop takes a group or all, and not both. It ends every live actor that it names,
/// by its agent or at once, and no other.
pub proof fn law_a_stop_reaches_every_actor_named(
    s: StateV,
    group: Seq<char>,
    all: bool,
    now: u64,
    by_island: bool,
)
    requires
        s.actors.dom().finite(),
    ensures
        ({
            let (t, r) = stopped(s, group, all, now, by_island);
            &&& r is Err <==> (all && group.len() > 0) || (!all && group.len() == 0)
            &&& r is Err ==> t == s
            &&& r is Ok ==> all_reached(
                s,
                t,
                r->Ok_0,
                |k: Seq<char>| alive(s, k) && (all || s.actors[k].group == group),
            )
        }),
{
    let p = |k: Seq<char>| (all || s.actors[k].group == group) && !(s.actors[k].state is Dead);
    let ids = stoppable(s, group, all);
    lemma_finite_lists(s.actors.dom());
    lemma_those(ordered(s.actors.dom()), p);
    assert forall|k: Seq<char>| ids.contains(k) == (alive(s, k) && (all || s.actors[k].group
        == group)) by {
        assert(ordered(s.actors.dom()).contains(k) == s.actors.dom().contains(k));
        assert(those(ordered(s.actors.dom()), p).contains(k) == (ordered(
            s.actors.dom(),
        ).contains(k) && p(k)));
    }
    law_all_are_reached(s, ids, now, by_island);
}

// ---------------------------------------------------------------------------
// Sessions
// ---------------------------------------------------------------------------
/// A client is turned away exactly for another major version of the protocol, or for a
/// driver's session in a group that another client drives.
pub proof fn law_a_client_is_turned_away_for_two_reasons(s: StateV, h: HelloV)
    ensures
        hello_refusal(s, h) is Some <==> {
            ||| !shares_major(PROTO@, h.proto)
            ||| h.session && exists|k: Seq<char>| #[trigger]
                s.clients.contains_key(k) && k != h.client_id && s.clients[k].group == h.group
                    && s.clients[k].has_session
        },
{
}

/// A client that is let in is of the group it named, in session from then on if it said
/// so; one that comes again keeps its node and its session. No other client changes.
pub proof fn law_a_client_is_let_in(
    s: StateV,
    h: HelloV,
    peer_ip: Seq<char>,
    mine: Seq<Seq<char>>,
)
    ensures
        ({
            let t = greeted(s, h, peer_ip, mine);
            let c = t.clients[h.client_id];
            let had = s.clients[h.client_id];
            &&& t.clients.contains_key(h.client_id)
            &&& c.group == h.group
            &&& c.has_session <==> h.session || (s.clients.contains_key(h.client_id)
                && had.has_session)
            &&& s.clients.contains_key(h.client_id) ==> c.node_id == had.node_id && c.kind
                == had.kind
            &&& !s.clients.contains_key(h.client_id) ==> c.id == h.client_id && c.kind == h.kind
            &&& forall|k: Seq<char>|
                k != h.client_id ==> (#[trigger] t.clients.contains_key(k)
                    == s.clients.contains_key(k))
            &&& forall|k: Seq<char>|
                k != h.client_id && s.clients.contains_key(k) ==> #[trigger] t.clients[k]
                    == s.clients[k]
            &&& t.actors == s.actors && t.agents == s.agents && t.pgs == s.pgs && t.refs == s.refs
        }),
{
}

/// A driver that comes is told of the live actors of its group that another driver left
/// behind: those whose owner is not it, and is in no session.
pub proof fn law_orphans_are_those_nobody_drives(
    s: StateV,
    group: Seq<char>,
    client: Seq<char>,
    k: Seq<char>,
)
    requires
        s.actors.dom().finite(),
    ensures
        orphans(s, group, client).contains(k) <==> {
            let owner = s.actors[k].owner;
            &&& alive(s, k)
            &&& s.actors[k].group == group
            &&& owner != client
            &&& !(s.clients.contains_key(owner) && s.clients[owner].has_session)
        },
{
    let p = |k: Seq<char>|
        s.actors[k].group == group && s.actors[k].owner != client && !(s.actors[k].state is Dead)
            && !in_session(s, s.actors[k].owner);
    lemma_finite_lists(s.actors.dom());
    lemma_those(ordered(s.actors.dom()), p);
    assert(ordered(s.actors.dom()).contains(k) == s.actors.dom().contains(k));
    assert(those(ordered(s.actors.dom()), p).contains(k) == (ordered(s.actors.dom()).contains(k)
        && p(k)));
}

/// A connection that closes takes its client's row with it, unless the client is in
/// session and this daemon is the head, which reaps it first.
pub proof fn law_a_closed_connection_forgets_its_client(s: StateV, client: Seq<char>)
    ensures
        ({
            let t = conn_gone(s, client);
            &&& t.clients.contains_key(client) <==> s.clients.contains_key(client)
                && s.clients[client].has_session && s.head_node_id == s.node_id
            &&& forall|k: Seq<char>|
                k != client ==> (#[trigger] t.clients.contains_key(k) == s.clients.contains_key(k))
            &&& t.actors == s.actors && t.refs == s.refs && t.pgs == s.pgs && t.claims == s.claims
        }),
        ends_session(s, true) <==> s.head_node_id == s.node_id,
        !ends_session(s, false),
        !driver_gone(s, client).clients.contains_key(client),
{
}

proof fn lemma_told_removed(s: StateV, ids: Seq<Seq<char>>, detail: Seq<char>)
    ensures
        ({
            let t = told_removed(s, ids, detail);
            &&& t.actors == s.actors
            &&& t.agents == s.agents
            &&& t.refs == s.refs
            &&& t.clients == s.clients
            &&& t.pgs == s.pgs
        }),
    decreases ids.len(),
{
    if ids.len() > 0 {
        lemma_told_removed(s, ids.drop_last(), detail);
    }
}

proof fn lemma_killed_keep_refs_of_others(
    s: StateV,
    ids: Seq<Seq<char>>,
    now: u64,
    by_island: bool,
)
    ensures
        ({
            let t = all_killed(s, ids, now, by_island).0;
            &&& t.refs.dom() == s.refs.dom()
            &&& forall|k: Seq<char>| #[trigger]
                s.refs.contains_key(k) ==> t.refs[k].owner == s.refs[k].owner
            &&& forall|k: Seq<char>| #[trigger]
                s.refs.contains_key(k) && !(s.refs[k].state is Pending) ==> t.refs[k].state
                    == s.refs[k].state
        }),
    decreases ids.len(),
{
    if ids.len() > 0 {
        lemma_killed_keep_refs_of_others(s, ids.drop_last(), now, by_island);
        let u = all_killed(s, ids.drop_last(), now, by_island).0;
        let id = ids.last();
        law_a_death_ends_one_actor(u, id, "killed while its agent was down"@, now, by_island);
        let t = all_killed(s, ids, now, by_island).0;
        assert forall|k: Seq<char>| #[trigger] s.refs.contains_key(k) implies u.refs.contains_key(
            k,
        ) by {
            assert(u.refs.dom().contains(k));
        }
    }
}

proof fn lemma_names_released(
    s: StateV,
    client: Seq<char>,
    group: Seq<char>,
    names: Seq<Seq<char>>,
)
    ensures
        ({
            let t = released_names(s, client, group, names);
            t.actors == s.actors && t.agents == s.agents && t.refs == s.refs && t.pgs == s.pgs
        }),
    decreases names.len(),
{
    if names.len() > 0 {
        lemma_names_released(s, client, group, names.drop_last());
    }
}

proof fn lemma_groups_released(
    s: StateV,
    client: Seq<char>,
    at: StateV,
    groups: Seq<Seq<char>>,
)
    ensures
        ({
            let t = released_groups(s, client, at, groups);
            t.actors == s.actors && t.agents == s.agents && t.refs == s.refs && t.pgs == s.pgs
        }),
    decreases groups.len(),
{
    if groups.len() > 0 {
        lemma_groups_released(s, client, at, groups.drop_last());
        let t = released_groups(s, client, at, groups.drop_last());
        let g = groups.last();
        lemma_names_released(t, client, g, ordered(at.claims[g].dom()));
    }
}

/// A driver that is gone leaves nothing running: each of its live actors is dead, or its
/// agent is told to end it, and nobody else's is. Its calls are forgotten, and nobody
/// else's.
pub proof fn law_a_reaped_driver_leaves_no_actor(
    s: StateV,
    client: Seq<char>,
    group: Seq<char>,
    now: u64,
    by_island: bool,
)
    requires
        s.actors.dom().finite(),
    ensures
        ({
            let (t, kills) = reaped(s, client, group, now, by_island);
            &&& forall|k: Seq<char>| #[trigger]
                s.actors.contains_key(k) ==> {
                    let a = s.actors[k];
                    let there = s.agents.contains_key(a.agent) && s.agents[a.agent].alive;
                    &&& a.owner == client && alive(s, k) && there ==> kills.contains(
                        KillV::Tell { link: s.agents[a.agent].link, actor: k },
                    )
                    &&& a.owner == client && alive(s, k) && !there ==> t.actors[k].state is Dead
                    &&& a.owner != client ==> t.actors[k] == a
                }
            &&& forall|i: int|
                0 <= i < kills.len() ==> ((
                #[trigger] kills[i]) matches KillV::Tell { actor, .. } ==> s.actors.contains_key(
                    actor,
                ) && s.actors[actor].owner == client)
            &&& forall|k: Seq<char>| #[trigger]
                t.refs.contains_key(k) <==> s.refs.contains_key(k) && s.refs[k].owner != client
        }),
{
    let a = all_released(s, client);
    lemma_groups_released(s, client, s, ordered(s.claims.dom()));
    let ids = owned_actors(a, client);
    let p = |k: Seq<char>| a.actors[k].owner == client && !(a.actors[k].state is Dead);
    lemma_finite_lists(s.actors.dom());
    lemma_those(ordered(s.actors.dom()), p);
    let gone = those(ordered(a.pgs.dom()), |k: Seq<char>| reaped_pg(a.pgs[k], client));
    let b0 = StateV { pgs: reaped_pgs(a.pgs, client, now), ..a };
    lemma_told_removed(b0, gone, "driver session closed"@);
    let b = told_removed(b0, gone, "driver session closed"@);
    let c = if ids.len() > 0 {
        b.emit(
            "driver_gone_reaping"@,
            Seq::empty(),
            decimal(ids.len()) + " actors in group "@ + group,
        )
    } else {
        b
    };
    law_all_are_reached(c, ids, now, by_island);
    lemma_killed_keep_refs_of_others(c, ids, now, by_island);
    let (d, kills) = all_killed(c, ids, now, by_island);
    let e = without_refs(d, client);
    law_placing_touches_groups_only(e, by_island);
    let (t, ks) = reaped(s, client, group, now, by_island);
    assert(ks == kills);
    assert forall|k: Seq<char>| ids.contains(k) == (alive(s, k) && s.actors[k].owner == client) by {
        assert(ordered(s.actors.dom()).contains(k) == s.actors.dom().contains(k));
        assert(those(ordered(s.actors.dom()), p).contains(k) == (ordered(
            s.actors.dom(),
        ).contains(k) && p(k)));
    }
    assert forall|k: Seq<char>| #[trigger] t.refs.contains_key(k) <==> s.refs.contains_key(k)
        && s.refs[k].owner != client by {
        assert(d.refs.dom().contains(k) == s.refs.dom().contains(k));
        if s.refs.contains_key(k) {
            assert(c.refs.contains_key(k));
        }
    }
    assert forall|k: Seq<char>| #[trigger] s.actors.contains_key(k) implies c.actors.contains_key(
        k,
    ) && t.actors[k] == d.actors[k] by {
    }
}

/// A driver's placement groups go with it, and hold nothing; those of others stay. A
/// group that is removed on its own goes alone.
pub proof fn law_removed_groups_hold_nothing(
    s: StateV,
    client: Seq<char>,
    id: Seq<char>,
    now: u64,
    detail: Seq<char>,
)
    requires
        s.pgs.contains_key(id),
    ensures
        ({
            let m = reaped_pgs(s.pgs, client, now);
            &&& m.contains_key(id)
            &&& s.pgs[id].owner == client ==> m[id].state == PgState::Removed
            &&& s.pgs[id].owner != client ==> m[id] == s.pgs[id]
        }),
        ({
            let t = pg_gone(s, id, now, detail);
            &&& t.pgs[id].state == PgState::Removed
            &&& t.pgs[id].removed_ms == Some(now)
            &&& t.pgs.dom() == s.pgs.dom()
            &&& forall|k: Seq<char>|
                k != id && s.pgs.contains_key(k) ==> #[trigger] t.pgs[k] == s.pgs[k]
            &&& t.actors == s.actors && t.refs == s.refs
        }),
{
    assert(pg_gone(s, id, now, detail).pgs.dom() =~= s.pgs.dom());
}

/// A process that exits is counted once: with code zero as clean, otherwise with a
/// signal as signalled, and otherwise as an error.
pub proof fn law_an_exit_is_counted_once(
    c: Counters,
    exit_code: Option<i32>,
    signal: Option<i32>,
)
    requires
        c.actor_exits_clean < u64::MAX,
        c.actor_exits_signal < u64::MAX,
        c.actor_exits_error < u64::MAX,
    ensures
        ({
            let d = exit_counted(c, exit_code, signal);
            let clean = exit_code == Some(0i32);
            &&& d.actor_exits_clean - c.actor_exits_clean == (if clean {
                1int
            } else {
                0
            })
            &&& d.actor_exits_signal - c.actor_exits_signal == (if !clean && signal is Some {
                1int
            } else {
                0
            })
            &&& d.actor_exits_error - c.actor_exits_error == (if !clean && signal is None {
                1int
            } else {
                0
            })
            &&& d.actors_spawned == c.actors_spawned
            &&& d.calls_total == c.calls_total
        }),
{
}

} // verus!
