//! What the lifecycle sweep does to calls, groups, agents and history, told by the clock.

use vstd::prelude::*;
use vstd::string::*;

use crate::common::dict::{
    increasing, lemma_finite_lists, lemma_increasing_distinct, lemma_those, ordered, those,
};
use crate::common::text::decimal;
use crate::daemon::agents::link_gone;
use crate::daemon::end_laws::{alive, law_deaths_end_each_actor};
use crate::daemon::place::agent_change;
use crate::daemon::state::{ActorStateV, PgState, StateV};
use crate::daemon::sweep::{
    actor_spent, actors_on, aged_agents, agent_spent, agents_aged, all_died, all_given_up,
    degrades, down, given_up, history_swept, hosts_still, overdue, overdue_pgs, pg_spent,
    pgs_expired, slow, slow_calls, spent_actors, spent_agents, spent_pgs, told_degraded,
    warned_refs, Limits,
};

verus! {

pub(crate) proof fn lemma_listed<V>(m: Map<Seq<char>, V>, p: spec_fn(Seq<char>) -> bool)
    requires
        m.dom().finite(),
    ensures
        forall|k: Seq<char>| #[trigger]
            those(ordered(m.dom()), p).contains(k) <==> m.contains_key(k) && p(k),
{
    lemma_finite_lists(m.dom());
    lemma_those(ordered(m.dom()), p);
    assert forall|k: Seq<char>| #[trigger] those(ordered(m.dom()), p).contains(k)
        <==> m.contains_key(k) && p(k) by {
        assert(ordered(m.dom()).contains(k) == m.dom().contains(k));
    }
}

// ---------------------------------------------------------------------------
// Calls
// ---------------------------------------------------------------------------
/// A call is warned of once, when it has been pending for longer than the limit: unless
/// it is the call that runs an actor's own loop, or it was warned of before. Nothing else
/// of any call changes.
pub proof fn law_a_slow_call_is_warned_of_once(s: StateV, now: u64, after: u64, k: Seq<char>)
    requires
        s.refs.dom().finite(),
    ensures
        ({
            let r = s.refs[k];
            let t = warned_refs(s.refs, now, after);
            &&& slow_calls(s, now, after).contains(k) <==> {
                &&& s.refs.contains_key(k)
                &&& r.state is Pending
                &&& r.method != "run"@
                &&& !r.warned
                &&& now > r.created_ms + after
            }
            &&& t.dom() == s.refs.dom()
            &&& s.refs.contains_key(k) ==> {
                &&& t[k].warned <==> r.warned || slow_calls(s, now, after).contains(k)
                &&& t[k].state == r.state && t[k].actor == r.actor && t[k].owner == r.owner
                    && t[k].created_ms == r.created_ms && t[k].method == r.method
            }
        }),
{
    lemma_listed(s.refs, |k: Seq<char>| slow(s.refs[k], now, after));
    assert(warned_refs(s.refs, now, after).dom() =~= s.refs.dom());
}

// ---------------------------------------------------------------------------
// Placement groups
// ---------------------------------------------------------------------------
proof fn lemma_expired(s: StateV, ids: Seq<Seq<char>>, now: u64)
    requires
        ids.no_duplicates(),
        forall|i: int| 0 <= i < ids.len() ==> s.pgs.contains_key(#[trigger] ids[i]),
    ensures
        ({
            let t = pgs_expired(s, ids, now);
            &&& t.pgs.dom() == s.pgs.dom()
            &&& forall|k: Seq<char>| #[trigger]
                s.pgs.contains_key(k) && !ids.contains(k) ==> t.pgs[k] == s.pgs[k]
            &&& forall|k: Seq<char>| #[trigger]
                s.pgs.contains_key(k) && ids.contains(k) ==> {
                    &&& t.pgs[k].state == PgState::Removed
                    &&& t.pgs[k].removed_ms == Some(now)
                    &&& t.pgs[k].fail_reason is Some
                    &&& t.pgs[k].owner == s.pgs[k].owner
                    &&& t.pgs[k].group == s.pgs[k].group
                }
            &&& t.actors == s.actors && t.agents == s.agents && t.refs == s.refs
        }),
    decreases ids.len(),
{
    let t = pgs_expired(s, ids, now);
    if ids.len() > 0 {
        let init = ids.drop_last();
        let last = ids.last();
        assert(ids[ids.len() - 1] == last);
        assert(init.no_duplicates()) by {
            assert forall|a: int, b: int|
                0 <= a < init.len() && 0 <= b < init.len() && a != b implies init[a] != init[b] by {
                assert(init[a] == ids[a] && init[b] == ids[b]);
            }
        }
        assert forall|i: int| 0 <= i < init.len() implies s.pgs.contains_key(#[trigger] init[i]) by {
            assert(init[i] == ids[i]);
        }
        lemma_expired(s, init, now);
        let u = pgs_expired(s, init, now);
        assert(s.pgs.contains_key(last));
        assert(u.pgs.dom().contains(last));
        assert(!init.contains(last)) by {
            if init.contains(last) {
                assert(ids[init.index_of(last)] == ids[ids.len() - 1]);
            }
        }
        assert(t.pgs.dom() =~= s.pgs.dom());
        assert forall|k: Seq<char>| ids.contains(k) == (init.contains(k) || k == last) by {
            if ids.contains(k) {
                let i = ids.index_of(k);
                if i < init.len() {
                    assert(init[i] == k);
                }
            }
            if init.contains(k) {
                assert(ids[init.index_of(k)] == k);
            }
        }
    }
}

proof fn lemma_those_distinct(keys: Seq<Seq<char>>, p: spec_fn(Seq<char>) -> bool)
    requires
        increasing(keys),
    ensures
        those(keys, p).no_duplicates(),
{
    lemma_those(keys, p);
    let v = those(keys, p);
    assert forall|a: int, b: int| 0 <= a < v.len() && 0 <= b < v.len() && a != b implies v[a]
        != v[b] by {
        if v[a] == v[b] {
            lemma_increasing_distinct(v, a, b);
        }
    }
}

/// A placement group that has been pending for longer than the limit is failed, and says
/// why; every other one is left alone.
pub proof fn law_a_group_that_waits_too_long_is_failed(
    s: StateV,
    now: u64,
    after: u64,
    k: Seq<char>,
)
    requires
        s.pgs.dom().finite(),
        s.pgs.contains_key(k),
    ensures
        ({
            let t = pgs_expired(s, overdue_pgs(s, now, after), now);
            let late = s.pgs[k].state == PgState::Pending && now > s.pgs[k].created_ms + after;
            &&& t.pgs.contains_key(k)
            &&& !late ==> t.pgs[k] == s.pgs[k]
            &&& late ==> t.pgs[k].state == PgState::Removed && t.pgs[k].removed_ms == Some(now)
                && t.pgs[k].fail_reason is Some
            &&& t.actors == s.actors && t.agents == s.agents
        }),
{
    let p = |k: Seq<char>| overdue(s.pgs[k], now, after);
    lemma_listed(s.pgs, p);
    lemma_finite_lists(s.pgs.dom());
    lemma_those_distinct(ordered(s.pgs.dom()), p);
    let ids = overdue_pgs(s, now, after);
    assert forall|i: int| 0 <= i < ids.len() implies s.pgs.contains_key(#[trigger] ids[i]) by {
        assert(ids.contains(ids[i]));
    }
    lemma_expired(s, ids, now);
    let t = pgs_expired(s, ids, now);
    assert(t.pgs.dom().contains(k));
    assert(ids.contains(k) == p(k));
}

// ---------------------------------------------------------------------------
// Agents
// ---------------------------------------------------------------------------
/// How long an agent's link has been down, where it is.
pub open spec fn down_for(s: StateV, k: Seq<char>, now: u64) -> int {
    if s.agents[k].lost_at_ms is Some && now > s.agents[k].lost_at_ms->0 {
        now - s.agents[k].lost_at_ms->0
    } else {
        0
    }
}

proof fn lemma_told(s: StateV, was: StateV, ids: Seq<Seq<char>>, now: u64)
    ensures
        ({
            let t = told_degraded(s, was, ids, now);
            t.actors == s.actors && t.agents == s.agents && t.refs == s.refs && t.clients
                == s.clients && t.claims == s.claims
        }),
    decreases ids.len(),
{
    if ids.len() > 0 {
        lemma_told(s, was, ids.drop_last(), now);
    }
}

proof fn lemma_on(s: StateV, agent: Seq<char>)
    requires
        s.actors.dom().finite(),
    ensures
        forall|k: Seq<char>| #[trigger]
            actors_on(s, agent).contains(k) <==> alive(s, k) && s.actors[k].agent == agent,
        forall|i: int| 0 <= i < actors_on(s, agent).len() ==> alive(s, #[trigger] actors_on(s, agent)[i]),
{
    let p = |k: Seq<char>| s.actors[k].agent == agent && !(s.actors[k].state is Dead);
    lemma_listed(s.actors, p);
    let v = actors_on(s, agent);
    assert forall|i: int| 0 <= i < v.len() implies alive(s, #[trigger] v[i]) by {
        assert(v.contains(v[i]));
    }
}

proof fn lemma_given_up(
    s: StateV,
    was: StateV,
    ids: Seq<Seq<char>>,
    now: u64,
    by_island: bool,
)
    requires
        s.actors.dom().finite(),
    ensures
        ({
            let t = all_given_up(s, was, ids, now, by_island);
            &&& t.agents == s.agents
            &&& t.actors.dom() == s.actors.dom()
            &&& forall|k: Seq<char>| #[trigger]
                s.actors.contains_key(k) ==> {
                    &&& t.actors[k].agent == s.actors[k].agent
                    &&& ids.contains(s.actors[k].agent) ==> t.actors[k].state is Dead
                    &&& !ids.contains(s.actors[k].agent) ==> t.actors[k] == s.actors[k]
                    &&& s.actors[k].state is Dead ==> t.actors[k] == s.actors[k]
                }
        }),
    decreases ids.len(),
{
    let t = all_given_up(s, was, ids, now, by_island);
    if ids.len() > 0 {
        let init = ids.drop_last();
        let id = ids.last();
        assert(ids[ids.len() - 1] == id);
        lemma_given_up(s, was, init, now, by_island);
        let u = all_given_up(s, was, init, now, by_island);
        assert(u.actors.dom().finite());
        lemma_on(u, id);
        let gone = actors_on(u, id);
        let ms = down(was.agents[id], now);
        let v = u.emit(
            "agent_dead"@,
            agent_change(u, id),
            "down "@ + decimal(ms as nat) + " ms, "@
                + decimal(gone.len()) + " actors orphaned"@,
        );
        let why = "agent link lost for "@ + decimal(ms as nat)
            + "ms, past MENTAT_AGENT_DEAD_AFTER_MS"@;
        assert forall|i: int| 0 <= i < gone.len() implies alive(v, #[trigger] gone[i]) by {
            assert(alive(u, gone[i]));
        }
        law_deaths_end_each_actor(v, gone, why, now, by_island);
        assert(t == all_died(v, gone, why, now, by_island));
        assert forall|k: Seq<char>| ids.contains(k) == (init.contains(k) || k == id) by {
            if ids.contains(k) {
                let i = ids.index_of(k);
                if i < init.len() {
                    assert(init[i] == k);
                }
            }
            if init.contains(k) {
                assert(ids[init.index_of(k)] == k);
            }
        }
        assert forall|k: Seq<char>| #[trigger] s.actors.contains_key(k) implies {
            &&& t.actors[k].agent == s.actors[k].agent
            &&& ids.contains(s.actors[k].agent) ==> t.actors[k].state is Dead
            &&& !ids.contains(s.actors[k].agent) ==> t.actors[k] == s.actors[k]
            &&& s.actors[k].state is Dead ==> t.actors[k] == s.actors[k]
        } by {
            assert(u.actors.dom().contains(k));
            assert(v.actors.contains_key(k));
            assert(gone.contains(k) <==> alive(u, k) && u.actors[k].agent == id);
        }
    }
}

/// An agent whose link has been down for as long as the longer limit is given up, and
/// every actor on it is dead; one down for the shorter limit is marked degraded, and its
/// actors live; any other agent, and the actors on it, are left alone.
pub proof fn law_a_lost_agent_is_degraded_then_given_up(
    s: StateV,
    now: u64,
    limits: Limits,
    k: Seq<char>,
    actor: Seq<char>,
)
    requires
        s.agents.dom().finite(),
        s.actors.dom().finite(),
        s.agents.contains_key(k),
    ensures
        ({
            let t = agents_aged(s, now, limits);
            let lost = s.agents[k].lost_at_ms is Some;
            let late = lost && down_for(s, k, now) >= limits.agent_dead_after_ms;
            let worse = lost && !late && down_for(s, k, now) >= limits.agent_degraded_after_ms;
            &&& t.agents.contains_key(k)
            &&& late ==> t.agents[k].lost_at_ms is None
            &&& worse ==> t.agents[k].degraded && t.agents[k].lost_at_ms == s.agents[k].lost_at_ms
            &&& !late && !worse ==> t.agents[k] == s.agents[k]
            &&& t.agents[k].alive == s.agents[k].alive
            &&& t.agents[k].gone_since_ms == s.agents[k].gone_since_ms
            &&& s.actors.contains_key(actor) && s.actors[actor].agent == k ==> {
                &&& late ==> t.actors[actor].state is Dead
                &&& !late ==> t.actors[actor] == s.actors[actor]
            }
        }),
{
    let t0 = StateV {
        agents: aged_agents(
            s.agents,
            now,
            limits.agent_degraded_after_ms,
            limits.agent_dead_after_ms,
        ),
        ..s
    };
    let pw = |k: Seq<char>|
        degrades(
            s.agents[k],
            now,
            limits.agent_degraded_after_ms,
            limits.agent_dead_after_ms,
        );
    let pl = |k: Seq<char>| given_up(s.agents[k], now, limits.agent_dead_after_ms);
    let worse = those(ordered(s.agents.dom()), pw);
    let lost = those(ordered(s.agents.dom()), pl);
    lemma_listed(s.agents, pl);
    lemma_told(t0, s, worse, now);
    let u = told_degraded(t0, s, worse, now);
    lemma_given_up(u, s, lost, now, limits.island_placement);
    assert(lost.contains(k) == pl(k));
    if s.actors.contains_key(actor) {
        assert(u.actors.contains_key(actor));
    }
}

/// A link that is lost starts both windows: the agent is not alive, nor degraded yet, and
/// its actors are untouched. The loss of a link that was replaced changes nothing.
pub proof fn law_a_lost_link_starts_the_windows(
    s: StateV,
    agent: Seq<char>,
    link: u64,
    now: u64,
    dead_after_ms: u64,
)
    ensures
        ({
            let t = link_gone(s, agent, link, now, dead_after_ms);
            let mine = s.agents.contains_key(agent) && s.agents[agent].link == link;
            &&& !mine ==> t == s
            &&& mine ==> {
                &&& !t.agents[agent].alive
                &&& !t.agents[agent].degraded
                &&& t.agents[agent].lost_at_ms == Some(now)
                &&& t.agents[agent].gone_since_ms == Some(now)
                &&& t.agents[agent].machine == s.agents[agent].machine
                &&& t.agents[agent].seq == s.agents[agent].seq
            }
            &&& forall|k: Seq<char>|
                k != agent && s.agents.contains_key(k) ==> #[trigger] t.agents[k] == s.agents[k]
            &&& t.actors == s.actors && t.refs == s.refs && t.pgs == s.pgs
        }),
{
}

// ---------------------------------------------------------------------------
// History
// ---------------------------------------------------------------------------
/// Whether an actor is history: it died longer ago than is kept, and its driver is gone.
pub open spec fn past_actor(s: StateV, k: Seq<char>, now: u64, keep: u64) -> bool {
    &&& s.actors.contains_key(k)
    &&& !s.clients.contains_key(s.actors[k].owner)
    &&& s.actors[k].state matches ActorStateV::Dead { at_ms, .. } && now > at_ms + keep
}

/// Whether a placement group is history: it was removed longer ago than is kept, and its
/// driver is gone.
pub open spec fn past_group(s: StateV, k: Seq<char>, now: u64, keep: u64) -> bool {
    &&& s.pgs.contains_key(k)
    &&& s.pgs[k].state == PgState::Removed
    &&& !s.clients.contains_key(s.pgs[k].owner)
    &&& s.pgs[k].removed_ms is Some
    &&& now > s.pgs[k].removed_ms->0 + keep
}

/// Whether an agent is history: it was given up, has been gone longer than is kept, and
/// every actor that was on it is history.
pub open spec fn past_agent(s: StateV, k: Seq<char>, now: u64, keep: u64) -> bool {
    &&& s.agents.contains_key(k)
    &&& !s.agents[k].alive
    &&& s.agents[k].lost_at_ms is None
    &&& s.agents[k].gone_since_ms is Some
    &&& now > s.agents[k].gone_since_ms->0 + keep
    &&& forall|a: Seq<char>| #[trigger]
        s.actors.contains_key(a) && s.actors[a].agent == k ==> past_actor(s, a, now, keep)
}

/// The history sweep drops what is history and keeps the rest as it is; a call goes with
/// the actor it was made of.
pub proof fn law_the_sweep_drops_history_alone(
    s: StateV,
    now: u64,
    keep: u64,
    k: Seq<char>,
)
    requires
        s.actors.dom().finite(),
        s.pgs.dom().finite(),
        s.agents.dom().finite(),
    ensures
        ({
            let t = history_swept(s, now, keep);
            &&& t.actors.contains_key(k) <==> s.actors.contains_key(k) && !past_actor(
                s,
                k,
                now,
                keep,
            )
            &&& t.pgs.contains_key(k) <==> s.pgs.contains_key(k) && !past_group(s, k, now, keep)
            &&& t.agents.contains_key(k) <==> s.agents.contains_key(k) && !past_agent(
                s,
                k,
                now,
                keep,
            )
            &&& t.actors.contains_key(k) ==> t.actors[k] == s.actors[k]
            &&& t.pgs.contains_key(k) ==> t.pgs[k] == s.pgs[k]
            &&& t.agents.contains_key(k) ==> t.agents[k] == s.agents[k]
            &&& t.refs.contains_key(k) ==> s.refs.contains_key(k) && t.refs[k] == s.refs[k]
            &&& s.refs.contains_key(k) && s.refs[k].actor is Some && past_actor(
                s,
                s.refs[k].actor->0,
                now,
                keep,
            ) ==> !t.refs.contains_key(k)
            &&& s.refs.contains_key(k) && (s.refs[k].actor is None || (s.actors.contains_key(
                s.refs[k].actor->0,
            ) && !past_actor(s, s.refs[k].actor->0, now, keep))) ==> t.refs.contains_key(k)
        }),
{
    let pa = |k: Seq<char>| actor_spent(s, k, now, keep);
    let pp = |k: Seq<char>| pg_spent(s, k, now, keep);
    lemma_listed(s.actors, pa);
    lemma_listed(s.pgs, pp);
    let actors = spent_actors(s, now, keep);
    let pgs = spent_pgs(s, now, keep);
    let pg = |k: Seq<char>| agent_spent(s, k, actors, now, keep);
    lemma_listed(s.agents, pg);
    let agents = spent_agents(s, now, keep);
    assert forall|a: Seq<char>| #[trigger] actors.contains(a) <==> past_actor(s, a, now, keep) by {
        assert(actors.contains(a) <==> s.actors.contains_key(a) && pa(a));
    }
    assert(pgs.contains(k) <==> past_group(s, k, now, keep)) by {
        assert(pgs.contains(k) <==> s.pgs.contains_key(k) && pp(k));
    }
    assert(agents.contains(k) <==> past_agent(s, k, now, keep)) by {
        assert(agents.contains(k) <==> s.agents.contains_key(k) && pg(k));
        if hosts_still(s, k, actors) {
            let a = choose|a: Seq<char>| #[trigger]
                s.actors.contains_key(a) && s.actors[a].agent == k && !actors.contains(a);
            assert(!past_actor(s, a, now, keep));
        } else {
            assert forall|a: Seq<char>| #[trigger]
                s.actors.contains_key(a) && s.actors[a].agent == k implies past_actor(
                s,
                a,
                now,
                keep,
            ) by {
                assert(actors.contains(a));
            }
        }
    }
    let t = history_swept(s, now, keep);
    if actors.len() == 0 && pgs.len() == 0 && agents.len() == 0 {
        assert(!actors.contains(k) && !pgs.contains(k) && !agents.contains(k));
        if s.refs.contains_key(k) && s.refs[k].actor is Some {
            assert(!actors.contains(s.refs[k].actor->0));
        }
    } else {
        assert(actors.to_set().contains(k) == actors.contains(k));
        assert(pgs.to_set().contains(k) == pgs.contains(k));
        assert(agents.to_set().contains(k) == agents.contains(k));
        if s.refs.contains_key(k) && s.refs[k].actor is Some {
            let a = s.refs[k].actor->0;
            assert(actors.to_set().contains(a) == actors.contains(a));
        }
    }
}

} // verus!
