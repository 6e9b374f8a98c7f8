//! What an agent that registers brings, keeps and loses; and what drivers see of nodes.

use vstd::prelude::*;
use vstd::string::*;

use crate::common::dict::{lemma_those, ordered};
use crate::common::text::texts;
use crate::daemon::actors::{fan_out, marked};
use crate::daemon::agents::{
    adopted, adoptee, adoptees, advised, agent_enrolled, drain_frames, drained, enrolled,
    kill_frames, let_in, lost_failed, missing_actors, pending_refs, refs_adopted, rejected,
    rejects, resume_views, resumed_ids, welcome_frames, with_actors, Arrival, DrainV, Register,
    ToAgentV,
};
use crate::daemon::call_laws::lemma_drain_frames;
use crate::daemon::calls::{called, next, CallV};
use crate::daemon::end_laws::{alive, law_deaths_end_each_actor};
use crate::daemon::ident::agent_node_of;
use crate::daemon::laws::law_placing_touches_groups_only;
use crate::daemon::place::{pending_of, placed, placed_all};
use crate::daemon::proto::ResumeV;
use crate::daemon::state::{ActorStateV, ActorV, QueuedCallV, RefStateV, StateV};
use crate::daemon::sweep::all_died;
use crate::daemon::sweep_laws::lemma_listed;

verus! {

// ---------------------------------------------------------------------------
// Registering
// ---------------------------------------------------------------------------
proof fn lemma_refs_adopted(s: StateV, rids: Seq<Seq<char>>, agent: Seq<char>, now: u64)
    ensures
        ({
            let t = refs_adopted(s, rids, agent, now);
            &&& t.actors == s.actors && t.agents == s.agents && t.pgs == s.pgs && t.clients
                == s.clients
            &&& forall|k: Seq<char>| #[trigger]
                s.refs.contains_key(k) ==> t.refs.contains_key(k) && t.refs[k] == s.refs[k]
            &&& forall|k: Seq<char>| #[trigger]
                t.refs.contains_key(k) && !s.refs.contains_key(k) ==> rids.contains(k)
                    && t.refs[k].state is Pending
        }),
    decreases rids.len(),
{
    if rids.len() > 0 {
        let init = rids.drop_last();
        lemma_refs_adopted(s, init, agent, now);
        assert(rids[rids.len() - 1] == rids.last());
        let t = refs_adopted(s, rids, agent, now);
        let u = refs_adopted(s, init, agent, now);
        assert forall|k: Seq<char>| #[trigger]
            t.refs.contains_key(k) && !s.refs.contains_key(k) implies rids.contains(k)
            && t.refs[k].state is Pending by {
            if u.refs.contains_key(k) {
                assert(init.contains(k));
                assert(rids[init.index_of(k)] == k);
            }
        }
    }
}

proof fn lemma_with_actors(
    s: StateV,
    resume: Seq<ResumeV>,
    group: Seq<char>,
    agent: Seq<char>,
    node: Seq<char>,
    m: Map<Seq<char>, ActorV>,
)
    ensures
        ({
            let r = with_actors(m, adoptees(s, resume, group, agent, node));
            &&& forall|k: Seq<char>| #[trigger]
                s.actors.contains_key(k) ==> r.contains_key(k) == m.contains_key(k) && r[k] == m[k]
            &&& forall|k: Seq<char>| #[trigger]
                r.contains_key(k) ==> m.contains_key(k) || resumed_ids(resume).contains(k)
            &&& forall|k: Seq<char>|
                !s.actors.contains_key(k) && #[trigger] resumed_ids(resume).contains(k)
                    ==> r.contains_key(k) && exists|i: int|
                    0 <= i < resume.len() && (#[trigger] resume[i]).actor_id == k && r[k] == adoptee(
                        resume[i],
                        group,
                        agent,
                        node,
                    )
        }),
    decreases resume.len(),
{
    if resume.len() > 0 {
        let init = resume.drop_last();
        let last = resume.last();
        assert(resume[resume.len() - 1] == last);
        lemma_with_actors(s, init, group, agent, node, m);
        let had = adoptees(s, init, group, agent, node);
        let r = with_actors(m, adoptees(s, resume, group, agent, node));
        let q = with_actors(m, had);
        if !s.actors.contains_key(last.actor_id) {
            assert(had.push(adoptee(last, group, agent, node)).drop_last() =~= had);
        }
        let ids = resumed_ids(resume);
        let was = resumed_ids(init);
        assert forall|k: Seq<char>| ids.contains(k) == (was.contains(k) || k == last.actor_id) by {
            if ids.contains(k) {
                let i = ids.index_of(k);
                if i < was.len() {
                    assert(was[i] == k);
                }
            }
            if was.contains(k) {
                assert(ids[was.index_of(k)] == k);
            }
            assert(ids[resume.len() - 1] == last.actor_id);
        }
        assert forall|k: Seq<char>|
            !s.actors.contains_key(k) && #[trigger] ids.contains(k) implies r.contains_key(k)
            && exists|i: int|
            0 <= i < resume.len() && (#[trigger] resume[i]).actor_id == k && r[k] == adoptee(
                resume[i],
                group,
                agent,
                node,
            ) by {
            if k == last.actor_id {
                assert(r[k] == adoptee(resume[resume.len() - 1], group, agent, node));
            } else {
                assert(was.contains(k));
                let i = choose|i: int|
                    0 <= i < init.len() && (#[trigger] init[i]).actor_id == k && q[k] == adoptee(
                        init[i],
                        group,
                        agent,
                        node,
                    );
                assert(resume[i] == init[i]);
            }
        }
    } else {
        assert(resumed_ids(resume) =~= Seq::empty());
    }
}

/// Whether an agent reports that it still runs an actor.
pub open spec fn brings(reg: Register, k: Seq<char>) -> bool {
    exists|i: int| 0 <= i < reg.resume@.len() && (#[trigger] reg.resume@[i]).actor_id@ == k
}

proof fn lemma_brings(reg: Register, k: Seq<char>)
    ensures
        resumed_ids(resume_views(reg.resume@)).contains(k) == brings(reg, k),
{
    let ids = resumed_ids(resume_views(reg.resume@));
    if ids.contains(k) {
        let i = ids.index_of(k);
        assert(reg.resume@[i].actor_id@ == k);
    }
    if brings(reg, k) {
        let i = choose|i: int| 0 <= i < reg.resume@.len() && (#[trigger] reg.resume@[i]).actor_id@ == k;
        assert(ids[i] == k);
    }
}

/// An agent that registers is alive from then on, with what it said of itself, after
/// every agent that registered before it. No other agent changes.
pub proof fn law_a_registered_agent_is_alive(
    s: StateV,
    reg: Register,
    from: Arrival,
    now: u64,
    by_island: bool,
)
    requires
        s.actors.dom().finite(),
    ensures
        ({
            let (t, r) = let_in(s, reg, from, now, by_island);
            let a = t.agents[reg.agent_id@];
            &&& t.agents.contains_key(reg.agent_id@)
            &&& a.id == reg.agent_id@ && a.group == reg.group@ && a.machine
                == reg.machine.deep_view() && a.container == reg.container@ && a.pid == reg.pid
                && a.services == reg.services.deep_view()
            &&& a.alive && a.lost_at_ms is None && !a.degraded && a.gone_since_ms is None
            &&& a.link == from.link
            &&& a.seq == s.next_seq
            &&& s.next_seq < u64::MAX ==> t.next_seq == s.next_seq + 1
            &&& reg.node_ip@.len() > 0 ==> a.node_ip == reg.node_ip@
            &&& forall|k: Seq<char>|
                k != reg.agent_id@ ==> (#[trigger] t.agents.contains_key(k)
                    == s.agents.contains_key(k))
            &&& forall|k: Seq<char>|
                k != reg.agent_id@ && s.agents.contains_key(k) ==> #[trigger] t.agents[k]
                    == s.agents[k]
            &&& s.agents.contains_key(reg.agent_id@) ==> r.replaced == Some(
                s.agents[reg.agent_id@].link,
            )
            &&& !s.agents.contains_key(reg.agent_id@) ==> r.replaced is None
        }),
{
    lemma_steps(s, reg, from, now, by_island);
}

/// What is left of the actors and agents after each step of a registration.
proof fn lemma_steps(s: StateV, reg: Register, from: Arrival, now: u64, by_island: bool)
    requires
        s.actors.dom().finite(),
    ensures
        ({
            let id = reg.agent_id@;
            let t = let_in(s, reg, from, now, by_island).0;
            let row = agent_enrolled(
                s,
                id,
                reg.group@,
                agent_node_of(s, reg.node_ip@, from.peer_ip@, texts(from.mine@)),
                reg.machine.deep_view(),
                reg.container@,
                reg.pid,
                reg.services.deep_view(),
                from.link,
            );
            &&& t.agents == s.agents.insert(id, row)
            &&& t.next_seq == next(s.next_seq)
            &&& forall|k: Seq<char>| #[trigger]
                s.actors.contains_key(k) ==> {
                    let a = s.actors[k];
                    let b = t.actors[k];
                    let lost = a.agent == id && !(a.state is Dead) && !brings(reg, k);
                    &&& t.actors.contains_key(k)
                    &&& b.gpu_ids == a.gpu_ids && b.agent == a.agent && b.owner == a.owner && b.name
                        == a.name
                    &&& lost ==> b.state is Dead
                    &&& !lost ==> b.state == a.state
                    &&& !lost && a.agent != id ==> b == a
                }
            &&& forall|k: Seq<char>| #[trigger]
                t.actors.contains_key(k) && !s.actors.contains_key(k) ==> brings(reg, k)
            &&& forall|k: Seq<char>|
                !s.actors.contains_key(k) && #[trigger] brings(reg, k) ==> {
                    &&& t.actors.contains_key(k)
                    &&& t.actors[k].state is Running
                    &&& t.actors[k].agent == id
                    &&& t.actors[k].group == reg.group@
                    &&& t.actors[k].node_id == row.node_id
                    &&& exists|i: int|
                        {
                            &&& 0 <= i < reg.resume@.len()
                            &&& (#[trigger] reg.resume@[i]).actor_id@ == k
                            &&& t.actors[k].gpu_ids == reg.resume@[i].gpu_ids@
                            &&& t.actors[k].owner == reg.resume@[i].owner@
                            &&& t.actors[k].name == reg.resume@[i].name@
                        }
                }
        }),
{
    let id = reg.agent_id@;
    let group = reg.group@;
    let resume = resume_views(reg.resume@);
    let node = agent_node_of(s, reg.node_ip@, from.peer_ip@, texts(from.mine@));
    let s1 = advised(s, reg, from);
    let row = agent_enrolled(
        s1,
        id,
        group,
        node,
        reg.machine.deep_view(),
        reg.container@,
        reg.pid,
        reg.services.deep_view(),
        from.link,
    );
    let a = enrolled(s1, row);
    lemma_with_actors(a, resume, group, id, node.1, a.actors);
    let v = adoptees(a, resume, group, id, node.1);
    let b = adopted(a, v, group, id);
    assert(b.actors == with_actors(a.actors, v));
    lemma_finite_with(a.actors, v);
    let reported = pending_refs(resume) + texts(reg.unacked_refs@);
    lemma_refs_adopted(b, reported, id, now);
    let c = refs_adopted(b, reported, id, now);
    let ids = resumed_ids(resume);
    lemma_listed(
        c.actors,
        |k: Seq<char>|
            c.actors[k].agent == id && !(c.actors[k].state is Dead) && !ids.contains(k),
    );
    let lost = missing_actors(c, id, ids);
    assert forall|i: int| 0 <= i < lost.len() implies alive(c, #[trigger] lost[i]) by {
        assert(lost.contains(lost[i]));
    }
    let why = "agent reconnected without this actor"@;
    law_deaths_end_each_actor(c, lost, why, now, by_island);
    let d = all_died(c, lost, why, now, by_island);
    let e = lost_failed(d, id, reported);
    let f = drained(e, id);
    law_placing_touches_groups_only(f, by_island);
    let t = let_in(s, reg, from, now, by_island).0;
    assert(t.actors == f.actors);
    lemma_next_seq(f, by_island);
    lemma_next_seq_died(c, lost, why, now, by_island);
    lemma_next_seq_refs(b, reported, id, now);
    assert forall|k: Seq<char>| ids.contains(k) == brings(reg, k) by {
        lemma_brings(reg, k);
    }
    assert forall|k: Seq<char>| #[trigger] s.actors.contains_key(k) implies {
        let x = s.actors[k];
        let y = t.actors[k];
        let gone = x.agent == id && !(x.state is Dead) && !brings(reg, k);
        &&& t.actors.contains_key(k)
        &&& y.gpu_ids == x.gpu_ids && y.agent == x.agent && y.owner == x.owner && y.name == x.name
        &&& gone ==> y.state is Dead
        &&& !gone ==> y.state == x.state
        &&& !gone && x.agent != id ==> y == x
    } by {
        assert(c.actors.contains_key(k) && c.actors[k] == s.actors[k]);
        assert(d.actors.dom().contains(k));
        assert(lost.contains(k) <==> s.actors[k].agent == id && !(s.actors[k].state is Dead)
            && !ids.contains(k));
    }
    assert forall|k: Seq<char>| #[trigger]
        t.actors.contains_key(k) && !s.actors.contains_key(k) implies brings(reg, k) by {
        assert(d.actors.dom().contains(k));
        assert(c.actors.dom().contains(k));
        assert(c.actors.contains_key(k));
    }
    assert forall|k: Seq<char>| !s.actors.contains_key(k) && #[trigger] brings(reg, k) implies {
        &&& t.actors.contains_key(k)
        &&& t.actors[k].state is Running
        &&& t.actors[k].agent == id
        &&& t.actors[k].group == reg.group@
        &&& t.actors[k].node_id == row.node_id
        &&& exists|i: int|
            {
                &&& 0 <= i < reg.resume@.len()
                &&& (#[trigger] reg.resume@[i]).actor_id@ == k
                &&& t.actors[k].gpu_ids == reg.resume@[i].gpu_ids@
                &&& t.actors[k].owner == reg.resume@[i].owner@
                &&& t.actors[k].name == reg.resume@[i].name@
            }
    } by {
        assert(ids.contains(k));
        assert(!a.actors.contains_key(k));
        assert(c.actors.contains_key(k));
        let i = choose|i: int|
            0 <= i < resume.len() && (#[trigger] resume[i]).actor_id == k && c.actors[k] == adoptee(
                resume[i],
                group,
                id,
                node.1,
            );
        assert(reg.resume@[i].deep_view() == resume[i]);
        assert(reg.resume@[i].actor_id@ == k);
        assert(!lost.contains(k));
        assert(d.actors.dom().contains(k));
    }
}

proof fn lemma_finite_with(m: Map<Seq<char>, ActorV>, v: Seq<ActorV>)
    requires
        m.dom().finite(),
    ensures
        with_actors(m, v).dom().finite(),
    decreases v.len(),
{
    if v.len() > 0 {
        lemma_finite_with(m, v.drop_last());
        assert(with_actors(m, v).dom() =~= with_actors(m, v.drop_last()).dom().insert(v.last().id));
    }
}

proof fn lemma_next_seq(s: StateV, by_island: bool)
    ensures
        placed(s, by_island).next_seq == s.next_seq,
{
    lemma_next_seq_all(
        s,
        pending_of(s, ordered(s.pgs.dom())),
        by_island,
    );
}

proof fn lemma_next_seq_all(s: StateV, ids: Seq<Seq<char>>, by_island: bool)
    ensures
        placed_all(s, ids, by_island).next_seq == s.next_seq,
    decreases ids.len(),
{
    if ids.len() > 0 {
        lemma_next_seq_all(s, ids.drop_last(), by_island);
    }
}

proof fn lemma_next_seq_died(
    s: StateV,
    ids: Seq<Seq<char>>,
    why: Seq<char>,
    now: u64,
    by_island: bool,
)
    ensures
        all_died(s, ids, why, now, by_island).next_seq == s.next_seq,
    decreases ids.len(),
{
    if ids.len() > 0 {
        lemma_next_seq_died(s, ids.drop_last(), why, now, by_island);
        let t = all_died(s, ids.drop_last(), why, now, by_island);
        let m = marked(t, ids.last(), why, now);
        lemma_next_seq(
            StateV { refs: fan_out(m.refs, ids.last(), why), ..m },
            by_island,
        );
    }
}

proof fn lemma_next_seq_refs(s: StateV, rids: Seq<Seq<char>>, agent: Seq<char>, now: u64)
    ensures
        refs_adopted(s, rids, agent, now).next_seq == s.next_seq,
    decreases rids.len(),
{
    if rids.len() > 0 {
        lemma_next_seq_refs(s, rids.drop_last(), agent, now);
    }
}

/// What an agent brings is authoritative for its actors: a live one of its that it does
/// not bring is dead, one that it brings lives on, one that nobody knows here is taken
/// over as it is told, and the actors of other agents are untouched.
pub proof fn law_an_agent_says_which_actors_live(
    s: StateV,
    reg: Register,
    from: Arrival,
    now: u64,
    by_island: bool,
    k: Seq<char>,
)
    requires
        s.actors.dom().finite(),
    ensures
        ({
            let t = let_in(s, reg, from, now, by_island).0;
            let a = s.actors[k];
            &&& s.actors.contains_key(k) ==> t.actors.contains_key(k) && t.actors[k].agent
                == a.agent && t.actors[k].gpu_ids == a.gpu_ids
            &&& s.actors.contains_key(k) && a.agent == reg.agent_id@ && !(a.state is Dead)
                && !brings(reg, k) ==> t.actors[k].state is Dead
            &&& s.actors.contains_key(k) && brings(reg, k) ==> t.actors[k].state == a.state
            &&& s.actors.contains_key(k) && a.agent != reg.agent_id@ ==> t.actors[k] == a
            &&& !s.actors.contains_key(k) && !brings(reg, k) ==> !t.actors.contains_key(k)
            &&& !s.actors.contains_key(k) && brings(reg, k) ==> {
                &&& t.actors.contains_key(k)
                &&& t.actors[k].state is Running
                &&& t.actors[k].agent == reg.agent_id@
                &&& t.actors[k].group == reg.group@
                &&& exists|i: int|
                    {
                        &&& 0 <= i < reg.resume@.len()
                        &&& (#[trigger] reg.resume@[i]).actor_id@ == k
                        &&& t.actors[k].gpu_ids == reg.resume@[i].gpu_ids@
                        &&& t.actors[k].owner == reg.resume@[i].owner@
                        &&& t.actors[k].name == reg.resume@[i].name@
                    }
            }
        }),
{
    lemma_steps(s, reg, from, now, by_island);
}

/// An agent is told to end exactly those of the actors it brings that are known here and
/// dead, or whose driver is gone.
pub proof fn law_an_agent_ends_what_is_dead_or_driverless(
    s: StateV,
    reg: Register,
    from: Arrival,
    now: u64,
    by_island: bool,
    k: Seq<char>,
)
    ensures
        let_in(s, reg, from, now, by_island).1.frames.contains(ToAgentV::Kill { actor_id: k })
            <==> {
            &&& brings(reg, k)
            &&& s.actors.contains_key(k)
            &&& s.actors[k].state is Dead || !s.clients.contains_key(s.actors[k].owner)
        },
{
    let id = reg.agent_id@;
    let resume = resume_views(reg.resume@);
    let node = agent_node_of(s, reg.node_ip@, from.peer_ip@, texts(from.mine@));
    let s1 = advised(s, reg, from);
    let a = enrolled(
        s1,
        agent_enrolled(
            s1,
            id,
            reg.group@,
            node,
            reg.machine.deep_view(),
            reg.container@,
            reg.pid,
            reg.services.deep_view(),
            from.link,
        ),
    );
    let kills = rejects(a, resume);
    lemma_brings(reg, k);
    lemma_those(resumed_ids(resume), |k: Seq<char>| rejected(a, k));
    assert(kills.contains(k) <==> brings(reg, k) && rejected(a, k));
    let frames = let_in(s, reg, from, now, by_island).1.frames;
    let drains = choose|d: Seq<DrainV>|
        frames == #[trigger] welcome_frames(node.1, kills, d);
    let kf = kill_frames(kills);
    let df = drain_frames(drains);
    lemma_drain_frames(drains);
    let x = ToAgentV::Kill { actor_id: k };
    if frames.contains(x) {
        let i = frames.index_of(x);
        if i > kf.len() {
            assert(frames[i] == df[i - 1 - kf.len()]);
        } else {
            assert(frames[i] == kf[i - 1]);
            assert(kills[i - 1] == k);
        }
    }
    if kills.contains(k) {
        let i = kills.index_of(k);
        assert(kf[i] == x);
        assert(frames[i + 1] == x);
    }
}

// ---------------------------------------------------------------------------
// Calls
// ---------------------------------------------------------------------------
/// A call of an actor that is alive waits for its result: it is sent over its agent's
/// link, or held behind the calls before it while the link is down. A call of a dead
/// actor fails at once with the reason, and one of no actor is refused. Every call that
/// is taken is its client's.
pub proof fn law_a_call_is_sent_held_or_failed(
    s: StateV,
    client: Seq<char>,
    actor: Seq<char>,
    method: Seq<char>,
    payload: Seq<u8>,
    now: u64,
)
    ensures
        ({
            let (t, r) = called(s, client, actor, method, payload, now);
            let a = s.actors[actor];
            let agent = s.agents[a.agent];
            let there = s.agents.contains_key(a.agent);
            &&& !s.actors.contains_key(actor) <==> r is NoActor
            &&& r is NoActor ==> t.refs == s.refs && t.actors == s.actors
            &&& r matches CallV::Send { ref_id, link } ==> {
                &&& alive(s, actor) && there && agent.alive && link == agent.link
                &&& t.refs.contains_key(ref_id) && t.refs[ref_id].state is Pending
                    && t.refs[ref_id].actor == Some(actor) && t.refs[ref_id].owner == client
                    && t.refs[ref_id].method == method && t.refs[ref_id].created_ms == now
                &&& t.actors == s.actors
            }
            &&& alive(s, actor) && there && agent.alive ==> r is Send
            &&& alive(s, actor) && there && !agent.alive ==> {
                &&& r is Recorded
                &&& t.refs[r->Recorded_ref_id].state is Pending
                &&& t.refs[r->Recorded_ref_id].actor == Some(actor)
                &&& t.refs[r->Recorded_ref_id].owner == client
                &&& t.actors[actor].queued_calls == a.queued_calls.push(
                    QueuedCallV { ref_id: r->Recorded_ref_id, method, payload },
                )
            }
            &&& s.actors.contains_key(actor) && (a.state matches ActorStateV::Dead { reason, .. }
                && true) ==> {
                &&& r is Recorded
                &&& t.refs[r->Recorded_ref_id].state == (RefStateV::ActorDied {
                    reason: a.state->Dead_reason,
                })
                &&& t.actors == s.actors
            }
            &&& alive(s, actor) && !there ==> r is Recorded
                && t.refs[r->Recorded_ref_id].state is ActorDied
            &&& s.counters.calls_total < u64::MAX ==> t.counters.calls_total
                == s.counters.calls_total + 1
            &&& t.agents == s.agents && t.pgs == s.pgs && t.clients == s.clients
        }),
{
}

} // verus!
