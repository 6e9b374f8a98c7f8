//! An agent goes by the id in its row, whatever happens to it.

use vstd::prelude::*;

use crate::common::dict::{ordered, those};
use crate::common::text::texts;
use crate::daemon::actors::{died, fan_out, marked};
use crate::daemon::agents::{
    adopted, adoptees, advised, agent_enrolled, drained, enrolled, let_in, link_gone, lost_failed,
    missing_actors, note_told, pending_refs, refs_adopted, resume_views, resumed_ids, Arrival,
    Register,
};
use crate::daemon::entry::fresh_state;
use crate::daemon::ident::agent_node_of;
use crate::daemon::laws::law_placing_touches_groups_only;
use crate::daemon::moved::moved_away;
use crate::daemon::state::StateV;
use crate::daemon::sweep::{
    actors_on, aged_agents, agents_aged, all_died, all_given_up, degrades, down, gave_up, given_up,
    overdue_pgs, pgs_expired, swept, told_degraded, warned_refs, Limits,
};

verus! {

/// Whether each agent goes by the id in its row.
pub open spec fn agents_named(s: StateV) -> bool {
    forall|k: Seq<char>| #[trigger] s.agents.contains_key(k) ==> s.agents[k].id == k
}

proof fn lemma_all_died(
    s: StateV,
    ids: Seq<Seq<char>>,
    reason: Seq<char>,
    now: u64,
    by_island: bool,
)
    ensures
        all_died(s, ids, reason, now, by_island).agents == s.agents,
    decreases ids.len(),
{
    if ids.len() > 0 {
        lemma_all_died(s, ids.drop_last(), reason, now, by_island);
        let t = all_died(s, ids.drop_last(), reason, now, by_island);
        let m = marked(t, ids.last(), reason, now);
        law_placing_touches_groups_only(
            StateV { refs: fan_out(m.refs, ids.last(), reason), ..m },
            by_island,
        );
        assert(died(t, ids.last(), reason, now, by_island).agents == t.agents);
    }
}

proof fn lemma_refs_adopted(s: StateV, rids: Seq<Seq<char>>, agent: Seq<char>, now: u64)
    ensures
        refs_adopted(s, rids, agent, now).agents == s.agents,
    decreases rids.len(),
{
    if rids.len() > 0 {
        lemma_refs_adopted(s, rids.drop_last(), agent, now);
    }
}

proof fn lemma_pgs_expired(s: StateV, ids: Seq<Seq<char>>, now: u64)
    ensures
        pgs_expired(s, ids, now).agents == s.agents,
    decreases ids.len(),
{
    if ids.len() > 0 {
        lemma_pgs_expired(s, ids.drop_last(), now);
    }
}

proof fn lemma_told_degraded(s: StateV, was: StateV, ids: Seq<Seq<char>>, now: u64)
    ensures
        told_degraded(s, was, ids, now).agents == s.agents,
    decreases ids.len(),
{
    if ids.len() > 0 {
        lemma_told_degraded(s, was, ids.drop_last(), now);
    }
}

proof fn lemma_all_given_up(
    s: StateV,
    was: StateV,
    ids: Seq<Seq<char>>,
    now: u64,
    by_island: bool,
)
    ensures
        all_given_up(s, was, ids, now, by_island).agents == s.agents,
    decreases ids.len(),
{
    if ids.len() > 0 {
        lemma_all_given_up(s, was, ids.drop_last(), now, by_island);
        let t = all_given_up(s, was, ids.drop_last(), now, by_island);
        let id = ids.last();
        let ms = down(was.agents[id], now);
        let orphaned = actors_on(t, id);
        let u = gave_up(t, id, ms, now, by_island);
        assert(u.agents == t.agents) by {
            assert forall|v: StateV, why: Seq<char>| #[trigger]
                all_died(v, orphaned, why, now, by_island).agents == v.agents by {
                lemma_all_died(v, orphaned, why, now, by_island);
            }
        }
    }
}

/// A daemon starts with no agent. One that registers is filed under its id.
pub proof fn law_an_agent_is_filed_under_its_id(
    s: StateV,
    reg: Register,
    from: Arrival,
    now: u64,
    by_island: bool,
    node_ip: Seq<char>,
    hostname: Seq<char>,
    control: Seq<char>,
    http_port: u16,
)
    ensures
        agents_named(fresh_state(node_ip, hostname, control, http_port)),
        agents_named(s) ==> agents_named(let_in(s, reg, from, now, by_island).0),
        let_in(s, reg, from, now, by_island).0.agents.dom() == s.agents.dom().insert(reg.agent_id@),
{
    let id = reg.agent_id@;
    let group = reg.group@;
    let resume = resume_views(reg.resume@);
    let node = agent_node_of(s, reg.node_ip@, from.peer_ip@, texts(from.mine@));
    let s1 = advised(s, reg, from);
    let row = agent_enrolled(
        s1,
        id,
        group,
        node,
        reg.machine.deep_view(),
        reg.container@,
        reg.pid,
        reg.services.deep_view(),
        from.link,
    );
    let a = enrolled(s1, row);
    assert(a.agents == s.agents.insert(id, row));
    let b = adopted(a, adoptees(a, resume, group, id, node.1), group, id);
    let reported = pending_refs(resume) + texts(reg.unacked_refs@);
    lemma_refs_adopted(b, reported, id, now);
    let c = refs_adopted(b, reported, id, now);
    let lost = missing_actors(c, id, resumed_ids(resume));
    let why = "agent reconnected without this actor"@;
    lemma_all_died(c, lost, why, now, by_island);
    let d = all_died(c, lost, why, now, by_island);
    let e = lost_failed(d, id, reported);
    law_placing_touches_groups_only(drained(e, id), by_island);
    assert(let_in(s, reg, from, now, by_island).0.agents == a.agents);
    assert(a.agents.dom() =~= s.agents.dom().insert(id));
}

/// What befalls an agent leaves it under its id: a lost link, a note on one of its
/// services, the lifecycle sweep, and a head that moves away.
pub proof fn law_an_agent_stays_under_its_id(
    s: StateV,
    agent: Seq<char>,
    link: u64,
    service: Seq<char>,
    note: Seq<char>,
    now: u64,
    dead_after_ms: u64,
    limits: Limits,
)
    requires
        agents_named(s),
    ensures
        agents_named(link_gone(s, agent, link, now, dead_after_ms)),
        agents_named(note_told(s, agent, service, note)),
        agents_named(swept(s, now, limits)),
        agents_named(moved_away(s, now)),
{
    let a = StateV { refs: warned_refs(s.refs, now, limits.slow_call_warn_ms), ..s };
    let overdue = overdue_pgs(a, now, limits.pg_pending_timeout_ms);
    lemma_pgs_expired(a, overdue, now);
    let b = pgs_expired(a, overdue, now);
    let t = StateV {
        agents: aged_agents(
            b.agents,
            now,
            limits.agent_degraded_after_ms,
            limits.agent_dead_after_ms,
        ),
        ..b
    };
    let worse = those(
        ordered(b.agents.dom()),
        |k: Seq<char>|
            degrades(
                b.agents[k],
                now,
                limits.agent_degraded_after_ms,
                limits.agent_dead_after_ms,
            ),
    );
    let lost = those(
        ordered(b.agents.dom()),
        |k: Seq<char>| given_up(b.agents[k], now, limits.agent_dead_after_ms),
    );
    lemma_told_degraded(t, b, worse, now);
    lemma_all_given_up(told_degraded(t, b, worse, now), b, lost, now, limits.island_placement);
    let c = agents_aged(b, now, limits);
    assert(c.agents == t.agents);
    assert(agents_named(t));
    assert(agents_named(c));
    let d = swept(s, now, limits);
    assert forall|k: Seq<char>| #[trigger] d.agents.contains_key(k) implies d.agents[k].id == k by {
        assert(c.agents.contains_key(k));
        assert(d.agents[k] == c.agents[k]);
    }
}

} // verus!
