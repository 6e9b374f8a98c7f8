//! What holds of calls: their numbers, and the order in which held ones are
//! sent.

use vstd::prelude::*;

use crate::common::dict::{lemma_finite_lists, lemma_those, ordered, those};
use crate::common::text::{
    decimal, digit, lemma_decimal_reads_back, lemma_last_at_is, split_last, texts, unsigned,
};
use crate::daemon::actors::{died, fan_out, marked};
use crate::daemon::agents::{
    adopted, adoptees, advised, agent_enrolled, call_frames, drain_frames, drained, drains,
    enrolled, held_calls, kill_frames, let_in, lost_failed, missing_actors, pending_refs,
    ref_adopted, refs_adopted, resume_views, resumed_ids, welcome_frames, Arrival, DrainV,
    Register,
};
use crate::daemon::calls::{called, ref_name};
use crate::daemon::ident::agent_node_of;
use crate::daemon::laws::law_placing_touches_groups_only;
use crate::daemon::state::{QueuedCallV, StateV};
use crate::daemon::sweep::all_died;

verus! {

// ---------------------------------------------------------------------------
// Numbers
// ---------------------------------------------------------------------------
/// The number of a call, as its ref's id ends with it.
pub open spec fn call_number(rid: Seq<char>) -> Option<nat> {
    match split_last(rid, ':') {
        Some((_, n)) => unsigned(n),
        None => None,
    }
}

/// Whether the count is past the number of every call there is.
pub open spec fn calls_counted(s: StateV) -> bool {
    forall|k: Seq<char>|
        #![trigger s.refs.contains_key(k)]
        s.refs.contains_key(k) && call_number(k) is Some && call_number(k)->Some_0 <= u64::MAX
            ==> call_number(k)->Some_0 < s.next_ref
}

/// The id of a call's ref ends with its number.
proof fn lemma_ref_name(actor: Seq<char>, n: u64)
    ensures
        split_last(ref_name(actor, n), ':') == Some((actor, decimal(n as nat))),
        call_number(ref_name(actor, n)) == Some(n as nat),
{
    let s = ref_name(actor, n);
    let d = decimal(n as nat);
    reveal_strlit(":");
    lemma_decimal_reads_back(n as nat);
    assert forall|j: int| actor.len() < j < s.len() implies s[j] != ':' by {
        assert(s[j] == d[j - actor.len() - 1]);
        assert(digit(d[j - actor.len() - 1]));
    }
    lemma_last_at_is(s, ':', actor.len() as int);
    assert(s.take(actor.len() as int) =~= actor);
    assert(s.skip((actor.len() + 1) as int) =~= d);
    assert(digit(d[0]));
}

/// A new call takes an id that no call has, of whatever actor it is, and the
/// count stays past every call.
pub proof fn law_a_new_call_takes_an_unused_id(
    s: StateV,
    client: Seq<char>,
    actor: Seq<char>,
    method: Seq<char>,
    payload: Seq<u8>,
    now: u64,
)
    requires
        calls_counted(s),
        s.next_ref < u64::MAX,
    ensures
        !s.refs.contains_key(ref_name(actor, s.next_ref)),
        calls_counted(called(s, client, actor, method, payload, now).0),
{
    lemma_ref_name(actor, s.next_ref);
}

/// A call that is taken over moves the count past its number, so that no new
/// call is handed the id of one still running.
pub proof fn law_a_call_taken_over_is_counted(
    s: StateV,
    rid: Seq<char>,
    agent: Seq<char>,
    now: u64,
)
    requires
        calls_counted(s),
        call_number(rid) != Some(u64::MAX as nat),
    ensures
        calls_counted(ref_adopted(s, rid, agent, now)),
        ref_adopted(s, rid, agent, now).next_ref >= s.next_ref,
{
}

proof fn lemma_refs_counted(s: StateV, rids: Seq<Seq<char>>, agent: Seq<char>, now: u64)
    requires
        calls_counted(s),
        forall|i: int| 0 <= i < rids.len() ==> call_number(#[trigger] rids[i]) != Some(
            u64::MAX as nat,
        ),
    ensures
        calls_counted(refs_adopted(s, rids, agent, now)),
    decreases rids.len(),
{
    if rids.len() > 0 {
        let init = rids.drop_last();
        assert forall|i: int| 0 <= i < init.len() implies call_number(#[trigger] init[i]) != Some(
            u64::MAX as nat,
        ) by {
            assert(init[i] == rids[i]);
        }
        lemma_refs_counted(s, init, agent, now);
        assert(rids[rids.len() - 1] == rids.last());
        law_a_call_taken_over_is_counted(
            refs_adopted(s, init, agent, now),
            rids.last(),
            agent,
            now,
        );
    }
}

proof fn lemma_deaths_keep_calls(
    s: StateV,
    ids: Seq<Seq<char>>,
    reason: Seq<char>,
    now: u64,
    by_island: bool,
)
    ensures
        ({
            let t = all_died(s, ids, reason, now, by_island);
            t.refs.dom() == s.refs.dom() && t.next_ref == s.next_ref
        }),
    decreases ids.len(),
{
    if ids.len() > 0 {
        lemma_deaths_keep_calls(s, ids.drop_last(), reason, now, by_island);
        let t = all_died(s, ids.drop_last(), reason, now, by_island);
        let id = ids.last();
        let m = marked(t, id, reason, now);
        let f = StateV { refs: fan_out(m.refs, id, reason), ..m };
        law_placing_touches_groups_only(f, by_island);
        assert(f.refs.dom() =~= t.refs.dom());
        assert(died(t, id, reason, now, by_island).refs.dom() == t.refs.dom());
    }
}

/// An agent that registers leaves the count past every call, those it brings
/// among them.
pub proof fn law_registering_keeps_calls_counted(
    s: StateV,
    reg: Register,
    from: Arrival,
    now: u64,
    by_island: bool,
)
    requires
        calls_counted(s),
        forall|i: int|
            0 <= i < (pending_refs(resume_views(reg.resume@)) + texts(reg.unacked_refs@)).len()
                ==> call_number(
                #[trigger] (pending_refs(resume_views(reg.resume@)) + texts(reg.unacked_refs@))[i],
            ) != Some(u64::MAX as nat),
    ensures
        calls_counted(let_in(s, reg, from, now, by_island).0),
{
    let id = reg.agent_id@;
    let group = reg.group@;
    let resume = resume_views(reg.resume@);
    let node = agent_node_of(s, reg.node_ip@, from.peer_ip@, texts(from.mine@));
    let s1 = advised(s, reg, from);
    let row = agent_enrolled(
        s1,
        id,
        group,
        node,
        reg.machine.deep_view(),
        reg.container@,
        reg.pid,
        reg.services.deep_view(),
        from.link,
    );
    let a = enrolled(s1, row);
    let b = adopted(a, adoptees(a, resume, group, id, node.1), group, id);
    let reported = pending_refs(resume) + texts(reg.unacked_refs@);
    lemma_refs_counted(b, reported, id, now);
    let c = refs_adopted(b, reported, id, now);
    let lost = missing_actors(c, id, resumed_ids(resume));
    let why = "agent reconnected without this actor"@;
    lemma_deaths_keep_calls(c, lost, why, now, by_island);
    let d = all_died(c, lost, why, now, by_island);
    assert forall|k: Seq<char>| #[trigger] d.refs.contains_key(k) implies c.refs.contains_key(k) by {
        assert(d.refs.dom().contains(k));
    }
    assert(calls_counted(d));
    let e = lost_failed(d, id, reported);
    assert forall|k: Seq<char>| #[trigger] e.refs.contains_key(k) implies d.refs.contains_key(k) by {
    }
    assert(calls_counted(e));
    law_placing_touches_groups_only(drained(e, id), by_island);
}

// ---------------------------------------------------------------------------
// Held calls
// ---------------------------------------------------------------------------
/// Calls of an actor whose agent's link is down are held, and handed out in
/// the order they came in when the agent registers again; none is handed out
/// twice.
pub proof fn law_held_calls_keep_their_order(
    s: StateV,
    actor: Seq<char>,
    one: (Seq<char>, Seq<char>, Seq<u8>, u64),
    two: (Seq<char>, Seq<char>, Seq<u8>, u64),
)
    requires
        s.actors.contains_key(actor),
        !(s.actors[actor].state is Dead),
        s.agents.contains_key(s.actors[actor].agent),
        !s.agents[s.actors[actor].agent].alive,
        s.actors.dom().finite(),
    ensures
        ({
            let agent = s.actors[actor].agent;
            let t = called(s, one.0, actor, one.1, one.2, one.3).0;
            let u = called(t, two.0, actor, two.1, two.2, two.3).0;
            let first = QueuedCallV {
                ref_id: ref_name(actor, s.next_ref),
                method: one.1,
                payload: one.2,
            };
            let second = QueuedCallV {
                ref_id: ref_name(actor, t.next_ref),
                method: two.1,
                payload: two.2,
            };
            &&& held_calls(u, agent).contains(
                DrainV {
                    actor,
                    calls: s.actors[actor].queued_calls.push(first).push(second),
                },
            )
            &&& forall|i: int|
                0 <= i < held_calls(drained(u, agent), agent).len()
                    ==> (#[trigger] held_calls(drained(u, agent), agent)[i]).actor != actor
        }),
{
    let agent = s.actors[actor].agent;
    let t = called(s, one.0, actor, one.1, one.2, one.3).0;
    let u = called(t, two.0, actor, two.1, two.2, two.3).0;
    let a = u.actors[actor];
    assert(drains(a, agent));
    assert(u.actors.dom() =~= s.actors.dom());
    let p = |k: Seq<char>| drains(u.actors[k], agent);
    let ids = those(ordered(u.actors.dom()), p);
    lemma_finite_lists(u.actors.dom());
    lemma_those(ordered(u.actors.dom()), p);
    assert(ids.contains(actor));
    let i = ids.index_of(actor);
    assert(held_calls(u, agent)[i] == (DrainV { actor, calls: a.queued_calls }));
    let v = drained(u, agent);
    let q = |k: Seq<char>| drains(v.actors[k], agent);
    assert(v.actors.dom() =~= u.actors.dom());
    lemma_those(ordered(v.actors.dom()), q);
}

// ---------------------------------------------------------------------------
// What an agent is sent
// ---------------------------------------------------------------------------
pub(crate) proof fn lemma_drain_frames(v: Seq<DrainV>)
    ensures
        forall|i: int| 0 <= i < drain_frames(v).len() ==> #[trigger] drain_frames(v)[i] is Dispatch,
    decreases v.len(),
{
    if v.len() > 0 {
        lemma_drain_frames(v.drop_last());
        let a = drain_frames(v.drop_last());
        let b = call_frames(v.last().actor, v.last().calls);
        assert forall|i: int| 0 <= i < drain_frames(v).len() implies #[trigger] drain_frames(
            v,
        )[i] is Dispatch by {
            if i < a.len() {
                assert(drain_frames(v)[i] == a[i]);
            } else {
                assert(drain_frames(v)[i] == b[i - a.len()]);
            }
        }
    }
}

/// The reply to a registration is the first frame on the link, and the only one of
/// its kind; the actors to end come next, and every held call behind them.
pub proof fn law_the_reply_precedes_kills_and_calls(
    s: StateV,
    reg: Register,
    from: Arrival,
    now: u64,
    by_island: bool,
)
    ensures
        ({
            let f = let_in(s, reg, from, now, by_island).1.frames;
            &&& f.len() > 0
            &&& f[0] is RegisterOk
            &&& forall|i: int| 0 < i < f.len() ==> !(#[trigger] f[i] is RegisterOk)
            &&& forall|i: int, j: int|
                0 <= i < j < f.len() && #[trigger] f[i] is Dispatch ==> #[trigger] f[j] is Dispatch
        }),
{
    let f = let_in(s, reg, from, now, by_island).1.frames;
    let (node, kills, drains): (Seq<char>, Seq<Seq<char>>, Seq<DrainV>) = choose|
        node: Seq<char>,
        kills: Seq<Seq<char>>,
        drains: Seq<DrainV>,
    |
        f == #[trigger] welcome_frames(node, kills, drains);
    lemma_drain_frames(drains);
    let k = kill_frames(kills);
    let d = drain_frames(drains);
    assert forall|i: int| 0 < i < f.len() implies #[trigger] f[i] == (if i <= k.len() {
        k[i - 1]
    } else {
        d[i - 1 - k.len()]
    }) by {}
}

} // verus!
