//! What time does to the rows: warnings, timeouts, and the history sweep.

use vstd::prelude::*;
use vstd::string::*;

use crate::common::dict::{
    drop_keys, lemma_increasing_distinct, lemma_those, lists, ordered, those, Dict,
};
use crate::common::json::meaning;
use crate::common::text::{dec, decimal, listed, same, texts};
use crate::daemon::actors::{died, mark_actor_dead};
use crate::daemon::place::{agent_change, push_agent_patch, row_gone, row_patch, row_set};
use crate::daemon::state::{
    patch_views, ActorState, ActorStateV, AgentV, Patch, PatchV, PgState, PgV, RefState, RefV,
    State, StateV,
};
use crate::daemon::status::{mentioned, pg_row, pg_row_of};

verus! {

broadcast use meaning;

/// The windows and switches a daemon runs by, in milliseconds.
#[derive(Clone, Copy, Debug, PartialEq, Eq, Structural)]
pub struct Limits {
    /// A call that has waited longer is warned of, once.
    pub slow_call_warn_ms: u64,
    /// A placement group that has waited longer is failed.
    pub pg_pending_timeout_ms: u64,
    /// An agent whose link has been down as long is degraded.
    pub agent_degraded_after_ms: u64,
    /// An agent whose link has been down as long is given up.
    pub agent_dead_after_ms: u64,
    /// Rows that nobody can act on are kept as long.
    pub history_keep_ms: u64,
    /// Whether groups are placed inside fabrics.
    pub island_placement: bool,
}

/// The time from `at` to `now`; none where `at` is later.
pub open spec fn since(now: u64, at: u64) -> u64 {
    if now >= at {
        (now - at) as u64
    } else {
        0
    }
}

/// The time from `at` to `now`.
pub fn elapsed(now: u64, at: u64) -> (r: u64)
    ensures
        r == since(now, at),
{
    if now >= at {
        now - at
    } else {
        0
    }
}

// ---------------------------------------------------------------------------
// Slow calls
// ---------------------------------------------------------------------------
/// Whether a call is to be warned of: a normal method that has sat pending for
/// long. The run() ref legitimately never resolves.
pub open spec fn slow(r: RefV, now: u64, after: u64) -> bool {
    r.state is Pending && r.method != "run"@ && !r.warned && since(now, r.created_ms) > after
}

/// The refs, with the slow ones marked as warned of.
pub open spec fn warned_refs(
    refs: Map<Seq<char>, RefV>,
    now: u64,
    after: u64,
) -> Map<Seq<char>, RefV> {
    Map::new(
        |k: Seq<char>| refs.contains_key(k),
        |k: Seq<char>|
            if slow(refs[k], now, after) {
                RefV { warned: true, ..refs[k] }
            } else {
                refs[k]
            },
    )
}

/// The slow calls.
pub open spec fn slow_calls(s: StateV, now: u64, after: u64) -> Seq<Seq<char>> {
    those(ordered(s.refs.dom()), |k: Seq<char>| slow(s.refs[k], now, after))
}

/// Marks the calls that have sat pending for long, once each, and lists them.
/// Such a call queued behind a blocking method, or its worker is stuck.
pub fn warn_slow_calls(st: &mut State, now: u64, after: u64) -> (r: Vec<String>)
    ensures
        final(st)@ == (StateV { refs: warned_refs(old(st)@.refs, now, after), ..old(st)@ }),
        texts(r@) == slow_calls(old(st)@, now, after),
{
    let ghost s = st@;
    let ghost was = st.refs@;
    let n: usize = st.refs.len();
    let ghost order = st.refs.order();
    let mut out: Vec<String> = Vec::new();
    let mut i: usize = 0;
    proof {
        assert(s.refs.dom() =~= was.dom());
        assert(texts(out@) =~= Seq::<Seq<char>>::empty());
    }
    while i < n
        invariant
            i <= n,
            n == order.len(),
            order == st.refs.order(),
            lists(order, was.dom()),
            st@ == (StateV { refs: st@.refs, ..s }),
            st.refs@.dom() == was.dom(),
            s.refs.dom() == was.dom(),
            forall|k: Seq<char>| #[trigger]
                was.contains_key(k) ==> s.refs[k] == was[k].deep_view(),
            forall|j: int|
                0 <= j < i ==> st.refs@[#[trigger] order[j]].deep_view() == (if slow(
                    s.refs[order[j]],
                    now,
                    after,
                ) {
                    RefV { warned: true, ..s.refs[order[j]] }
                } else {
                    s.refs[order[j]]
                }),
            forall|j: int| i <= j < n ==> st.refs@[#[trigger] order[j]] == was[order[j]],
            texts(out@) == those(
                order.take(i as int),
                |k: Seq<char>| slow(s.refs[k], now, after),
            ),
        decreases n - i,
    {
        let ghost mid = st.refs@;
        let ghost key = order[i as int];
        proof {
            assert(order.contains(key));
            assert(was.dom().contains(key));
            assert(order.take(i + 1).drop_last() =~= order.take(i as int));
            assert(order.take(i + 1).last() == key);
        }
        let name = st.refs.key_at(i).clone();
        let r = st.refs.val_at_mut(i);
        let pending = match &r.state {
            RefState::Pending => true,
            _ => false,
        };
        let hit = pending && !same(r.method.as_str(), "run") && !r.warned && elapsed(
            now,
            r.created_ms,
        ) > after;
        if hit {
            r.warned = true;
        }
        if hit {
            let ghost had = out@;
            out.push(name);
            proof {
                assert(texts(out@) =~= texts(had).push(key));
            }
        }
        proof {
            assert(st.refs@.dom() =~= was.dom());
            assert forall|j: int| 0 <= j < n && j != i implies st.refs@[#[trigger] order[j]]
                == mid[order[j]] by {
                if order[j] == key {
                    lemma_increasing_distinct(order, i as int, j);
                }
            }
        }
        i += 1;
    }
    proof {
        assert(order.take(order.len() as int) =~= order);
        let want = warned_refs(s.refs, now, after);
        assert forall|k: Seq<char>| #[trigger] want.contains_key(k) implies st@.refs[k]
            == want[k] by {
            assert(was.dom().contains(k));
            let j = order.index_of(k);
            assert(order[j] == k);
        }
        assert(st@.refs =~= want);
    }
    out
}

// ---------------------------------------------------------------------------
// Groups that wait too long
// ---------------------------------------------------------------------------
/// Whether a placement group has waited too long.
pub open spec fn overdue(p: PgV, now: u64, after: u64) -> bool {
    p.state == PgState::Pending && since(now, p.created_ms) > after
}

/// What the last attempt to place a group could not find.
pub open spec fn wait_reason(p: PgV) -> Seq<char> {
    match p.pending_reason {
        Some(r) => r,
        None => "group '"@ + p.group + "' never had enough registered GPUs"@,
    }
}

/// A group's row after its wait timed out.
pub open spec fn expired_row(p: PgV, now: u64) -> PgV {
    PgV {
        state: PgState::Removed,
        removed_ms: Some(now),
        fail_reason: Some(
            "placement group still PENDING after "@ + decimal(since(now, p.created_ms) as nat)
                + "ms: "@ + wait_reason(p) + " (MENTAT_PG_PENDING_TIMEOUT_MS)"@,
        ),
        ..p
    }
}

/// The state after a group's wait timed out. It fails loudly instead of
/// leaving the driver waiting forever.
pub open spec fn pg_expired(s: StateV, id: Seq<char>, now: u64) -> StateV {
    let p = s.pgs[id];
    let q = expired_row(p, now);
    StateV { pgs: s.pgs.insert(id, q), ..s }.emit(
        "pg_timeout"@,
        seq![row_set(q.group, "placement_groups"@, id, pg_row_of(q))],
        "waited "@ + decimal(since(now, p.created_ms) as nat) + " ms: "@ + wait_reason(p),
    )
}

/// The state after the wait of each of some groups timed out.
pub open spec fn pgs_expired(s: StateV, ids: Seq<Seq<char>>, now: u64) -> StateV
    decreases ids.len(),
{
    if ids.len() == 0 {
        s
    } else {
        pg_expired(pgs_expired(s, ids.drop_last(), now), ids.last(), now)
    }
}

/// The groups that have waited too long.
pub open spec fn overdue_pgs(s: StateV, now: u64, after: u64) -> Seq<Seq<char>> {
    those(ordered(s.pgs.dom()), |k: Seq<char>| overdue(s.pgs[k], now, after))
}

proof fn lemma_pgs_expired_keys(s: StateV, ids: Seq<Seq<char>>, now: u64)
    requires
        forall|i: int| 0 <= i < ids.len() ==> s.pgs.contains_key(#[trigger] ids[i]),
    ensures
        pgs_expired(s, ids, now).pgs.dom() == s.pgs.dom(),
    decreases ids.len(),
{
    if ids.len() > 0 {
        let init = ids.drop_last();
        assert forall|i: int| 0 <= i < init.len() implies s.pgs.contains_key(#[trigger] init[i]) by {
            assert(init[i] == ids[i]);
        }
        lemma_pgs_expired_keys(s, init, now);
        assert(s.pgs.contains_key(ids[ids.len() - 1]));
        assert(s.pgs.dom().contains(ids.last()));
        assert(pgs_expired(s, ids, now).pgs.dom() =~= s.pgs.dom());
    }
}

fn expire_pg(st: &mut State, id: &str, now: u64)
    requires
        old(st)@.pgs.contains_key(id@),
    ensures
        final(st)@ == pg_expired(old(st)@, id@, now),
{
    let ghost s = st@;
    let ghost q = expired_row(s.pgs[id@], now);
    let mut detail = "waited ".to_string();
    let mut patch: Vec<Patch> = Vec::new();
    if let Some(p) = st.pgs.get_mut(id) {
        let why = match &p.pending_reason {
            Some(r) => r.clone(),
            None => {
                let mut w = "group '".to_string();
                w.append(p.group.as_str());
                w.append("' never had enough registered GPUs");
                w
            },
        };
        let age = dec(elapsed(now, p.created_ms));
        let mut reason = "placement group still PENDING after ".to_string();
        reason.append(age.as_str());
        reason.append("ms: ");
        reason.append(why.as_str());
        reason.append(" (MENTAT_PG_PENDING_TIMEOUT_MS)");
        detail.append(age.as_str());
        detail.append(" ms: ");
        detail.append(why.as_str());
        p.state = PgState::Removed;
        p.removed_ms = Some(now);
        p.fail_reason = Some(reason);
        proof {
            assert(p.deep_view() == q);
        }
        patch.push(row_patch(p.group.as_str(), "placement_groups", id, Some(pg_row(p))));
    }
    proof {
        assert(st@.pgs =~= s.pgs.insert(id@, q));
        assert(patch_views(patch@) =~= seq![
            row_set(q.group, "placement_groups"@, id@, pg_row_of(q)),
        ]);
    }
    st.emit_patch("pg_timeout", patch, detail.as_str());
}

/// Fails each placement group that has waited too long, naming what it could
/// not find.
pub fn expire_pgs(st: &mut State, now: u64, after: u64)
    ensures
        final(st)@ == pgs_expired(old(st)@, overdue_pgs(old(st)@, now, after), now),
{
    let ghost s = st@;
    let n: usize = st.pgs.len();
    let ghost order = st.pgs.order();
    let mut ids: Vec<String> = Vec::new();
    let mut i: usize = 0;
    proof {
        assert(s.pgs.dom() =~= st.pgs@.dom());
        assert(texts(ids@) =~= Seq::<Seq<char>>::empty());
    }
    while i < n
        invariant
            i <= n,
            n == order.len(),
            order == st.pgs.order(),
            s == st@,
            texts(ids@) == those(
                order.take(i as int),
                |k: Seq<char>| overdue(s.pgs[k], now, after),
            ),
        decreases n - i,
    {
        let p = st.pgs.val_at(i);
        proof {
            assert(order.take(i + 1).drop_last() =~= order.take(i as int));
            assert(order.take(i + 1).last() == order[i as int]);
            assert(s.pgs[order[i as int]] == p.deep_view());
        }
        if p.state == PgState::Pending && elapsed(now, p.created_ms) > after {
            let ghost was = ids@;
            ids.push(st.pgs.key_at(i).clone());
            proof {
                assert(texts(ids@) =~= texts(was).push(order[i as int]));
            }
        }
        i += 1;
    }
    let ghost todo = texts(ids@);
    proof {
        assert(order.take(order.len() as int) =~= order);
        lemma_those(order, |k: Seq<char>| overdue(s.pgs[k], now, after));
        assert forall|j: int| 0 <= j < todo.len() implies s.pgs.contains_key(#[trigger] todo[j]) by {
            assert(order.contains(todo[j]));
            assert(st.pgs@.dom().contains(todo[j]));
        }
    }
    let mut k: usize = 0;
    while k < ids.len()
        invariant
            k <= ids@.len(),
            todo == texts(ids@),
            st@ == pgs_expired(s, todo.take(k as int), now),
            forall|j: int| 0 <= j < todo.len() ==> s.pgs.contains_key(#[trigger] todo[j]),
        decreases ids@.len() - k,
    {
        proof {
            let t = todo.take(k as int);
            assert(todo.take(k + 1).drop_last() =~= t);
            assert(todo.take(k + 1).last() == ids@[k as int]@);
            assert forall|j: int| 0 <= j < t.len() implies s.pgs.contains_key(#[trigger] t[j]) by {
                assert(t[j] == todo[j]);
            }
            lemma_pgs_expired_keys(s, t, now);
            assert(s.pgs.contains_key(todo[k as int]));
            assert(st@.pgs.dom().contains(todo[k as int]));
        }
        expire_pg(st, ids[k].as_str(), now);
        k += 1;
    }
    proof {
        assert(todo.take(todo.len() as int) =~= todo);
    }
}

// ---------------------------------------------------------------------------
// Agents that do not come back
// ---------------------------------------------------------------------------
/// How long an agent's link has been down.
pub open spec fn down(a: AgentV, now: u64) -> u64 {
    match a.lost_at_ms {
        Some(at) => since(now, at),
        None => 0,
    }
}

/// Whether an agent is to be given up.
pub open spec fn given_up(a: AgentV, now: u64, dead_after: u64) -> bool {
    a.lost_at_ms is Some && down(a, now) >= dead_after
}

/// Whether an agent is to be called degraded now.
pub open spec fn degrades(a: AgentV, now: u64, degraded_after: u64, dead_after: u64) -> bool {
    a.lost_at_ms is Some && down(a, now) < dead_after && down(a, now) >= degraded_after
        && !a.degraded
}

/// An agent's row after its windows were looked at.
pub open spec fn aged_agent(a: AgentV, now: u64, degraded_after: u64, dead_after: u64) -> AgentV {
    if given_up(a, now, dead_after) {
        AgentV { lost_at_ms: None, ..a }
    } else if degrades(a, now, degraded_after, dead_after) {
        AgentV { degraded: true, ..a }
    } else {
        a
    }
}

/// The agents after their windows were looked at.
pub open spec fn aged_agents(
    m: Map<Seq<char>, AgentV>,
    now: u64,
    degraded_after: u64,
    dead_after: u64,
) -> Map<Seq<char>, AgentV> {
    Map::new(
        |k: Seq<char>| m.contains_key(k),
        |k: Seq<char>| aged_agent(m[k], now, degraded_after, dead_after),
    )
}

/// The state after it is told that some agents, as `was` has them, are
/// degraded.
pub open spec fn told_degraded(s: StateV, was: StateV, ids: Seq<Seq<char>>, now: u64) -> StateV
    decreases ids.len(),
{
    if ids.len() == 0 {
        s
    } else {
        let t = told_degraded(s, was, ids.drop_last(), now);
        let id = ids.last();
        t.emit(
            "agent_degraded"@,
            agent_change(t, id),
            "down "@ + decimal(down(was.agents[id], now) as nat) + " ms"@,
        )
    }
}

/// The live actors of an agent.
pub open spec fn actors_on(s: StateV, agent: Seq<char>) -> Seq<Seq<char>> {
    those(
        ordered(s.actors.dom()),
        |k: Seq<char>| s.actors[k].agent == agent && !(s.actors[k].state is Dead),
    )
}

/// The state after each of some actors died for one reason.
pub open spec fn all_died(
    s: StateV,
    ids: Seq<Seq<char>>,
    reason: Seq<char>,
    now: u64,
    by_island: bool,
) -> StateV
    decreases ids.len(),
{
    if ids.len() == 0 {
        s
    } else {
        died(
            all_died(s, ids.drop_last(), reason, now, by_island),
            ids.last(),
            reason,
            now,
            by_island,
        )
    }
}

/// The state after an agent, whose link was down for `ms`, was given up: its
/// actors are dead.
pub open spec fn gave_up(s: StateV, id: Seq<char>, ms: u64, now: u64, by_island: bool) -> StateV {
    let orphaned = actors_on(s, id);
    all_died(
        s.emit(
            "agent_dead"@,
            agent_change(s, id),
            "down "@ + decimal(ms as nat) + " ms, "@ + decimal(orphaned.len())
                + " actors orphaned"@,
        ),
        orphaned,
        "agent link lost for "@ + decimal(ms as nat) + "ms, past MENTAT_AGENT_DEAD_AFTER_MS"@,
        now,
        by_island,
    )
}

/// The state after some agents, as `was` has them, were given up.
pub open spec fn all_given_up(
    s: StateV,
    was: StateV,
    ids: Seq<Seq<char>>,
    now: u64,
    by_island: bool,
) -> StateV
    decreases ids.len(),
{
    if ids.len() == 0 {
        s
    } else {
        gave_up(
            all_given_up(s, was, ids.drop_last(), now, by_island),
            ids.last(),
            down(was.agents[ids.last()], now),
            now,
            by_island,
        )
    }
}

/// The state after the agents' windows were looked at: those that ran out of
/// the first are degraded, those that ran out of the second are given up.
pub open spec fn agents_aged(s: StateV, now: u64, limits: Limits) -> StateV {
    let t = StateV {
        agents: aged_agents(
            s.agents,
            now,
            limits.agent_degraded_after_ms,
            limits.agent_dead_after_ms,
        ),
        ..s
    };
    let worse = those(
        ordered(s.agents.dom()),
        |k: Seq<char>|
            degrades(
                s.agents[k],
                now,
                limits.agent_degraded_after_ms,
                limits.agent_dead_after_ms,
            ),
    );
    let lost = those(
        ordered(s.agents.dom()),
        |k: Seq<char>| given_up(s.agents[k], now, limits.agent_dead_after_ms),
    );
    all_given_up(told_degraded(t, s, worse, now), s, lost, now, limits.island_placement)
}

fn live_actors_on(st: &State, agent: &str) -> (r: Vec<String>)
    ensures
        texts(r@) == actors_on(st@, agent@),
{
    let n: usize = st.actors.len();
    let ghost order = st.actors.order();
    let ghost s = st@;
    let mut out: Vec<String> = Vec::new();
    let mut i: usize = 0;
    proof {
        assert(s.actors.dom() =~= st.actors@.dom());
        assert(texts(out@) =~= Seq::<Seq<char>>::empty());
    }
    while i < n
        invariant
            i <= n,
            n == order.len(),
            order == st.actors.order(),
            s == st@,
            texts(out@) == those(
                order.take(i as int),
                |k: Seq<char>| s.actors[k].agent == agent@ && !(s.actors[k].state is Dead),
            ),
        decreases n - i,
    {
        let a = st.actors.val_at(i);
        proof {
            assert(order.take(i + 1).drop_last() =~= order.take(i as int));
            assert(order.take(i + 1).last() == order[i as int]);
            assert(s.actors[order[i as int]] == a.deep_view());
        }
        if same(a.agent.as_str(), agent) && !a.dead() {
            let ghost was = out@;
            out.push(st.actors.key_at(i).clone());
            proof {
                assert(texts(out@) =~= texts(was).push(order[i as int]));
            }
        }
        i += 1;
    }
    proof {
        assert(order.take(order.len() as int) =~= order);
    }
    out
}

/// Marks each of some actors dead for one reason.
pub fn mark_all_dead(
    st: &mut State,
    ids: &Vec<String>,
    reason: &str,
    now: u64,
    by_island: bool,
)
    ensures
        final(st)@ == all_died(old(st)@, texts(ids@), reason@, now, by_island),
{
    let ghost s = st@;
    let ghost all = texts(ids@);
    let mut i: usize = 0;
    while i < ids.len()
        invariant
            i <= ids@.len(),
            all == texts(ids@),
            st@ == all_died(s, all.take(i as int), reason@, now, by_island),
        decreases ids@.len() - i,
    {
        proof {
            assert(all.take(i + 1).drop_last() =~= all.take(i as int));
            assert(all.take(i + 1).last() == ids@[i as int]@);
        }
        mark_actor_dead(st, ids[i].as_str(), reason, now, by_island);
        i += 1;
    }
    proof {
        assert(all.take(all.len() as int) =~= all);
    }
}

fn give_up_agent(st: &mut State, id: &str, ms: u64, now: u64, by_island: bool)
    ensures
        final(st)@ == gave_up(old(st)@, id@, ms, now, by_island),
{
    let orphaned = live_actors_on(st, id);
    let mut patch: Vec<Patch> = Vec::new();
    proof {
        assert(patch_views(patch@) + agent_change(st@, id@) =~= agent_change(st@, id@));
    }
    push_agent_patch(st, id, &mut patch);
    let mut detail = "down ".to_string();
    detail.append(dec(ms).as_str());
    detail.append(" ms, ");
    detail.append(dec(orphaned.len() as u64).as_str());
    detail.append(" actors orphaned");
    st.emit_patch("agent_dead", patch, detail.as_str());
    let mut reason = "agent link lost for ".to_string();
    reason.append(dec(ms).as_str());
    reason.append("ms, past MENTAT_AGENT_DEAD_AFTER_MS");
    mark_all_dead(st, &orphaned, reason.as_str(), now, by_island);
}

/// Looks at the window of each agent whose link is down: past the first the
/// agent is degraded, past the second it is given up and its actors are dead.
/// An agent that registers again inside the window loses nothing.
pub fn age_agents(st: &mut State, now: u64, limits: &Limits)
    ensures
        final(st)@ == agents_aged(old(st)@, now, *limits),
{
    let (da, xa) = (limits.agent_degraded_after_ms, limits.agent_dead_after_ms);
    let ghost s = st@;
    let ghost was = st.agents@;
    let n: usize = st.agents.len();
    let ghost order = st.agents.order();
    let mut worse: Vec<String> = Vec::new();
    let mut worse_ms: Vec<u64> = Vec::new();
    let mut lost: Vec<String> = Vec::new();
    let mut lost_ms: Vec<u64> = Vec::new();
    let mut i: usize = 0;
    proof {
        assert(s.agents.dom() =~= was.dom());
        assert(texts(worse@) =~= Seq::<Seq<char>>::empty());
        assert(texts(lost@) =~= Seq::<Seq<char>>::empty());
    }
    while i < n
        invariant
            i <= n,
            n == order.len(),
            order == st.agents.order(),
            lists(order, was.dom()),
            da == limits.agent_degraded_after_ms,
            xa == limits.agent_dead_after_ms,
            st@ == (StateV { agents: st@.agents, ..s }),
            st.agents@.dom() == was.dom(),
            s.agents.dom() == was.dom(),
            forall|k: Seq<char>| #[trigger]
                was.contains_key(k) ==> s.agents[k] == was[k].deep_view(),
            forall|j: int|
                0 <= j < i ==> st.agents@[#[trigger] order[j]].deep_view() == aged_agent(
                    s.agents[order[j]],
                    now,
                    da,
                    xa,
                ),
            forall|j: int| i <= j < n ==> st.agents@[#[trigger] order[j]] == was[order[j]],
            worse@.len() == worse_ms@.len(),
            lost@.len() == lost_ms@.len(),
            forall|j: int|
                0 <= j < worse@.len() ==> #[trigger] worse_ms@[j] == down(
                    s.agents[worse@[j]@],
                    now,
                ),
            forall|j: int|
                0 <= j < lost@.len() ==> #[trigger] lost_ms@[j] == down(s.agents[lost@[j]@], now),
            texts(worse@) == those(
                order.take(i as int),
                |k: Seq<char>| degrades(
                    s.agents[k],
                    now,
                    limits.agent_degraded_after_ms,
                    limits.agent_dead_after_ms,
                ),
            ),
            texts(lost@) == those(
                order.take(i as int),
                |k: Seq<char>| given_up(s.agents[k], now, limits.agent_dead_after_ms),
            ),
        decreases n - i,
    {
        let ghost mid = st.agents@;
        let ghost key = order[i as int];
        proof {
            assert(order.contains(key));
            assert(was.dom().contains(key));
            assert(order.take(i + 1).drop_last() =~= order.take(i as int));
            assert(order.take(i + 1).last() == key);
        }
        let name = st.agents.key_at(i).clone();
        let a = st.agents.val_at_mut(i);
        let gone: Option<u64> = match a.lost_at_ms {
            Some(at) => Some(elapsed(now, at)),
            None => None,
        };
        let mut out_first = false;
        let mut out_second = false;
        if let Some(ms) = gone {
            if ms >= xa {
                a.lost_at_ms = None;
                out_second = true;
            } else if ms >= da && !a.degraded {
                a.degraded = true;
                out_first = true;
            }
        }
        let ms: u64 = match gone {
            Some(ms) => ms,
            None => 0,
        };
        proof {
            assert(out_second == given_up(s.agents[key], now, xa));
            assert(out_first == degrades(s.agents[key], now, da, xa));
        }
        if out_second {
            let ghost had = lost@;
            lost.push(name);
            lost_ms.push(ms);
            proof {
                assert(texts(lost@) =~= texts(had).push(key));
            }
        } else if out_first {
            let ghost had = worse@;
            worse.push(name);
            worse_ms.push(ms);
            proof {
                assert(texts(worse@) =~= texts(had).push(key));
            }
        }
        proof {
            assert(st.agents@.dom() =~= was.dom());
            assert forall|j: int| 0 <= j < n && j != i implies st.agents@[#[trigger] order[j]]
                == mid[order[j]] by {
                if order[j] == key {
                    lemma_increasing_distinct(order, i as int, j);
                }
            }
        }
        i += 1;
    }
    let ghost t = StateV { agents: aged_agents(s.agents, now, da, xa), ..s };
    proof {
        assert(order.take(order.len() as int) =~= order);
        assert forall|k: Seq<char>| #[trigger] t.agents.contains_key(k) implies st@.agents[k]
            == t.agents[k] by {
            assert(was.dom().contains(k));
            let j = order.index_of(k);
            assert(order[j] == k);
        }
        assert(st@.agents =~= t.agents);
        assert(st@ == t);
    }
    let ghost w = texts(worse@);
    let mut i: usize = 0;
    while i < worse.len()
        invariant
            i <= worse@.len(),
            w == texts(worse@),
            worse@.len() == worse_ms@.len(),
            forall|j: int|
                0 <= j < worse@.len() ==> #[trigger] worse_ms@[j] == down(
                    s.agents[worse@[j]@],
                    now,
                ),
            st@ == told_degraded(t, s, w.take(i as int), now),
        decreases worse@.len() - i,
    {
        proof {
            assert(w.take(i + 1).drop_last() =~= w.take(i as int));
            assert(w.take(i + 1).last() == worse@[i as int]@);
            assert(worse_ms@[i as int] == down(s.agents[worse@[i as int]@], now));
        }
        let mut patch: Vec<Patch> = Vec::new();
        proof {
            let c = agent_change(st@, worse@[i as int]@);
            assert(patch_views(patch@) + c =~= c);
        }
        push_agent_patch(st, worse[i].as_str(), &mut patch);
        let mut detail = "down ".to_string();
        detail.append(dec(worse_ms[i]).as_str());
        detail.append(" ms");
        st.emit_patch("agent_degraded", patch, detail.as_str());
        i += 1;
    }
    let ghost u = st@;
    let ghost l = texts(lost@);
    proof {
        assert(w.take(w.len() as int) =~= w);
    }
    let mut i: usize = 0;
    while i < lost.len()
        invariant
            i <= lost@.len(),
            l == texts(lost@),
            lost@.len() == lost_ms@.len(),
            forall|j: int|
                0 <= j < lost@.len() ==> #[trigger] lost_ms@[j] == down(s.agents[lost@[j]@], now),
            st@ == all_given_up(u, s, l.take(i as int), now, limits.island_placement),
        decreases lost@.len() - i,
    {
        proof {
            assert(l.take(i + 1).drop_last() =~= l.take(i as int));
            assert(l.take(i + 1).last() == lost@[i as int]@);
            assert(lost_ms@[i as int] == down(s.agents[lost@[i as int]@], now));
        }
        give_up_agent(st, lost[i].as_str(), lost_ms[i], now, limits.island_placement);
        i += 1;
    }
    proof {
        assert(l.take(l.len() as int) =~= l);
    }
}

// ---------------------------------------------------------------------------
// History
// ---------------------------------------------------------------------------
/// Whether a row that has been of no use since `at` is old enough to go.
pub open spec fn old_enough(now: u64, at: u64, keep: u64) -> bool {
    since(now, at) > keep
}

/// Whether a dead actor's row can go: its owner is gone, and it is old enough.
/// Only its owner can make the call that its row answers.
pub open spec fn actor_spent(s: StateV, k: Seq<char>, now: u64, keep: u64) -> bool {
    !s.clients.contains_key(s.actors[k].owner) && (s.actors[k].state matches ActorStateV::Dead {
        at_ms,
        ..
    } && old_enough(now, at_ms, keep))
}

/// Whether a removed placement group's row can go.
pub open spec fn pg_spent(s: StateV, k: Seq<char>, now: u64, keep: u64) -> bool {
    s.pgs[k].state == PgState::Removed && !s.clients.contains_key(s.pgs[k].owner)
        && s.pgs[k].removed_ms is Some && old_enough(now, s.pgs[k].removed_ms->Some_0, keep)
}

/// The dead actors whose rows can go.
pub open spec fn spent_actors(s: StateV, now: u64, keep: u64) -> Seq<Seq<char>> {
    those(ordered(s.actors.dom()), |k: Seq<char>| actor_spent(s, k, now, keep))
}

/// The removed placement groups whose rows can go.
pub open spec fn spent_pgs(s: StateV, now: u64, keep: u64) -> Seq<Seq<char>> {
    those(ordered(s.pgs.dom()), |k: Seq<char>| pg_spent(s, k, now, keep))
}

/// Whether an actor of an agent stays.
pub open spec fn hosts_still(s: StateV, agent: Seq<char>, gone: Seq<Seq<char>>) -> bool {
    exists|k: Seq<char>| #[trigger]
        s.actors.contains_key(k) && s.actors[k].agent == agent && !gone.contains(k)
}

/// Whether an agent's row can go: its link is down, it was given up, it is old
/// enough, and every actor it hosted goes too, since a dead actor's row gives its
/// agent.
pub open spec fn agent_spent(
    s: StateV,
    k: Seq<char>,
    gone: Seq<Seq<char>>,
    now: u64,
    keep: u64,
) -> bool {
    !s.agents[k].alive && s.agents[k].lost_at_ms is None && s.agents[k].gone_since_ms is Some
        && old_enough(
        now,
        s.agents[k].gone_since_ms->Some_0,
        keep,
    ) && !hosts_still(s, k, gone)
}

/// The agents whose rows can go.
pub open spec fn spent_agents(s: StateV, now: u64, keep: u64) -> Seq<Seq<char>> {
    let gone = spent_actors(s, now, keep);
    those(ordered(s.agents.dom()), |k: Seq<char>| agent_spent(s, k, gone, now, keep))
}

/// The removals of some actors' rows.
pub open spec fn actors_gone(s: StateV, ids: Seq<Seq<char>>) -> Seq<PatchV> {
    Seq::new(ids.len(), |i: int| row_gone(s.actors[ids[i]].group, "actors"@, ids[i]))
}

/// The removals of some placement groups' rows.
pub open spec fn pgs_gone(s: StateV, ids: Seq<Seq<char>>) -> Seq<PatchV> {
    Seq::new(ids.len(), |i: int| row_gone(s.pgs[ids[i]].group, "placement_groups"@, ids[i]))
}

/// The removals of some agents' rows.
pub open spec fn agents_gone(s: StateV, ids: Seq<Seq<char>>) -> Seq<PatchV> {
    Seq::new(ids.len(), |i: int| row_gone(s.agents[ids[i]].group, "agents"@, ids[i]))
}

/// The removals of some groups.
pub open spec fn groups_gone(names: Seq<Seq<char>>) -> Seq<PatchV> {
    Seq::new(names.len(), |i: int| PatchV { at: seq!["groups"@, names[i]], value: None })
}

/// The state without some rows. A ref goes with the actor it waited on.
pub open spec fn without(
    s: StateV,
    actors: Seq<Seq<char>>,
    pgs: Seq<Seq<char>>,
    agents: Seq<Seq<char>>,
) -> StateV {
    let left = s.actors.remove_keys(actors.to_set());
    StateV {
        actors: left,
        pgs: s.pgs.remove_keys(pgs.to_set()),
        agents: s.agents.remove_keys(agents.to_set()),
        misfiled_warned: s.misfiled_warned.difference(agents.to_set()),
        refs: Map::new(
            |k: Seq<char>|
                s.refs.contains_key(k) && (s.refs[k].actor is None || left.contains_key(
                    s.refs[k].actor->Some_0,
                )),
            |k: Seq<char>| s.refs[k],
        ),
        ..s
    }
}

/// The groups of the actors and agents whose rows go, that no row mentions any
/// more. A group is whatever agents and actors mention it.
pub open spec fn emptied(
    s: StateV,
    t: StateV,
    actors: Seq<Seq<char>>,
    agents: Seq<Seq<char>>,
) -> Set<Seq<char>> {
    Set::new(
        |g: Seq<char>|
            !mentioned(t, g) && ((exists|i: int|
                0 <= i < actors.len() && s.actors[#[trigger] actors[i]].group == g) || (exists|
                i: int,
            |
                0 <= i < agents.len() && s.agents[#[trigger] agents[i]].group == g)),
    )
}

/// The state after the rows nobody can act on were dropped.
pub open spec fn history_swept(s: StateV, now: u64, keep: u64) -> StateV {
    let actors = spent_actors(s, now, keep);
    let pgs = spent_pgs(s, now, keep);
    let agents = spent_agents(s, now, keep);
    if actors.len() == 0 && pgs.len() == 0 && agents.len() == 0 {
        s
    } else {
        let t = without(s, actors, pgs, agents);
        t.emit(
            "history_swept"@,
            actors_gone(s, actors) + pgs_gone(s, pgs) + agents_gone(s, agents) + groups_gone(
                ordered(emptied(s, t, actors, agents)),
            ),
            "kept "@ + decimal(keep as nat) + " ms"@,
        )
    }
}

fn find_spent_actors(st: &State, now: u64, keep: u64) -> (r: Vec<String>)
    ensures
        texts(r@) == spent_actors(st@, now, keep),
        forall|i: int| 0 <= i < r@.len() ==> st@.actors.contains_key((#[trigger] r@[i])@),
{
    let n: usize = st.actors.len();
    let ghost order = st.actors.order();
    let ghost s = st@;
    let mut out: Vec<String> = Vec::new();
    let mut i: usize = 0;
    proof {
        assert(s.actors.dom() =~= st.actors@.dom());
        assert(texts(out@) =~= Seq::<Seq<char>>::empty());
    }
    while i < n
        invariant
            i <= n,
            n == order.len(),
            order == st.actors.order(),
            s == st@,
            texts(out@) == those(
                order.take(i as int),
                |k: Seq<char>| actor_spent(s, k, now, keep),
            ),
            forall|i: int| 0 <= i < out@.len() ==> st@.actors.contains_key((#[trigger] out@[i])@),
        decreases n - i,
    {
        let a = st.actors.val_at(i);
        proof {
            assert(order.take(i + 1).drop_last() =~= order.take(i as int));
            assert(order.take(i + 1).last() == order[i as int]);
            assert(s.actors[order[i as int]] == a.deep_view());
        }
        let spent = match &a.state {
            ActorState::Dead { at_ms, .. } => elapsed(now, *at_ms) > keep,
            _ => false,
        };
        if !st.clients.contains(a.owner.as_str()) && spent {
            let ghost was = out@;
            out.push(st.actors.key_at(i).clone());
            proof {
                assert(texts(out@) =~= texts(was).push(order[i as int]));
            }
        }
        i += 1;
    }
    proof {
        assert(order.take(order.len() as int) =~= order);
    }
    out
}

fn find_spent_pgs(st: &State, now: u64, keep: u64) -> (r: Vec<String>)
    ensures
        texts(r@) == spent_pgs(st@, now, keep),
        forall|i: int| 0 <= i < r@.len() ==> st@.pgs.contains_key((#[trigger] r@[i])@),
{
    let n: usize = st.pgs.len();
    let ghost order = st.pgs.order();
    let ghost s = st@;
    let mut out: Vec<String> = Vec::new();
    let mut i: usize = 0;
    proof {
        assert(s.pgs.dom() =~= st.pgs@.dom());
        assert(texts(out@) =~= Seq::<Seq<char>>::empty());
    }
    while i < n
        invariant
            i <= n,
            n == order.len(),
            order == st.pgs.order(),
            s == st@,
            texts(out@) == those(order.take(i as int), |k: Seq<char>| pg_spent(s, k, now, keep)),
            forall|i: int| 0 <= i < out@.len() ==> st@.pgs.contains_key((#[trigger] out@[i])@),
        decreases n - i,
    {
        let p = st.pgs.val_at(i);
        proof {
            assert(order.take(i + 1).drop_last() =~= order.take(i as int));
            assert(order.take(i + 1).last() == order[i as int]);
            assert(s.pgs[order[i as int]] == p.deep_view());
        }
        let spent = match p.removed_ms {
            Some(at) => elapsed(now, at) > keep,
            None => false,
        };
        if p.state == PgState::Removed && !st.clients.contains(p.owner.as_str()) && spent {
            let ghost was = out@;
            out.push(st.pgs.key_at(i).clone());
            proof {
                assert(texts(out@) =~= texts(was).push(order[i as int]));
            }
        }
        i += 1;
    }
    proof {
        assert(order.take(order.len() as int) =~= order);
    }
    out
}

fn still_hosts(st: &State, agent: &str, gone: &Vec<String>) -> (r: bool)
    ensures
        r == hosts_still(st@, agent@, texts(gone@)),
{
    let n: usize = st.actors.len();
    let ghost order = st.actors.order();
    let mut i: usize = 0;
    while i < n
        invariant
            i <= n,
            n == order.len(),
            order == st.actors.order(),
            lists(order, st.actors@.dom()),
            forall|j: int|
                0 <= j < i ==> !(st@.actors[#[trigger] order[j]].agent == agent@ && !texts(
                    gone@,
                ).contains(order[j])),
        decreases n - i,
    {
        let a = st.actors.val_at(i);
        proof {
            assert(st@.actors[order[i as int]] == a.deep_view());
            assert(st@.actors.contains_key(order[i as int]));
        }
        if same(a.agent.as_str(), agent) && !listed(gone, st.actors.key_at(i).as_str()) {
            return true;
        }
        i += 1;
    }
    proof {
        if hosts_still(st@, agent@, texts(gone@)) {
            let k = choose|k: Seq<char>| #[trigger]
                st@.actors.contains_key(k) && st@.actors[k].agent == agent@ && !texts(
                    gone@,
                ).contains(k);
            assert(st.actors@.dom().contains(k));
            let j = order.index_of(k);
            assert(order[j] == k);
        }
    }
    false
}

fn find_spent_agents(st: &State, gone: &Vec<String>, now: u64, keep: u64) -> (r: Vec<String>)
    requires
        texts(gone@) == spent_actors(st@, now, keep),
    ensures
        texts(r@) == spent_agents(st@, now, keep),
        forall|i: int| 0 <= i < r@.len() ==> st@.agents.contains_key((#[trigger] r@[i])@),
{
    let n: usize = st.agents.len();
    let ghost order = st.agents.order();
    let ghost s = st@;
    let ghost gv = texts(gone@);
    let mut out: Vec<String> = Vec::new();
    let mut i: usize = 0;
    proof {
        assert(s.agents.dom() =~= st.agents@.dom());
        assert(texts(out@) =~= Seq::<Seq<char>>::empty());
    }
    while i < n
        invariant
            i <= n,
            n == order.len(),
            order == st.agents.order(),
            s == st@,
            gv == texts(gone@),
            texts(out@) == those(
                order.take(i as int),
                |k: Seq<char>| agent_spent(s, k, gv, now, keep),
            ),
            forall|i: int| 0 <= i < out@.len() ==> st@.agents.contains_key((#[trigger] out@[i])@),
        decreases n - i,
    {
        let a = st.agents.val_at(i);
        proof {
            assert(order.take(i + 1).drop_last() =~= order.take(i as int));
            assert(order.take(i + 1).last() == order[i as int]);
            assert(s.agents[order[i as int]] == a.deep_view());
        }
        let spent = match a.gone_since_ms {
            Some(at) => elapsed(now, at) > keep,
            None => false,
        };
        if !a.alive && a.lost_at_ms.is_none() && spent && !still_hosts(st, st.agents.key_at(i).as_str(), gone) {
            let ghost was = out@;
            out.push(st.agents.key_at(i).clone());
            proof {
                assert(texts(out@) =~= texts(was).push(order[i as int]));
            }
        }
        i += 1;
    }
    proof {
        assert(order.take(order.len() as int) =~= order);
    }
    out
}

fn is_mentioned(st: &State, g: &str) -> (r: bool)
    ensures
        r == mentioned(st@, g@),
{
    let n: usize = st.agents.len();
    let ghost order = st.agents.order();
    let mut i: usize = 0;
    while i < n
        invariant
            i <= n,
            n == order.len(),
            order == st.agents.order(),
            lists(order, st.agents@.dom()),
            forall|j: int| 0 <= j < i ==> st@.agents[#[trigger] order[j]].group != g@,
        decreases n - i,
    {
        let a = st.agents.val_at(i);
        proof {
            assert(st@.agents[order[i as int]] == a.deep_view());
            assert(st@.agents.contains_key(order[i as int]));
        }
        if same(a.group.as_str(), g) {
            return true;
        }
        i += 1;
    }
    proof {
        assert forall|k: Seq<char>| #[trigger] st@.agents.contains_key(k) implies st@.agents[k].group
            != g@ by {
            assert(st.agents@.dom().contains(k));
            let j = order.index_of(k);
            assert(order[j] == k);
        }
    }
    let n: usize = st.actors.len();
    let ghost order = st.actors.order();
    let mut i: usize = 0;
    while i < n
        invariant
            i <= n,
            n == order.len(),
            order == st.actors.order(),
            lists(order, st.actors@.dom()),
            forall|j: int| 0 <= j < i ==> st@.actors[#[trigger] order[j]].group != g@,
        decreases n - i,
    {
        let a = st.actors.val_at(i);
        proof {
            assert(st@.actors[order[i as int]] == a.deep_view());
            assert(st@.actors.contains_key(order[i as int]));
        }
        if same(a.group.as_str(), g) {
            return true;
        }
        i += 1;
    }
    proof {
        assert forall|k: Seq<char>| #[trigger] st@.actors.contains_key(k) implies st@.actors[k].group
            != g@ by {
            assert(st.actors@.dom().contains(k));
            let j = order.index_of(k);
            assert(order[j] == k);
        }
    }
    false
}

/// A list of row removals, in the order of their ids.
fn push_gone(
    out: &mut Vec<Patch>,
    groups: &Vec<String>,
    kind: &str,
    ids: &Vec<String>,
)
    requires
        groups@.len() == ids@.len(),
    ensures
        patch_views(final(out)@) == patch_views(old(out)@) + Seq::new(
            ids@.len(),
            |i: int| row_gone(groups@[i]@, kind@, ids@[i]@),
        ),
{
    let ghost start = patch_views(out@);
    let ghost want = Seq::new(ids@.len(), |i: int| row_gone(groups@[i]@, kind@, ids@[i]@));
    let mut i: usize = 0;
    proof {
        assert(start + want.take(0) =~= start);
    }
    while i < ids.len()
        invariant
            i <= ids@.len(),
            groups@.len() == ids@.len(),
            want == Seq::new(ids@.len(), |i: int| row_gone(groups@[i]@, kind@, ids@[i]@)),
            patch_views(out@) == start + want.take(i as int),
        decreases ids@.len() - i,
    {
        let ghost had = out@;
        let p = row_patch(groups[i].as_str(), kind, ids[i].as_str(), None);
        let ghost pv = p.deep_view();
        out.push(p);
        proof {
            assert(patch_views(out@) =~= patch_views(had).push(pv));
            assert(want.take(i + 1) =~= want.take(i as int).push(want[i as int]));
            assert(patch_views(out@) =~= start + want.take(i + 1));
        }
        i += 1;
    }
    proof {
        assert(want.take(want.len() as int) =~= want);
    }
}

fn actor_groups_of(st: &State, ids: &Vec<String>) -> (r: Vec<String>)
    requires
        forall|i: int| 0 <= i < ids@.len() ==> st@.actors.contains_key((#[trigger] ids@[i])@),
    ensures
        r@.len() == ids@.len(),
        forall|i: int| 0 <= i < ids@.len() ==> (#[trigger] r@[i])@ == st@.actors[ids@[i]@].group,
{
    let mut out: Vec<String> = Vec::new();
    let mut i: usize = 0;
    while i < ids.len()
        invariant
            i <= ids@.len(),
            forall|i: int| 0 <= i < ids@.len() ==> st@.actors.contains_key((#[trigger] ids@[i])@),
            out@.len() == i,
            forall|j: int| 0 <= j < i ==> (#[trigger] out@[j])@ == st@.actors[ids@[j]@].group,
        decreases ids@.len() - i,
    {
        proof {
            assert(st@.actors.contains_key(ids@[i as int]@));
        }
        let g = match st.actors.get(ids[i].as_str()) {
            Some(a) => a.group.clone(),
            None => String::new(),
        };
        out.push(g);
        i += 1;
    }
    out
}

fn pg_groups_of(st: &State, ids: &Vec<String>) -> (r: Vec<String>)
    requires
        forall|i: int| 0 <= i < ids@.len() ==> st@.pgs.contains_key((#[trigger] ids@[i])@),
    ensures
        r@.len() == ids@.len(),
        forall|i: int| 0 <= i < ids@.len() ==> (#[trigger] r@[i])@ == st@.pgs[ids@[i]@].group,
{
    let mut out: Vec<String> = Vec::new();
    let mut i: usize = 0;
    while i < ids.len()
        invariant
            i <= ids@.len(),
            forall|i: int| 0 <= i < ids@.len() ==> st@.pgs.contains_key((#[trigger] ids@[i])@),
            out@.len() == i,
            forall|j: int| 0 <= j < i ==> (#[trigger] out@[j])@ == st@.pgs[ids@[j]@].group,
        decreases ids@.len() - i,
    {
        proof {
            assert(st@.pgs.contains_key(ids@[i as int]@));
        }
        let g = match st.pgs.get(ids[i].as_str()) {
            Some(a) => a.group.clone(),
            None => String::new(),
        };
        out.push(g);
        i += 1;
    }
    out
}

fn agent_groups_of(st: &State, ids: &Vec<String>) -> (r: Vec<String>)
    requires
        forall|i: int| 0 <= i < ids@.len() ==> st@.agents.contains_key((#[trigger] ids@[i])@),
    ensures
        r@.len() == ids@.len(),
        forall|i: int| 0 <= i < ids@.len() ==> (#[trigger] r@[i])@ == st@.agents[ids@[i]@].group,
{
    let mut out: Vec<String> = Vec::new();
    let mut i: usize = 0;
    while i < ids.len()
        invariant
            i <= ids@.len(),
            forall|i: int| 0 <= i < ids@.len() ==> st@.agents.contains_key((#[trigger] ids@[i])@),
            out@.len() == i,
            forall|j: int| 0 <= j < i ==> (#[trigger] out@[j])@ == st@.agents[ids@[j]@].group,
        decreases ids@.len() - i,
    {
        proof {
            assert(st@.agents.contains_key(ids@[i as int]@));
        }
        let g = match st.agents.get(ids[i].as_str()) {
            Some(a) => a.group.clone(),
            None => String::new(),
        };
        out.push(g);
        i += 1;
    }
    out
}

fn drop_refs(st: &mut State)
    ensures
        final(st)@ == (StateV {
            refs: Map::new(
                |k: Seq<char>|
                    old(st)@.refs.contains_key(k) && (old(st)@.refs[k].actor is None || old(
                        st,
                    )@.actors.contains_key(old(st)@.refs[k].actor->Some_0)),
                |k: Seq<char>| old(st)@.refs[k],
            ),
            ..old(st)@
        }),
{
    let ghost s = st@;
    let ghost was = st.refs@;
    let ghost want = Map::new(
        |k: Seq<char>|
            s.refs.contains_key(k) && (s.refs[k].actor is None || s.actors.contains_key(
                s.refs[k].actor->Some_0,
            )),
        |k: Seq<char>| s.refs[k],
    );
    let n: usize = st.refs.len();
    let ghost order = st.refs.order();
    let mut gone: Vec<String> = Vec::new();
    let mut i: usize = 0;
    proof {
        assert(texts(gone@) =~= Seq::<Seq<char>>::empty());
    }
    while i < n
        invariant
            i <= n,
            n == order.len(),
            order == st.refs.order(),
            lists(order, was.dom()),
            was == st.refs@,
            s == st@,
            texts(gone@) == those(
                order.take(i as int),
                |k: Seq<char>|
                    !(s.refs[k].actor is None || s.actors.contains_key(s.refs[k].actor->Some_0)),
            ),
        decreases n - i,
    {
        let r = st.refs.val_at(i);
        proof {
            assert(order.take(i + 1).drop_last() =~= order.take(i as int));
            assert(order.take(i + 1).last() == order[i as int]);
            assert(s.refs[order[i as int]] == r.deep_view());
        }
        let stays = match &r.actor {
            None => true,
            Some(a) => st.actors.contains(a.as_str()),
        };
        if !stays {
            let ghost had = gone@;
            gone.push(st.refs.key_at(i).clone());
            proof {
                assert(texts(gone@) =~= texts(had).push(order[i as int]));
            }
        }
        i += 1;
    }
    proof {
        assert(order.take(order.len() as int) =~= order);
        lemma_those(
            order,
            |k: Seq<char>|
                !(s.refs[k].actor is None || s.actors.contains_key(s.refs[k].actor->Some_0)),
        );
    }
    drop_keys(&mut st.refs, &gone);
    proof {
        assert forall|k: Seq<char>| #[trigger] st@.refs.contains_key(k) == want.contains_key(k) by {
            assert(was.dom().contains(k) == order.contains(k));
        }
        assert(st@.refs =~= want);
    }
}

fn add_touched(st: &State, groups: &Vec<String>, out: &mut Dict<()>)
    ensures
        forall|g: Seq<char>| #[trigger]
            final(out)@.contains_key(g) <==> old(out)@.contains_key(g) || (!mentioned(st@, g)
                && exists|i: int| 0 <= i < groups@.len() && (#[trigger] groups@[i])@ == g),
{
    let ghost start = out@;
    let mut i: usize = 0;
    while i < groups.len()
        invariant
            i <= groups@.len(),
            forall|g: Seq<char>| #[trigger]
                out@.contains_key(g) <==> start.contains_key(g) || (!mentioned(st@, g) && exists|
                    j: int,
                | 0 <= j < i && (#[trigger] groups@[j])@ == g),
        decreases groups@.len() - i,
    {
        let ghost had = out@;
        if !is_mentioned(st, groups[i].as_str()) {
            out.insert(groups[i].clone(), ());
        }
        proof {
            assert forall|g: Seq<char>| #[trigger]
                out@.contains_key(g) <==> start.contains_key(g) || (!mentioned(st@, g) && exists|
                    j: int,
                | 0 <= j < i + 1 && (#[trigger] groups@[j])@ == g) by {
                if had.contains_key(g) && !start.contains_key(g) {
                    let j = choose|j: int| 0 <= j < i && (#[trigger] groups@[j])@ == g;
                    assert(0 <= j < i + 1);
                }
                if g == groups@[i as int]@ && !mentioned(st@, g) {
                    assert(out@.contains_key(g));
                }
            }
        }
        i += 1;
    }
}

fn push_groups_gone(out: &mut Vec<Patch>, names: &Vec<String>)
    ensures
        patch_views(final(out)@) == patch_views(old(out)@) + groups_gone(texts(names@)),
{
    let ghost start = patch_views(out@);
    let ghost want = groups_gone(texts(names@));
    let mut i: usize = 0;
    proof {
        assert(start + want.take(0) =~= start);
    }
    while i < names.len()
        invariant
            i <= names@.len(),
            want == groups_gone(texts(names@)),
            patch_views(out@) == start + want.take(i as int),
        decreases names@.len() - i,
    {
        let ghost had = out@;
        let mut at: Vec<String> = Vec::new();
        at.push("groups".to_string());
        at.push(names[i].clone());
        proof {
            assert(texts(at@) =~= seq!["groups"@, names@[i as int]@]);
        }
        let p = Patch { at, value: None };
        let ghost pv = p.deep_view();
        out.push(p);
        proof {
            assert(patch_views(out@) =~= patch_views(had).push(pv));
            assert(want.take(i + 1) =~= want.take(i as int).push(want[i as int]));
            assert(patch_views(out@) =~= start + want.take(i + 1));
        }
        i += 1;
    }
    proof {
        assert(want.take(want.len() as int) =~= want);
    }
}

/// Drop the rows nobody can act on, once they are old enough: dead actors and
/// removed placement groups whose owner is gone, and agents past the give-up
/// threshold.
///
/// A dead actor's row is what turns its owner's next call into an error with
/// the reason, and a removed group's fail reason is read by its owner's ready
/// ref. Nobody else reads either. The age floor covers a daemon restart,
/// which rebuilds the tables from the agents before any driver reconnects.
pub fn sweep_history(st: &mut State, now: u64, keep: u64)
    ensures
        final(st)@ == history_swept(old(st)@, now, keep),
{
    let ghost s = st@;
    let actors = find_spent_actors(st, now, keep);
    let pgs = find_spent_pgs(st, now, keep);
    let agents = find_spent_agents(st, &actors, now, keep);
    if actors.len() == 0 && pgs.len() == 0 && agents.len() == 0 {
        return ;
    }
    let ghost (av, pv, gv) = (texts(actors@), texts(pgs@), texts(agents@));
    let actor_gs = actor_groups_of(st, &actors);
    let pg_gs = pg_groups_of(st, &pgs);
    let agent_gs = agent_groups_of(st, &agents);
    let mut patch: Vec<Patch> = Vec::new();
    push_gone(&mut patch, &actor_gs, "actors", &actors);
    push_gone(&mut patch, &pg_gs, "placement_groups", &pgs);
    push_gone(&mut patch, &agent_gs, "agents", &agents);
    proof {
        assert(patch_views(patch@) =~= actors_gone(s, av) + pgs_gone(s, pv) + agents_gone(s, gv));
    }
    drop_keys(&mut st.actors, &actors);
    drop_keys(&mut st.pgs, &pgs);
    drop_keys(&mut st.agents, &agents);
    drop_keys(&mut st.misfiled_warned, &agents);
    let ghost t = without(s, av, pv, gv);
    proof {
        assert(st@.actors =~= t.actors);
        assert(st@.pgs =~= t.pgs);
        assert(st@.agents =~= t.agents);
        assert(st@.misfiled_warned =~= t.misfiled_warned);
    }
    drop_refs(st);
    proof {
        assert(st@.refs =~= t.refs);
        assert(st@ =~= t);
    }
    let mut empty: Dict<()> = Dict::new();
    add_touched(st, &actor_gs, &mut empty);
    add_touched(st, &agent_gs, &mut empty);
    proof {
        let want = emptied(s, t, av, gv);
        assert forall|g: Seq<char>| #[trigger] empty@.dom().contains(g) == want.contains(g) by {
            if empty@.contains_key(g) {
                if exists|i: int| 0 <= i < actor_gs@.len() && (#[trigger] actor_gs@[i])@ == g {
                    let i = choose|i: int|
                        0 <= i < actor_gs@.len() && (#[trigger] actor_gs@[i])@ == g;
                    assert(s.actors[av[i]].group == g);
                } else {
                    let i = choose|i: int|
                        0 <= i < agent_gs@.len() && (#[trigger] agent_gs@[i])@ == g;
                    assert(s.agents[gv[i]].group == g);
                }
            }
            if want.contains(g) {
                if exists|i: int| 0 <= i < av.len() && s.actors[#[trigger] av[i]].group == g {
                    let i = choose|i: int|
                        0 <= i < av.len() && s.actors[#[trigger] av[i]].group == g;
                    assert(actor_gs@[i]@ == g);
                } else {
                    let i = choose|i: int|
                        0 <= i < gv.len() && s.agents[#[trigger] gv[i]].group == g;
                    assert(agent_gs@[i]@ == g);
                }
            }
        }
        assert(empty@.dom() =~= want);
    }
    let names = empty.keys();
    push_groups_gone(&mut patch, &names);
    let mut detail = "kept ".to_string();
    detail.append(dec(keep).as_str());
    detail.append(" ms");
    st.emit_patch("history_swept", patch, detail.as_str());
}

// ---------------------------------------------------------------------------
// One tick
// ---------------------------------------------------------------------------
/// The state after one tick of the lifecycle sweeper.
pub open spec fn swept(s: StateV, now: u64, limits: Limits) -> StateV {
    let a = StateV { refs: warned_refs(s.refs, now, limits.slow_call_warn_ms), ..s };
    let b = pgs_expired(a, overdue_pgs(a, now, limits.pg_pending_timeout_ms), now);
    let c = agents_aged(b, now, limits);
    history_swept(c, now, limits.history_keep_ms)
}

/// One tick of the lifecycle sweeper: slow-call warnings, the pending-group
/// timeout, the agents' windows, and the history sweep. Lists the calls to
/// warn of.
pub fn sweep_lifecycle(st: &mut State, now: u64, limits: &Limits) -> (r: Vec<String>)
    ensures
        final(st)@ == swept(old(st)@, now, *limits),
        texts(r@) == slow_calls(old(st)@, now, limits.slow_call_warn_ms),
{
    let slow = warn_slow_calls(st, now, limits.slow_call_warn_ms);
    expire_pgs(st, now, limits.pg_pending_timeout_ms);
    age_agents(st, now, limits);
    sweep_history(st, now, limits.history_keep_ms);
    slow
}

} // verus!
