//! Agents: registering, resuming, and what they report.

use vstd::prelude::*;
use vstd::string::*;

use crate::common::dict::{lemma_increasing_distinct, lists, ordered, those, Dict};
use crate::common::json::meaning;
use crate::common::text::{
    dec, dec_signed, decimal, listed, opt_text, parse_unsigned, rsplit_once, same, signed, split_last, texts, unsigned,
};
use crate::daemon::actors::{died, mark_actor_dead};
use crate::daemon::calls::{bump, next};
use crate::daemon::claims::{Refusal, RefusalV};
use crate::daemon::ident::{agent_node, agent_node_of, known_boxes, misfiled_node, misfiling};
use crate::daemon::place::{
    agent_change, copy_u32, placed, push_agent_patch, row_patch, row_set, try_place,
};
use crate::daemon::proto::{
    major_matches, shares_major, PROTO, Machine, MachineV, ResumeActor, ResumeV, Service,
    ServiceV,
};
use crate::daemon::sessions::{proto_refusal, refuse_proto};
use crate::daemon::state::{
    call_views, patch_views, ActorInfo, ActorState, ActorStateV, ActorV, AgentInfo, AgentV,
    Counters, Patch, PatchV, QueuedCall, QueuedCallV, RefInfo, RefState, RefStateV, RefV, State,
    StateV,
};
use crate::daemon::status::{actor_row, actor_row_of, agent_row, agent_row_of};
use crate::daemon::sweep::{all_died, mark_all_dead};

verus! {

broadcast use meaning;

// ---------------------------------------------------------------------------
// What an agent says
// ---------------------------------------------------------------------------
/// What an agent says when it registers.
#[derive(Debug)]
pub struct Register {
    pub proto: String,
    pub agent_id: String,
    pub group: String,
    /// Empty leaves the daemon to read the node off the connection.
    pub node_ip: String,
    pub machine: Machine,
    pub container: String,
    pub pid: u32,
    pub services: Dict<Service>,
    /// Actor processes still running from before.
    pub resume: Vec<ResumeActor>,
    /// Refs whose results the agent holds, and sends again after this.
    pub unacked_refs: Vec<String>,
}

/// Where and how an agent's registration came in.
#[derive(Debug)]
pub struct Arrival {
    /// The address it connected from.
    pub peer_ip: String,
    /// Every address of this box.
    pub mine: Vec<String>,
    /// The addresses this daemon announces.
    pub local: Vec<String>,
    /// The connection.
    pub link: u64,
}

/// Resumed actors as mathematical values.
pub open spec fn resume_views(v: Seq<ResumeActor>) -> Seq<ResumeV> {
    Seq::new(v.len(), |i: int| v[i].deep_view())
}

/// The ids of resumed actors.
pub open spec fn resumed_ids(v: Seq<ResumeV>) -> Seq<Seq<char>> {
    Seq::new(v.len(), |i: int| v[i].actor_id)
}

/// The refs of the calls that resumed actors still work on.
pub open spec fn pending_refs(v: Seq<ResumeV>) -> Seq<Seq<char>>
    decreases v.len(),
{
    if v.len() == 0 {
        Seq::empty()
    } else {
        pending_refs(v.drop_last()) + v.last().pending_refs
    }
}

// ---------------------------------------------------------------------------
// Enrolling
// ---------------------------------------------------------------------------
/// The row of an agent that registers.
pub open spec fn agent_enrolled(
    s: StateV,
    id: Seq<char>,
    group: Seq<char>,
    node: (Seq<char>, Seq<char>),
    machine: MachineV,
    container: Seq<char>,
    pid: u32,
    services: Map<Seq<char>, ServiceV>,
    link: u64,
) -> AgentV {
    AgentV {
        id,
        group,
        node_id: node.1,
        node_ip: node.0,
        machine,
        container,
        pid,
        services,
        link,
        alive: true,
        lost_at_ms: None,
        degraded: false,
        gone_since_ms: None,
        seq: s.next_seq,
    }
}

/// The state after an agent is enrolled, in place of what it was before.
pub open spec fn enrolled(s: StateV, a: AgentV) -> StateV {
    let t = StateV {
        agents: s.agents.insert(a.id, a),
        next_seq: next(s.next_seq),
        counters: Counters { agents_registered: next(s.counters.agents_registered), ..s.counters },
        ..s
    };
    t.emit(
        "agent_register"@,
        seq![row_set(a.group, "agents"@, a.id, agent_row_of(t, a))],
        Seq::empty(),
    )
}

fn enroll(st: &mut State, a: AgentInfo)
    requires
        a.seq == old(st)@.next_seq,
    ensures
        final(st)@ == enrolled(old(st)@, a.deep_view()),
{
    let ghost s = st@;
    let ghost av = a.deep_view();
    let id = a.id.clone();
    let group = a.group.clone();
    st.agents.insert(id.clone(), a);
    st.next_seq = bump(st.next_seq);
    st.counters.agents_registered = bump(st.counters.agents_registered);
    let ghost t = StateV {
        agents: s.agents.insert(av.id, av),
        next_seq: next(s.next_seq),
        counters: Counters { agents_registered: next(s.counters.agents_registered), ..s.counters },
        ..s
    };
    proof {
        assert(st@.agents =~= t.agents);
        assert(st@ =~= t);
        reveal_strlit("");
        assert(""@ =~= Seq::<char>::empty());
    }
    let mut patch: Vec<Patch> = Vec::new();
    if let Some(a) = st.agents.get(id.as_str()) {
        patch.push(row_patch(group.as_str(), "agents", id.as_str(), Some(agent_row(st, a))));
        proof {
            assert(a.deep_view() == t.agents[av.id]);
            assert(patch_views(patch@) =~= seq![
                row_set(av.group, "agents"@, av.id, agent_row_of(t, av)),
            ]);
        }
    }
    st.emit_patch("agent_register", patch, "");
}

// ---------------------------------------------------------------------------
// Resumed actors
// ---------------------------------------------------------------------------
/// Whether a resumed actor is to be killed: it is known here, and its owner is
/// gone or it was declared dead.
pub open spec fn rejected(s: StateV, id: Seq<char>) -> bool {
    s.actors.contains_key(id) && (!s.clients.contains_key(s.actors[id].owner)
        || s.actors[id].state is Dead)
}

/// The resumed actors that are to be killed.
pub open spec fn rejects(s: StateV, resume: Seq<ResumeV>) -> Seq<Seq<char>> {
    those(resumed_ids(resume), |k: Seq<char>| rejected(s, k))
}

/// A resumed actor as it is taken over.
pub open spec fn adoptee(
    r: ResumeV,
    group: Seq<char>,
    agent: Seq<char>,
    node_id: Seq<char>,
) -> ActorV {
    ActorV {
        id: r.actor_id,
        name: r.name,
        group,
        agent,
        node_id,
        gpu_ids: r.gpu_ids,
        owner: r.owner,
        state: ActorStateV::Running,
        pid: if r.pid != 0 {
            Some(r.pid)
        } else {
            None
        },
        queued_calls: Seq::empty(),
    }
}

/// The resumed actors that are taken over: those not known here. A daemon that
/// restarted has forgotten every actor, and killing them would kill every
/// model on the cluster because its own bookkeeping was lost.
pub open spec fn adoptees(
    s: StateV,
    resume: Seq<ResumeV>,
    group: Seq<char>,
    agent: Seq<char>,
    node_id: Seq<char>,
) -> Seq<ActorV>
    decreases resume.len(),
{
    if resume.len() == 0 {
        Seq::empty()
    } else {
        let had = adoptees(s, resume.drop_last(), group, agent, node_id);
        if s.actors.contains_key(resume.last().actor_id) {
            had
        } else {
            had.push(adoptee(resume.last(), group, agent, node_id))
        }
    }
}

/// The actors with some more stored under their ids.
pub open spec fn with_actors(m: Map<Seq<char>, ActorV>, v: Seq<ActorV>) -> Map<Seq<char>, ActorV>
    decreases v.len(),
{
    if v.len() == 0 {
        m
    } else {
        with_actors(m, v.drop_last()).insert(v.last().id, v.last())
    }
}

/// The rows of some actors of a group.
pub open spec fn adoptee_rows(group: Seq<char>, v: Seq<ActorV>) -> Seq<PatchV> {
    Seq::new(v.len(), |i: int| row_set(group, "actors"@, v[i].id, actor_row_of(v[i])))
}

/// The state after some actors were taken over.
pub open spec fn adopted(
    s: StateV,
    v: Seq<ActorV>,
    group: Seq<char>,
    agent: Seq<char>,
) -> StateV {
    if v.len() == 0 {
        s
    } else {
        let t = StateV { actors: with_actors(s.actors, v), ..s };
        t.emit(
            "actor_adopted"@,
            adoptee_rows(group, v) + agent_change(t, agent),
            Seq::empty(),
        )
    }
}

fn find_rejects(st: &State, resume: &Vec<ResumeActor>) -> (r: Vec<String>)
    ensures
        texts(r@) == rejects(st@, resume_views(resume@)),
{
    let ghost s = st@;
    let ghost all = resumed_ids(resume_views(resume@));
    let mut out: Vec<String> = Vec::new();
    let mut i: usize = 0;
    proof {
        assert(texts(out@) =~= Seq::<Seq<char>>::empty());
    }
    while i < resume.len()
        invariant
            i <= resume@.len(),
            s == st@,
            all == resumed_ids(resume_views(resume@)),
            texts(out@) == those(all.take(i as int), |k: Seq<char>| rejected(s, k)),
        decreases resume@.len() - i,
    {
        let id = resume[i].actor_id.as_str();
        proof {
            assert(all.take(i + 1).drop_last() =~= all.take(i as int));
            assert(all.take(i + 1).last() == id@);
        }
        let bad = match st.actors.get(id) {
            Some(a) => !st.clients.contains(a.owner.as_str()) || a.dead(),
            None => false,
        };
        if bad {
            let ghost was = out@;
            out.push(id.to_string());
            proof {
                assert(texts(out@) =~= texts(was).push(id@));
            }
        }
        i += 1;
    }
    proof {
        assert(all.take(all.len() as int) =~= all);
    }
    out
}

/// Actors as mathematical values.
pub open spec fn actor_views(v: Seq<ActorInfo>) -> Seq<ActorV> {
    Seq::new(v.len(), |i: int| v[i].deep_view())
}

fn find_adoptees(
    st: &State,
    resume: &Vec<ResumeActor>,
    group: &str,
    agent: &str,
    node_id: &str,
) -> (r: Vec<ActorInfo>)
    ensures
        actor_views(r@) == adoptees(st@, resume_views(resume@), group@, agent@, node_id@),
{
    let ghost all = resume_views(resume@);
    let mut out: Vec<ActorInfo> = Vec::new();
    let mut i: usize = 0;
    proof {
        assert(actor_views(out@) =~= Seq::<ActorV>::empty());
    }
    while i < resume.len()
        invariant
            i <= resume@.len(),
            all == resume_views(resume@),
            actor_views(out@) == adoptees(st@, all.take(i as int), group@, agent@, node_id@),
        decreases resume@.len() - i,
    {
        let r = &resume[i];
        proof {
            assert(all.take(i + 1).drop_last() =~= all.take(i as int));
            assert(all.take(i + 1).last() == r.deep_view());
        }
        if !st.actors.contains(r.actor_id.as_str()) {
            let a = ActorInfo {
                id: r.actor_id.clone(),
                name: r.name.clone(),
                group: group.to_string(),
                agent: agent.to_string(),
                node_id: node_id.to_string(),
                gpu_ids: copy_u32(&r.gpu_ids),
                owner: r.owner.clone(),
                state: ActorState::Running,
                pid: if r.pid != 0 {
                    Some(r.pid)
                } else {
                    None
                },
                queued_calls: Vec::new(),
            };
            let ghost av = a.deep_view();
            let ghost was = out@;
            out.push(a);
            proof {
                assert(av.queued_calls =~= Seq::<QueuedCallV>::empty());
                assert(actor_views(out@) =~= actor_views(was).push(av));
            }
        }
        i += 1;
    }
    proof {
        assert(all.take(all.len() as int) =~= all);
    }
    out
}

fn adopt(st: &mut State, found: Vec<ActorInfo>, group: &str, agent: &str)
    ensures
        final(st)@ == adopted(old(st)@, actor_views(found@), group@, agent@),
{
    if found.len() == 0 {
        return ;
    }
    let ghost s = st@;
    let ghost all = actor_views(found@);
    let n: usize = found.len();
    let mut left = found;
    let mut patch: Vec<Patch> = Vec::new();
    let mut i: usize = 0;
    let ghost rows = adoptee_rows(group@, all);
    proof {
        assert(patch_views(patch@) =~= rows.take(0));
        assert(all.skip(0) =~= all);
        assert(st@ == (StateV { actors: with_actors(s.actors, all.take(0)), ..s }));
    }
    while i < n
        invariant
            i <= n,
            n == all.len(),
            left@.len() == n - i,
            actor_views(left@) == all.skip(i as int),
            rows == adoptee_rows(group@, all),
            patch_views(patch@) == rows.take(i as int),
            st@ == (StateV { actors: with_actors(s.actors, all.take(i as int)), ..s }),
        decreases n - i,
    {
        let ghost before_left = left@;
        let a = left.remove(0);
        let ghost av = a.deep_view();
        proof {
            assert(actor_views(before_left)[0] == all[i as int]);
            assert(actor_views(left@) =~= all.skip(i + 1)) by {
                assert forall|j: int| 0 <= j < left@.len() implies actor_views(left@)[j] == all.skip(
                    i + 1,
                )[j] by {
                    assert(left@[j] == before_left[j + 1]);
                    assert(actor_views(before_left)[j + 1] == all.skip(i as int)[j + 1]);
                }
            }
            assert(all.take(i + 1).drop_last() =~= all.take(i as int));
            assert(all.take(i + 1).last() == av);
        }
        let ghost had = patch@;
        let p = row_patch(group, "actors", a.id.as_str(), Some(actor_row(&a)));
        let ghost pv = p.deep_view();
        patch.push(p);
        proof {
            assert(patch_views(patch@) =~= patch_views(had).push(pv));
            assert(rows.take(i + 1) =~= rows.take(i as int).push(rows[i as int]));
        }
        let ghost mid = st@.actors;
        let id = a.id.clone();
        st.actors.insert(id, a);
        proof {
            assert(st@.actors =~= mid.insert(av.id, av));
        }
        i += 1;
    }
    proof {
        assert(all.take(all.len() as int) =~= all);
        assert(rows.take(rows.len() as int) =~= rows);
        reveal_strlit("");
        assert(""@ =~= Seq::<char>::empty());
    }
    push_agent_patch(st, agent, &mut patch);
    st.emit_patch("actor_adopted", patch, "");
}

// ---------------------------------------------------------------------------
// Resumed refs
// ---------------------------------------------------------------------------
/// The count after a call of this number was seen: a new call must not be
/// handed the number of one still running.
pub open spec fn past(count: u64, n: Seq<char>) -> u64 {
    match unsigned(n) {
        Some(x) => if x <= u64::MAX && next(x as u64) > count {
            next(x as u64)
        } else {
            count
        },
        None => count,
    }
}

/// The state after a reported ref was taken over. A ref id contains its own
/// actor; one of an actor that this agent does not hold is not its to revive.
pub open spec fn ref_adopted(s: StateV, rid: Seq<char>, agent: Seq<char>, now: u64) -> StateV {
    if s.refs.contains_key(rid) {
        s
    } else {
        match split_last(rid, ':') {
            None => s,
            Some((actor, n)) => if s.actors.contains_key(actor) && s.actors[actor].agent == agent {
                StateV {
                    refs: s.refs.insert(
                        rid,
                        RefV {
                            state: RefStateV::Pending,
                            actor: Some(actor),
                            owner: s.actors[actor].owner,
                            method: Seq::empty(),
                            created_ms: now,
                            warned: false,
                        },
                    ),
                    next_ref: past(s.next_ref, n),
                    ..s
                }
            } else {
                s
            },
        }
    }
}

/// The state after some reported refs were taken over.
pub open spec fn refs_adopted(
    s: StateV,
    rids: Seq<Seq<char>>,
    agent: Seq<char>,
    now: u64,
) -> StateV
    decreases rids.len(),
{
    if rids.len() == 0 {
        s
    } else {
        ref_adopted(refs_adopted(s, rids.drop_last(), agent, now), rids.last(), agent, now)
    }
}

fn adopt_ref(st: &mut State, rid: &str, agent: &str, now: u64)
    ensures
        final(st)@ == ref_adopted(old(st)@, rid@, agent@, now),
{
    let ghost s = st@;
    if st.refs.contains(rid) {
        return ;
    }
    let (actor, n) = match rsplit_once(rid, ':') {
        Some(x) => x,
        None => return ,
    };
    let owner = match st.actors.get(actor) {
        Some(a) => {
            if !same(a.agent.as_str(), agent) {
                return ;
            }
            a.owner.clone()
        },
        None => return ,
    };
    if let Some(x) = parse_unsigned(n, 18446744073709551615) {
        let y: u64 = bump(x);
        if y > st.next_ref {
            st.next_ref = y;
        }
    }
    let method = String::new();
    proof {
        assert(method@ =~= Seq::<char>::empty());
    }
    let r = RefInfo {
        state: RefState::Pending,
        actor: Some(actor.to_string()),
        owner,
        method,
        created_ms: now,
        warned: false,
    };
    let ghost rv = r.deep_view();
    st.refs.insert(rid.to_string(), r);
    proof {
        assert(st@.refs =~= s.refs.insert(rid@, rv));
    }
}

fn adopt_refs(st: &mut State, rids: &Vec<String>, agent: &str, now: u64)
    ensures
        final(st)@ == refs_adopted(old(st)@, texts(rids@), agent@, now),
{
    let ghost s = st@;
    let ghost all = texts(rids@);
    let mut i: usize = 0;
    while i < rids.len()
        invariant
            i <= rids@.len(),
            all == texts(rids@),
            st@ == refs_adopted(s, all.take(i as int), agent@, now),
        decreases rids@.len() - i,
    {
        proof {
            assert(all.take(i + 1).drop_last() =~= all.take(i as int));
            assert(all.take(i + 1).last() == rids@[i as int]@);
        }
        adopt_ref(st, rids[i].as_str(), agent, now);
        i += 1;
    }
    proof {
        assert(all.take(all.len() as int) =~= all);
    }
}

fn reported_refs(resume: &Vec<ResumeActor>, unacked: &Vec<String>) -> (r: Vec<String>)
    ensures
        texts(r@) == pending_refs(resume_views(resume@)) + texts(unacked@),
{
    let ghost all = resume_views(resume@);
    let mut out: Vec<String> = Vec::new();
    let mut i: usize = 0;
    proof {
        assert(texts(out@) =~= Seq::<Seq<char>>::empty());
    }
    while i < resume.len()
        invariant
            i <= resume@.len(),
            all == resume_views(resume@),
            texts(out@) == pending_refs(all.take(i as int)),
        decreases resume@.len() - i,
    {
        let r = &resume[i];
        proof {
            assert(all.take(i + 1).drop_last() =~= all.take(i as int));
            assert(all.take(i + 1).last() == r.deep_view());
        }
        push_all(&mut out, &r.pending_refs);
        i += 1;
    }
    proof {
        assert(all.take(all.len() as int) =~= all);
    }
    push_all(&mut out, unacked);
    out
}

fn push_all(out: &mut Vec<String>, more: &Vec<String>)
    ensures
        texts(final(out)@) == texts(old(out)@) + texts(more@),
{
    let ghost start = out@;
    let mut i: usize = 0;
    while i < more.len()
        invariant
            i <= more@.len(),
            out@ == start + more@.take(i as int),
        decreases more@.len() - i,
    {
        out.push(more[i].clone());
        proof {
            assert(out@ =~= start + more@.take(i + 1));
        }
        i += 1;
    }
    proof {
        assert(texts(out@) =~= texts(start) + texts(more@));
    }
}

// ---------------------------------------------------------------------------
// What did not survive
// ---------------------------------------------------------------------------
/// The live actors of an agent that it no longer holds.
pub open spec fn missing_actors(
    s: StateV,
    agent: Seq<char>,
    resumed: Seq<Seq<char>>,
) -> Seq<Seq<char>> {
    those(
        ordered(s.actors.dom()),
        |k: Seq<char>|
            s.actors[k].agent == agent && !(s.actors[k].state is Dead) && !resumed.contains(k),
    )
}

fn find_missing(st: &State, agent: &str, resumed: &Vec<String>) -> (r: Vec<String>)
    ensures
        texts(r@) == missing_actors(st@, agent@, texts(resumed@)),
{
    let n: usize = st.actors.len();
    let ghost order = st.actors.order();
    let ghost s = st@;
    let ghost rv = texts(resumed@);
    let mut out: Vec<String> = Vec::new();
    let mut i: usize = 0;
    proof {
        assert(s.actors.dom() =~= st.actors@.dom());
        assert(texts(out@) =~= Seq::<Seq<char>>::empty());
    }
    while i < n
        invariant
            i <= n,
            n == order.len(),
            order == st.actors.order(),
            s == st@,
            rv == texts(resumed@),
            texts(out@) == those(
                order.take(i as int),
                |k: Seq<char>|
                    s.actors[k].agent == agent@ && !(s.actors[k].state is Dead) && !rv.contains(k),
            ),
        decreases n - i,
    {
        let a = st.actors.val_at(i);
        proof {
            assert(order.take(i + 1).drop_last() =~= order.take(i as int));
            assert(order.take(i + 1).last() == order[i as int]);
            assert(s.actors[order[i as int]] == a.deep_view());
        }
        if same(a.agent.as_str(), agent) && !a.dead() && !listed(
            resumed,
            st.actors.key_at(i).as_str(),
        ) {
            let ghost was = out@;
            out.push(st.actors.key_at(i).clone());
            proof {
                assert(texts(out@) =~= texts(was).push(order[i as int]));
            }
        }
        i += 1;
    }
    proof {
        assert(order.take(order.len() as int) =~= order);
    }
    out
}

/// Whether a call is held for an actor of an agent.
pub open spec fn call_held(s: StateV, agent: Seq<char>, rid: Seq<char>) -> bool {
    exists|k: Seq<char>| #[trigger]
        s.actors.contains_key(k) && s.actors[k].agent == agent && holds_call(
            s.actors[k].queued_calls,
            rid,
        )
}

/// Whether a call is among some held ones.
pub open spec fn holds_call(v: Seq<QueuedCallV>, rid: Seq<char>) -> bool {
    exists|i: int| 0 <= i < v.len() && (#[trigger] v[i]).ref_id == rid
}

/// Whether a pending call was lost while its agent's link was down: the agent
/// neither holds it nor has its result, and it is not held here.
pub open spec fn ref_lost(
    s: StateV,
    agent: Seq<char>,
    reported: Seq<Seq<char>>,
    rid: Seq<char>,
) -> bool {
    let r = s.refs[rid];
    &&& r.state is Pending
    &&& r.actor is Some
    &&& s.actors.contains_key(r.actor->Some_0)
    &&& s.actors[r.actor->Some_0].agent == agent
    &&& !reported.contains(rid)
    &&& !call_held(s, agent, rid)
}

/// The state after the calls that were lost are failed, so that the driver
/// raises instead of hanging forever.
pub open spec fn lost_failed(
    s: StateV,
    agent: Seq<char>,
    reported: Seq<Seq<char>>,
) -> StateV {
    StateV {
        refs: Map::new(
            |k: Seq<char>| s.refs.contains_key(k),
            |k: Seq<char>|
                if ref_lost(s, agent, reported, k) {
                    RefV {
                        state: RefStateV::ActorDied {
                            reason: "call lost while the agent link was down"@,
                        },
                        ..s.refs[k]
                    }
                } else {
                    s.refs[k]
                },
        ),
        ..s
    }
}

fn is_held(st: &State, agent: &str, rid: &str) -> (r: bool)
    ensures
        r == call_held(st@, agent@, rid@),
{
    let n: usize = st.actors.len();
    let ghost order = st.actors.order();
    let mut i: usize = 0;
    while i < n
        invariant
            i <= n,
            n == order.len(),
            order == st.actors.order(),
            lists(order, st.actors@.dom()),
            forall|j: int|
                0 <= j < i ==> !(st@.actors[#[trigger] order[j]].agent == agent@ && holds_call(
                    st@.actors[order[j]].queued_calls,
                    rid@,
                )),
        decreases n - i,
    {
        let a = st.actors.val_at(i);
        let ghost qv = call_views(a.queued_calls@);
        proof {
            assert(st@.actors[order[i as int]] == a.deep_view());
            assert(st@.actors.contains_key(order[i as int]));
        }
        if same(a.agent.as_str(), agent) {
            let mut j: usize = 0;
            while j < a.queued_calls.len()
                invariant
                    j <= a.queued_calls@.len(),
                    qv == call_views(a.queued_calls@),
                    a.deep_view().agent == agent@,
                    a.deep_view().queued_calls == qv,
                    i < n,
                    n == order.len(),
                    st@.actors.contains_key(order[i as int]),
                    st@.actors[order[i as int]] == a.deep_view(),
                    forall|m: int| 0 <= m < j ==> (#[trigger] qv[m]).ref_id != rid@,
                decreases a.queued_calls@.len() - j,
            {
                proof {
                    assert(qv[j as int] == a.queued_calls@[j as int].deep_view());
                }
                if same(a.queued_calls[j].ref_id.as_str(), rid) {
                    proof {
                        assert(holds_call(qv, rid@));
                    }
                    return true;
                }
                j += 1;
            }
        }
        i += 1;
    }
    proof {
        if call_held(st@, agent@, rid@) {
            let k = choose|k: Seq<char>| #[trigger]
                st@.actors.contains_key(k) && st@.actors[k].agent == agent@ && holds_call(
                    st@.actors[k].queued_calls,
                    rid@,
                );
            assert(st.actors@.dom().contains(k));
            let j = order.index_of(k);
            assert(order[j] == k);
        }
    }
    false
}

fn fail_lost(st: &mut State, agent: &str, reported: &Vec<String>)
    ensures
        final(st)@ == lost_failed(old(st)@, agent@, texts(reported@)),
{
    let ghost s = st@;
    let ghost was = st.refs@;
    let ghost rv = texts(reported@);
    let n: usize = st.refs.len();
    let ghost order = st.refs.order();
    let mut lost: Vec<bool> = Vec::new();
    let mut i: usize = 0;
    while i < n
        invariant
            i <= n,
            n == order.len(),
            order == st.refs.order(),
            lists(order, was.dom()),
            was == st.refs@,
            s == st@,
            rv == texts(reported@),
            lost@.len() == i,
            forall|j: int|
                0 <= j < i ==> #[trigger] lost@[j] == ref_lost(s, agent@, rv, order[j]),
        decreases n - i,
    {
        let r = st.refs.val_at(i);
        let id = st.refs.key_at(i).as_str();
        proof {
            assert(s.refs[order[i as int]] == r.deep_view());
        }
        let pending = match &r.state {
            RefState::Pending => true,
            _ => false,
        };
        let ours = match &r.actor {
            Some(a) => match st.actors.get(a.as_str()) {
                Some(x) => same(x.agent.as_str(), agent),
                None => false,
            },
            None => false,
        };
        let gone = pending && ours && !listed(reported, id) && !is_held(st, agent, id);
        lost.push(gone);
        i += 1;
    }
    let mut i: usize = 0;
    proof {
        assert(s.refs.dom() =~= was.dom());
    }
    while i < n
        invariant
            i <= n,
            n == order.len(),
            order == st.refs.order(),
            lists(order, was.dom()),
            lost@.len() == n,
            forall|j: int|
                0 <= j < n ==> #[trigger] lost@[j] == ref_lost(s, agent@, rv, order[j]),
            st@ == (StateV { refs: st@.refs, ..s }),
            st.refs@.dom() == was.dom(),
            s.refs.dom() == was.dom(),
            forall|k: Seq<char>| #[trigger]
                was.contains_key(k) ==> s.refs[k] == was[k].deep_view(),
            forall|j: int|
                0 <= j < i ==> st.refs@[#[trigger] order[j]].deep_view() == (if ref_lost(
                    s,
                    agent@,
                    rv,
                    order[j],
                ) {
                    RefV {
                        state: RefStateV::ActorDied {
                            reason: "call lost while the agent link was down"@,
                        },
                        ..s.refs[order[j]]
                    }
                } else {
                    s.refs[order[j]]
                }),
            forall|j: int| i <= j < n ==> st.refs@[#[trigger] order[j]] == was[order[j]],
        decreases n - i,
    {
        let ghost mid = st.refs@;
        let ghost key = order[i as int];
        proof {
            assert(order.contains(key));
            assert(was.dom().contains(key));
            assert(lost@[i as int] == ref_lost(s, agent@, rv, order[i as int]));
        }
        if lost[i] {
            let r = st.refs.val_at_mut(i);
            r.state =
            RefState::ActorDied { reason: "call lost while the agent link was down".to_string() };
        }
        proof {
            assert(st.refs@.dom() =~= was.dom());
            assert forall|j: int| 0 <= j < n && j != i implies st.refs@[#[trigger] order[j]]
                == mid[order[j]] by {
                if order[j] == key {
                    lemma_increasing_distinct(order, i as int, j);
                }
            }
        }
        i += 1;
    }
    proof {
        let want = lost_failed(s, agent@, rv).refs;
        assert forall|k: Seq<char>| #[trigger] want.contains_key(k) implies st@.refs[k]
            == want[k] by {
            assert(was.dom().contains(k));
            let j = order.index_of(k);
            assert(order[j] == k);
        }
        assert(st@.refs =~= want);
    }
}

// ---------------------------------------------------------------------------
// Held calls
// ---------------------------------------------------------------------------
/// The calls held for one actor, to be sent in the order they came.
#[derive(Debug)]
pub struct Drain {
    pub actor: String,
    pub calls: Vec<QueuedCall>,
}

/// A `Drain` as a mathematical value.
pub struct DrainV {
    pub actor: Seq<char>,
    pub calls: Seq<QueuedCallV>,
}

impl View for Drain {
    type V = DrainV;

    open spec fn view(&self) -> DrainV {
        DrainV { actor: self.actor@, calls: call_views(self.calls@) }
    }
}

/// Drains as mathematical values.
pub open spec fn drain_views(v: Seq<Drain>) -> Seq<DrainV> {
    Seq::new(v.len(), |i: int| v[i]@)
}

/// Whether an actor has calls to be sent to its agent.
pub open spec fn drains(a: ActorV, agent: Seq<char>) -> bool {
    a.agent == agent && !(a.state is Dead) && a.queued_calls.len() > 0
}

/// The held calls of an agent's live actors.
pub open spec fn held_calls(s: StateV, agent: Seq<char>) -> Seq<DrainV> {
    let ids = those(ordered(s.actors.dom()), |k: Seq<char>| drains(s.actors[k], agent));
    Seq::new(
        ids.len(),
        |i: int| DrainV { actor: ids[i], calls: s.actors[ids[i]].queued_calls },
    )
}

/// The state after the held calls of an agent's live actors were taken.
pub open spec fn drained(s: StateV, agent: Seq<char>) -> StateV {
    StateV {
        actors: Map::new(
            |k: Seq<char>| s.actors.contains_key(k),
            |k: Seq<char>|
                if drains(s.actors[k], agent) {
                    ActorV { queued_calls: Seq::empty(), ..s.actors[k] }
                } else {
                    s.actors[k]
                },
        ),
        ..s
    }
}

fn drain(st: &mut State, agent: &str) -> (r: Vec<Drain>)
    ensures
        final(st)@ == drained(old(st)@, agent@),
        drain_views(r@) == held_calls(old(st)@, agent@),
{
    let ghost s = st@;
    let ghost was = st.actors@;
    let n: usize = st.actors.len();
    let ghost order = st.actors.order();
    let mut out: Vec<Drain> = Vec::new();
    let ghost mut ids: Seq<Seq<char>> = Seq::empty();
    let mut i: usize = 0;
    proof {
        assert(s.actors.dom() =~= was.dom());
    }
    while i < n
        invariant
            i <= n,
            n == order.len(),
            order == st.actors.order(),
            lists(order, was.dom()),
            st@ == (StateV { actors: st@.actors, ..s }),
            st.actors@.dom() == was.dom(),
            s.actors.dom() == was.dom(),
            forall|k: Seq<char>| #[trigger]
                was.contains_key(k) ==> s.actors[k] == was[k].deep_view(),
            forall|j: int|
                0 <= j < i ==> st.actors@[#[trigger] order[j]].deep_view() == (if drains(
                    s.actors[order[j]],
                    agent@,
                ) {
                    ActorV { queued_calls: Seq::empty(), ..s.actors[order[j]] }
                } else {
                    s.actors[order[j]]
                }),
            forall|j: int| i <= j < n ==> st.actors@[#[trigger] order[j]] == was[order[j]],
            ids == those(order.take(i as int), |k: Seq<char>| drains(s.actors[k], agent@)),
            out@.len() == ids.len(),
            forall|j: int|
                0 <= j < out@.len() ==> (#[trigger] out@[j])@ == (DrainV {
                    actor: ids[j],
                    calls: s.actors[ids[j]].queued_calls,
                }),
        decreases n - i,
    {
        let ghost mid = st.actors@;
        let ghost key = order[i as int];
        proof {
            assert(order.contains(key));
            assert(was.dom().contains(key));
            assert(order.take(i + 1).drop_last() =~= order.take(i as int));
            assert(order.take(i + 1).last() == key);
        }
        let name = st.actors.key_at(i).clone();
        let a = st.actors.val_at_mut(i);
        let hit = same(a.agent.as_str(), agent) && !a.dead() && a.queued_calls.len() > 0;
        let mut calls: Vec<QueuedCall> = Vec::new();
        proof {
            assert(call_views(calls@) =~= Seq::<QueuedCallV>::empty());
        }
        if hit {
            std::mem::swap(&mut a.queued_calls, &mut calls);
        }
        if hit {
            let ghost had = out@;
            out.push(Drain { actor: name, calls });
            proof {
                ids = ids.push(key);
                assert forall|j: int| 0 <= j < out@.len() implies (#[trigger] out@[j])@ == (DrainV {
                    actor: ids[j],
                    calls: s.actors[ids[j]].queued_calls,
                }) by {
                    if j < had.len() {
                        assert(out@[j] == had[j]);
                    }
                }
            }
        }
        proof {
            assert(st.actors@.dom() =~= was.dom());
            assert forall|j: int| 0 <= j < n && j != i implies st.actors@[#[trigger] order[j]]
                == mid[order[j]] by {
                if order[j] == key {
                    lemma_increasing_distinct(order, i as int, j);
                }
            }
        }
        i += 1;
    }
    proof {
        assert(order.take(order.len() as int) =~= order);
        let want = drained(s, agent@).actors;
        assert forall|k: Seq<char>| #[trigger] want.contains_key(k) implies st@.actors[k]
            == want[k] by {
            assert(was.dom().contains(k));
            let j = order.index_of(k);
            assert(order[j] == k);
        }
        assert(st@.actors =~= want);
        assert(drain_views(out@) =~= held_calls(s, agent@));
    }
    out
}

// ---------------------------------------------------------------------------
// Registering
// ---------------------------------------------------------------------------
/// A frame for an agent.
#[derive(Debug, PartialEq, Eq)]
pub enum ToAgent {
    /// It is registered, under this node.
    RegisterOk { node_id: String },
    Kill { actor_id: String },
    Dispatch { actor_id: String, call: QueuedCall },
}

/// A `ToAgent` as a mathematical value.
pub enum ToAgentV {
    RegisterOk { node_id: Seq<char> },
    Kill { actor_id: Seq<char> },
    Dispatch { actor_id: Seq<char>, call: QueuedCallV },
}

impl View for ToAgent {
    type V = ToAgentV;

    open spec fn view(&self) -> ToAgentV {
        match self {
            ToAgent::RegisterOk { node_id } => ToAgentV::RegisterOk { node_id: node_id@ },
            ToAgent::Kill { actor_id } => ToAgentV::Kill { actor_id: actor_id@ },
            ToAgent::Dispatch { actor_id, call } => ToAgentV::Dispatch {
                actor_id: actor_id@,
                call: call.deep_view(),
            },
        }
    }
}

/// Frames as mathematical values.
pub open spec fn to_agent_views(v: Seq<ToAgent>) -> Seq<ToAgentV> {
    Seq::new(v.len(), |i: int| v[i]@)
}

/// The frames that end some actors.
pub open spec fn kill_frames(ids: Seq<Seq<char>>) -> Seq<ToAgentV> {
    Seq::new(ids.len(), |i: int| ToAgentV::Kill { actor_id: ids[i] })
}

/// The frames of one actor's held calls.
pub open spec fn call_frames(actor: Seq<char>, calls: Seq<QueuedCallV>) -> Seq<ToAgentV> {
    Seq::new(calls.len(), |i: int| ToAgentV::Dispatch { actor_id: actor, call: calls[i] })
}

/// The frames of held calls.
pub open spec fn drain_frames(v: Seq<DrainV>) -> Seq<ToAgentV>
    decreases v.len(),
{
    if v.len() == 0 {
        Seq::empty()
    } else {
        drain_frames(v.drop_last()) + call_frames(v.last().actor, v.last().calls)
    }
}

/// What an agent that is let in is sent. That it is registered comes first: the
/// agent's handshake takes no other frame. The actors to end follow, then the held
/// calls.
pub open spec fn welcome_frames(
    node_id: Seq<char>,
    kills: Seq<Seq<char>>,
    drains: Seq<DrainV>,
) -> Seq<ToAgentV> {
    seq![ToAgentV::RegisterOk { node_id }] + kill_frames(kills) + drain_frames(drains)
}

fn frame_calls(actor: &str, calls: Vec<QueuedCall>, out: &mut Vec<ToAgent>)
    ensures
        to_agent_views(final(out)@) == to_agent_views(old(out)@) + call_frames(
            actor@,
            call_views(calls@),
        ),
{
    let ghost start = to_agent_views(out@);
    let ghost all = call_views(calls@);
    let ghost mut done: int = 0;
    let mut left = calls;
    proof {
        assert(all.skip(0) =~= all);
        assert(start + call_frames(actor@, all.take(0)) =~= start);
    }
    while left.len() > 0
        invariant
            0 <= done <= all.len(),
            call_views(left@) == all.skip(done),
            to_agent_views(out@) == start + call_frames(actor@, all.take(done)),
        decreases left@.len(),
    {
        let ghost was = to_agent_views(out@);
        let ghost had = left@;
        proof {
            assert(call_views(had).len() == all.skip(done).len());
            assert(all.skip(done)[0] == all[done]);
        }
        let c = left.remove(0);
        let ghost cv = c.deep_view();
        proof {
            assert(cv == call_views(had)[0]);
            assert forall|i: int| 0 <= i < left@.len() implies #[trigger] call_views(left@)[i]
                == all.skip(done + 1)[i] by {
                assert(call_views(left@)[i] == call_views(had)[i + 1]);
                assert(all.skip(done)[i + 1] == all.skip(done + 1)[i]);
            }
            assert(call_views(left@) =~= all.skip(done + 1));
        }
        out.push(ToAgent::Dispatch { actor_id: actor.to_string(), call: c });
        proof {
            let f = ToAgentV::Dispatch { actor_id: actor@, call: cv };
            assert(to_agent_views(out@) =~= was.push(f));
            assert(to_agent_views(out@) =~= start + call_frames(actor@, all.take(done + 1)));
            done = done + 1;
        }
    }
    proof {
        assert(done == all.len());
        assert(all.take(done) =~= all);
    }
}

fn welcome(node_id: &str, kills: &Vec<String>, drains: Vec<Drain>) -> (r: Vec<ToAgent>)
    ensures
        to_agent_views(r@) == welcome_frames(node_id@, texts(kills@), drain_views(drains@)),
{
    let mut out: Vec<ToAgent> = Vec::new();
    out.push(ToAgent::RegisterOk { node_id: node_id.to_string() });
    let ghost ids = texts(kills@);
    let ghost first = to_agent_views(out@);
    let mut i: usize = 0;
    proof {
        assert(first =~= seq![ToAgentV::RegisterOk { node_id: node_id@ }]);
        assert(first + kill_frames(ids.take(0)) =~= first);
    }
    while i < kills.len()
        invariant
            i <= kills@.len(),
            ids == texts(kills@),
            to_agent_views(out@) == first + kill_frames(ids.take(i as int)),
        decreases kills@.len() - i,
    {
        let ghost was = to_agent_views(out@);
        out.push(ToAgent::Kill { actor_id: kills[i].clone() });
        proof {
            assert(to_agent_views(out@) =~= was.push(ToAgentV::Kill { actor_id: ids[i as int] }));
            assert(to_agent_views(out@) =~= first + kill_frames(ids.take(i + 1)));
        }
        i += 1;
    }
    let ghost head = to_agent_views(out@);
    let ghost all = drain_views(drains@);
    let ghost mut done: int = 0;
    let mut left = drains;
    proof {
        assert(ids.take(ids.len() as int) =~= ids);
        assert(all.skip(0) =~= all);
        assert(head + drain_frames(all.take(0)) =~= head);
    }
    while left.len() > 0
        invariant
            0 <= done <= all.len(),
            drain_views(left@) == all.skip(done),
            to_agent_views(out@) == head + drain_frames(all.take(done)),
        decreases left@.len(),
    {
        let ghost had = left@;
        proof {
            assert(drain_views(had).len() == all.skip(done).len());
            assert(all.skip(done)[0] == all[done]);
        }
        let d = left.remove(0);
        let ghost dv = d@;
        proof {
            assert(dv == drain_views(had)[0]);
            assert forall|i: int| 0 <= i < left@.len() implies #[trigger] drain_views(left@)[i]
                == all.skip(done + 1)[i] by {
                assert(drain_views(left@)[i] == drain_views(had)[i + 1]);
                assert(all.skip(done)[i + 1] == all.skip(done + 1)[i]);
            }
            assert(drain_views(left@) =~= all.skip(done + 1));
            assert(all.take(done + 1).drop_last() =~= all.take(done));
            assert(all.take(done + 1).last() == dv);
        }
        let Drain { actor, calls } = d;
        frame_calls(actor.as_str(), calls, &mut out);
        proof {
            assert(to_agent_views(out@) =~= head + (drain_frames(all.take(done)) + call_frames(
                dv.actor,
                dv.calls,
            )));
            done = done + 1;
        }
    }
    proof {
        assert(done == all.len());
        assert(all.take(done) =~= all);
    }
    out
}

/// What comes of an agent that is let in: the frames it is sent, in order, the
/// connection it had before, which is closed, and what its operator is told.
#[derive(Debug)]
pub struct Registered {
    pub frames: Vec<ToAgent>,
    pub replaced: Option<u64>,
    /// Advice that was not given before.
    pub advice: Option<String>,
}

/// A `Registered` as a mathematical value.
pub struct RegisteredV {
    pub frames: Seq<ToAgentV>,
    pub replaced: Option<u64>,
    pub advice: Option<Seq<char>>,
}

impl View for Registered {
    type V = RegisteredV;

    open spec fn view(&self) -> RegisteredV {
        RegisteredV {
            frames: to_agent_views(self.frames@),
            replaced: self.replaced,
            advice: opt_text(self.advice),
        }
    }
}

/// Why an agent is refused, if it is.
pub open spec fn register_refusal(reg: Register) -> Option<RefusalV> {
    if !shares_major(PROTO@, reg.proto@) {
        Some(proto_refusal(reg.proto@))
    } else {
        None
    }
}

/// What is to be said of an agent that claims an address of a box the mesh files
/// under another node: its GPUs land where no island reaches. It is advice only. A
/// refusal would stop a deployment that is running, badly, and which address to
/// use is the operator's to correct.
pub open spec fn misfiled_advice(s: StateV, reg: Register, from: Arrival) -> Option<Seq<char>> {
    let node = agent_node_of(s, reg.node_ip@, from.peer_ip@, texts(from.mine@));
    match misfiling(
        node.0,
        node.1,
        known_boxes(s, texts(from.local@), ordered(s.peers.dom())),
    ) {
        Some(why) => Some("agent "@ + reg.agent_id@ + " "@ + why),
        None => None,
    }
}

/// The state after it is noted that an agent was advised, so that it is told once.
pub open spec fn advised(s: StateV, reg: Register, from: Arrival) -> StateV {
    if misfiled_advice(s, reg, from) is Some {
        StateV { misfiled_warned: s.misfiled_warned.insert(reg.agent_id@), ..s }
    } else {
        s
    }
}

/// The state after an agent was let in: enrolled, its unknown actors and refs
/// taken over, what it no longer holds failed, and its held calls taken.
pub open spec fn let_in(
    s: StateV,
    reg: Register,
    from: Arrival,
    now: u64,
    by_island: bool,
) -> (StateV, RegisteredV) {
    let id = reg.agent_id@;
    let group = reg.group@;
    let resume = resume_views(reg.resume@);
    let node = agent_node_of(s, reg.node_ip@, from.peer_ip@, texts(from.mine@));
    let s1 = advised(s, reg, from);
    let a = enrolled(
        s1,
        agent_enrolled(
            s1,
            id,
            group,
            node,
            reg.machine.deep_view(),
            reg.container@,
            reg.pid,
            reg.services.deep_view(),
            from.link,
        ),
    );
    let b = adopted(a, adoptees(a, resume, group, id, node.1), group, id);
    let reported = pending_refs(resume) + texts(reg.unacked_refs@);
    let c = refs_adopted(b, reported, id, now);
    let d = all_died(
        c,
        missing_actors(c, id, resumed_ids(resume)),
        "agent reconnected without this actor"@,
        now,
        by_island,
    );
    let e = lost_failed(d, id, reported);
    (
        placed(drained(e, id), by_island),
        RegisteredV {
            frames: welcome_frames(node.1, rejects(a, resume), held_calls(e, id)),
            replaced: if s.agents.contains_key(id) {
                Some(s.agents[id].link)
            } else {
                None
            },
            advice: if s.misfiled_warned.contains(id) {
                None
            } else {
                misfiled_advice(s, reg, from)
            },
        },
    )
}

fn ids_of(resume: &Vec<ResumeActor>) -> (r: Vec<String>)
    ensures
        texts(r@) == resumed_ids(resume_views(resume@)),
{
    let mut out: Vec<String> = Vec::new();
    let mut i: usize = 0;
    while i < resume.len()
        invariant
            i <= resume@.len(),
            out@.len() == i,
            forall|j: int| 0 <= j < i ==> (#[trigger] out@[j])@ == resume@[j].actor_id@,
        decreases resume@.len() - i,
    {
        out.push(resume[i].actor_id.clone());
        i += 1;
    }
    proof {
        assert(texts(out@) =~= resumed_ids(resume_views(resume@)));
    }
    out
}

/// Registers an agent, or refuses one that speaks another protocol.
///
/// Registering again replaces the previous connection outright. The resume
/// list is authoritative for what survived on the agent's side: an actor this
/// daemon thinks is live but the agent no longer holds is dead, and one it
/// does not know is taken over from what the agent reports.
pub fn agent_register(st: &mut State, reg: Register, from: &Arrival, now: u64, by_island: bool) -> (r:
    Result<Registered, Refusal>)
    ensures
        match r {
            Ok(w) => register_refusal(reg) is None && (final(st)@, w@) == let_in(
                old(st)@,
                reg,
                *from,
                now,
                by_island,
            ),
            Err(e) => register_refusal(reg) == Some(e@) && final(st)@ == old(st)@,
        },
{
    let ghost s = st@;
    if !major_matches(reg.proto.as_str()) {
        return Err(refuse_proto(reg.proto.as_str()));
    }
    let (node_ip, node_id) = agent_node(
        st,
        reg.node_ip.as_str(),
        from.peer_ip.as_str(),
        &from.mine,
    );
    let known = st.misfiled_warned.contains(reg.agent_id.as_str());
    let mut advice: Option<String> = None;
    if let Some(why) = misfiled_node(st, node_ip.as_str(), node_id.as_str(), &from.local) {
        st.misfiled_warned.insert(reg.agent_id.clone(), ());
        if !known {
            let mut said = "agent ".to_string();
            said.append(reg.agent_id.as_str());
            said.append(" ");
            said.append(why.as_str());
            advice = Some(said);
        }
    }
    proof {
        assert(st@.misfiled_warned =~= advised(s, reg, *from).misfiled_warned);
        assert(st@ == advised(s, reg, *from));
    }
    let replaced: Option<u64> = match st.agents.get(reg.agent_id.as_str()) {
        Some(a) => Some(a.link),
        None => None,
    };
    let Register {
        proto: _,
        agent_id,
        group,
        node_ip: _,
        machine,
        container,
        pid,
        services,
        resume,
        unacked_refs,
    } = reg;
    let row = AgentInfo {
        id: agent_id.clone(),
        group: group.clone(),
        node_id: node_id.clone(),
        node_ip,
        machine,
        container,
        pid,
        services,
        link: from.link,
        alive: true,
        lost_at_ms: None,
        degraded: false,
        gone_since_ms: None,
        seq: st.next_seq,
    };
    enroll(st, row);
    let kills = find_rejects(st, &resume);
    let found = find_adoptees(
        st,
        &resume,
        group.as_str(),
        agent_id.as_str(),
        node_id.as_str(),
    );
    adopt(st, found, group.as_str(), agent_id.as_str());
    let reported = reported_refs(&resume, &unacked_refs);
    adopt_refs(st, &reported, agent_id.as_str(), now);
    let resumed = ids_of(&resume);
    let missing = find_missing(st, agent_id.as_str(), &resumed);
    mark_all_dead(st, &missing, "agent reconnected without this actor", now, by_island);
    fail_lost(st, agent_id.as_str(), &reported);
    let drains = drain(st, agent_id.as_str());
    try_place(st, by_island);
    Ok(Registered { frames: welcome(node_id.as_str(), &kills, drains), replaced, advice })
}

// ---------------------------------------------------------------------------
// What an agent reports
// ---------------------------------------------------------------------------
/// An actor's row after its spawn was reported.
pub open spec fn spawned_row(a: ActorV, ok: bool, pid: u32) -> ActorV {
    ActorV {
        pid: if pid != 0 {
            Some(pid)
        } else {
            a.pid
        },
        state: if ok && a.state is Spawning {
            ActorStateV::Running
        } else {
            a.state
        },
        ..a
    }
}

/// The state after an actor's spawn was reported.
pub open spec fn spawn_told(
    s: StateV,
    id: Seq<char>,
    ok: bool,
    error: Seq<char>,
    pid: u32,
    now: u64,
    by_island: bool,
) -> StateV {
    let t = if s.actors.contains_key(id) {
        StateV { actors: s.actors.insert(id, spawned_row(s.actors[id], ok, pid)), ..s }
    } else {
        s
    };
    if !ok {
        died(t, id, "spawn failed: "@ + error, now, by_island)
    } else if t.actors.contains_key(id) {
        t.emit(
            "actor_running"@,
            seq![row_set(t.actors[id].group, "actors"@, id, actor_row_of(t.actors[id]))],
            Seq::empty(),
        )
    } else {
        t
    }
}

/// An agent reports how the spawn of an actor went, and its process id, which
/// is 0 when the process never started.
pub fn spawn_result(
    st: &mut State,
    id: &str,
    ok: bool,
    error: &str,
    pid: u32,
    now: u64,
    by_island: bool,
)
    ensures
        final(st)@ == spawn_told(old(st)@, id@, ok, error@, pid, now, by_island),
{
    let ghost s = st@;
    let known = st.actors.contains(id);
    if let Some(a) = st.actors.get_mut(id) {
        if pid != 0 {
            a.pid = Some(pid);
        }
        let spawning = match &a.state {
            ActorState::Spawning => true,
            _ => false,
        };
        if ok && spawning {
            a.state = ActorState::Running;
        }
    }
    let ghost t = if s.actors.contains_key(id@) {
        StateV { actors: s.actors.insert(id@, spawned_row(s.actors[id@], ok, pid)), ..s }
    } else {
        s
    };
    proof {
        assert(st@.actors =~= t.actors);
        assert(st@ =~= t);
    }
    if !ok {
        let mut reason = "spawn failed: ".to_string();
        reason.append(error);
        mark_actor_dead(st, id, reason.as_str(), now, by_island);
        return ;
    }
    if known {
        let mut patch: Vec<Patch> = Vec::new();
        if let Some(a) = st.actors.get(id) {
            patch.push(row_patch(a.group.as_str(), "actors", id, Some(actor_row(a))));
            proof {
                assert(a.deep_view() == t.actors[id@]);
                assert(patch_views(patch@) =~= seq![
                    row_set(t.actors[id@].group, "actors"@, id@, actor_row_of(t.actors[id@])),
                ]);
            }
        }
        proof {
            reveal_strlit("");
            assert(""@ =~= Seq::<char>::empty());
        }
        st.emit_patch("actor_running", patch, "");
    }
}

/// The state after a call's result came in. The first resolution wins: a
/// result sent again after an outage must not overwrite a ref the driver may
/// already have seen fail. One with an error and no payload never reached the
/// actor.
pub open spec fn result_told(
    s: StateV,
    rid: Seq<char>,
    ok: bool,
    error: Seq<char>,
    payload: Seq<u8>,
) -> StateV {
    if s.refs.contains_key(rid) && s.refs[rid].state is Pending {
        let state = if !ok && payload.len() == 0 && error.len() > 0 {
            RefStateV::ActorDied { reason: error }
        } else {
            RefStateV::Ready { ok, payload }
        };
        StateV { refs: s.refs.insert(rid, RefV { state, ..s.refs[rid] }), ..s }
    } else {
        s
    }
}

/// An agent reports a call's result.
pub fn actor_result(st: &mut State, rid: &str, ok: bool, error: String, payload: Vec<u8>)
    ensures
        final(st)@ == result_told(old(st)@, rid@, ok, error@, payload@),
{
    let ghost s = st@;
    let ghost ev = error@;
    let ghost pv = payload@;
    if let Some(r) = st.refs.get_mut(rid) {
        let pending = match &r.state {
            RefState::Pending => true,
            _ => false,
        };
        if pending {
            if !ok && payload.len() == 0 && !error.as_str().is_empty() {
                r.state = RefState::ActorDied { reason: error };
            } else {
                r.state = RefState::Ready { ok, payload };
            }
        }
    }
    proof {
        assert(st@.refs =~= result_told(s, rid@, ok, ev, pv).refs);
        assert(st@ =~= result_told(s, rid@, ok, ev, pv));
    }
}

/// A number, or that there is none.
pub open spec fn or_none(n: Option<i32>) -> Seq<char> {
    match n {
        Some(x) => signed(x as int),
        None => "none"@,
    }
}

/// Why an actor whose process exited is dead.
pub open spec fn exit_reason(exit_code: Option<i32>, signal: Option<i32>) -> Seq<char> {
    "actor process exited (exit_code="@ + or_none(exit_code) + " signal="@ + or_none(signal) + ")"@
}

/// The counters after an actor's process exited.
pub open spec fn exit_counted(c: Counters, exit_code: Option<i32>, signal: Option<i32>) -> Counters {
    if exit_code == Some(0i32) {
        Counters { actor_exits_clean: next(c.actor_exits_clean), ..c }
    } else if signal is Some {
        Counters { actor_exits_signal: next(c.actor_exits_signal), ..c }
    } else {
        Counters { actor_exits_error: next(c.actor_exits_error), ..c }
    }
}

fn none_or(n: Option<i32>) -> (r: String)
    ensures
        r@ == or_none(n),
{
    match n {
        Some(x) => dec_signed(x as i64),
        None => "none".to_string(),
    }
}

/// An agent reports that an actor's process exited.
pub fn actor_exit(
    st: &mut State,
    id: &str,
    exit_code: Option<i32>,
    signal: Option<i32>,
    now: u64,
    by_island: bool,
)
    ensures
        final(st)@ == died(
            (StateV { counters: exit_counted(old(st)@.counters, exit_code, signal), ..old(st)@ }),
            id@,
            exit_reason(exit_code, signal),
            now,
            by_island,
        ),
{
    let clean = match exit_code {
        Some(c) => c == 0,
        None => false,
    };
    if clean {
        st.counters.actor_exits_clean = bump(st.counters.actor_exits_clean);
    } else if signal.is_some() {
        st.counters.actor_exits_signal = bump(st.counters.actor_exits_signal);
    } else {
        st.counters.actor_exits_error = bump(st.counters.actor_exits_error);
    }
    let mut reason = "actor process exited (exit_code=".to_string();
    reason.append(none_or(exit_code).as_str());
    reason.append(" signal=");
    reason.append(none_or(signal).as_str());
    reason.append(")");
    mark_actor_dead(st, id, reason.as_str(), now, by_island);
}

/// The state after an agent's finding about one of its services came in. The
/// note reaches the router through the agent's row.
pub open spec fn note_told(
    s: StateV,
    agent: Seq<char>,
    service: Seq<char>,
    note: Seq<char>,
) -> StateV {
    if s.agents.contains_key(agent) && s.agents[agent].services.contains_key(service) {
        let a = s.agents[agent];
        let b = AgentV {
            services: a.services.insert(service, ServiceV { note, ..a.services[service] }),
            ..a
        };
        let t = StateV { agents: s.agents.insert(agent, b), ..s };
        t.emit("service_note"@, agent_change(t, agent), service)
    } else {
        s
    }
}

/// An agent reports a finding about a service it announced.
pub fn service_note(st: &mut State, agent: &str, service: &str, note: String)
    ensures
        final(st)@ == note_told(old(st)@, agent@, service@, note@),
{
    let ghost s = st@;
    let ghost nv = note@;
    let known = match st.agents.get(agent) {
        Some(a) => a.services.contains(service),
        None => false,
    };
    if !known {
        return ;
    }
    let ghost a0 = s.agents[agent@];
    let ghost b = AgentV {
        services: a0.services.insert(service@, ServiceV { note: nv, ..a0.services[service@] }),
        ..a0
    };
    let ghost t = StateV { agents: s.agents.insert(agent@, b), ..s };
    if let Some(a) = st.agents.get_mut(agent) {
        if let Some(x) = a.services.get_mut(service) {
            x.note = note;
        }
        proof {
            assert(a.services.deep_view() =~= b.services);
        }
    }
    proof {
        assert(st@.agents =~= t.agents);
        assert(st@ =~= t);
    }
    let mut patch: Vec<Patch> = Vec::new();
    proof {
        let c = agent_change(st@, agent@);
        assert(patch_views(patch@) + c =~= c);
    }
    push_agent_patch(st, agent, &mut patch);
    st.emit_patch("service_note", patch, service);
}

/// The state after an agent's link was lost. A link blip and a dead container
/// look identical here, so a window opens instead of death being declared. A
/// connection that a new registration has replaced changes nothing.
pub open spec fn link_gone(
    s: StateV,
    agent: Seq<char>,
    link: u64,
    now: u64,
    dead_after_ms: u64,
) -> StateV {
    if s.agents.contains_key(agent) && s.agents[agent].link == link {
        let a = AgentV {
            alive: false,
            lost_at_ms: Some(now),
            gone_since_ms: Some(now),
            degraded: false,
            ..s.agents[agent]
        };
        let t = StateV { agents: s.agents.insert(agent, a), ..s };
        t.emit(
            "agent_lost"@,
            agent_change(t, agent),
            "degrade window "@ + decimal(dead_after_ms as nat) + " ms"@,
        )
    } else {
        s
    }
}

/// An agent's connection is gone.
pub fn link_lost(st: &mut State, agent: &str, link: u64, now: u64, dead_after_ms: u64)
    ensures
        final(st)@ == link_gone(old(st)@, agent@, link, now, dead_after_ms),
{
    let ghost s = st@;
    let owned = match st.agents.get(agent) {
        Some(a) => a.link == link,
        None => false,
    };
    if !owned {
        return ;
    }
    let ghost b = AgentV {
        alive: false,
        lost_at_ms: Some(now),
        gone_since_ms: Some(now),
        degraded: false,
        ..s.agents[agent@]
    };
    let ghost t = StateV { agents: s.agents.insert(agent@, b), ..s };
    if let Some(a) = st.agents.get_mut(agent) {
        a.alive = false;
        a.lost_at_ms = Some(now);
        a.gone_since_ms = Some(now);
        a.degraded = false;
    }
    proof {
        assert(st@.agents =~= t.agents);
        assert(st@ =~= t);
    }
    let mut patch: Vec<Patch> = Vec::new();
    proof {
        let c = agent_change(st@, agent@);
        assert(patch_views(patch@) + c =~= c);
    }
    push_agent_patch(st, agent, &mut patch);
    let mut detail = "degrade window ".to_string();
    detail.append(dec(dead_after_ms).as_str());
    detail.append(" ms");
    st.emit_patch("agent_lost", patch, detail.as_str());
}

} // verus!
