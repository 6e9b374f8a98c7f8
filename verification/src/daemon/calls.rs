//! What a client asks of its actors and placement groups.

use vstd::prelude::*;
use vstd::string::*;

use crate::common::dict::{lists, ordered, Dict};
use crate::common::json::{meaning, put, Json, JsonV};
use crate::common::text::{dec, decimal, join, joined, same, texts};
use crate::daemon::actors::{died, mark_actor_dead, reachable};
use crate::daemon::place::{
    agent_patches, copy_u32, pg_agent_changes, placed, row_patch, row_set, try_place,
};
use crate::daemon::state::{
    bundle_views, call_views, opt_bundle, patch_views, ActorInfo, ActorState, ActorStateV, ActorV,
    AgentV, BundleAssignment, BundleV, Counters, Patch, PgInfo, PgState, PgV, QueuedCall,
    QueuedCallV, RefInfo, RefState, RefStateV, RefV, State, StateV,
};
use crate::daemon::status::{
    actor_row, actor_row_of, capped, counts, pg_row, pg_row_of, pg_state, pg_state_name,
};

verus! {

broadcast use meaning;

/// The count after one more.
pub open spec fn next(n: u64) -> u64 {
    if n < u64::MAX {
        (n + 1) as u64
    } else {
        n
    }
}

/// The count after one more.
pub fn bump(n: u64) -> (r: u64)
    ensures
        r == next(n),
{
    if n < u64::MAX {
        n + 1
    } else {
        n
    }
}

/// The group a client belongs to.
pub open spec fn group_of(s: StateV, client: Seq<char>) -> Seq<char> {
    if s.clients.contains_key(client) {
        s.clients[client].group
    } else {
        "default"@
    }
}

/// The group a client belongs to.
pub fn client_group(st: &State, client: &str) -> (r: String)
    ensures
        r@ == group_of(st@, client@),
{
    match st.clients.get(client) {
        Some(c) => c.group.clone(),
        None => "default".to_string(),
    }
}

// ---------------------------------------------------------------------------
// Calls
// ---------------------------------------------------------------------------
/// The id of a call's ref: the actor's, and the number of the call.
pub open spec fn ref_name(actor: Seq<char>, n: u64) -> Seq<char> {
    actor + ":"@ + decimal(n as nat)
}

/// What comes of a call.
#[derive(Debug)]
pub enum CallStep {
    /// There is no such actor.
    NoActor { error: String },
    /// The ref is there, and nothing is to be sent now.
    Recorded { ref_id: String },
    /// The ref is there, and the call is to be sent over this connection.
    Send { ref_id: String, link: u64 },
}

/// A `CallStep` as a mathematical value.
pub enum CallV {
    NoActor { error: Seq<char> },
    Recorded { ref_id: Seq<char> },
    Send { ref_id: Seq<char>, link: u64 },
}

impl View for CallStep {
    type V = CallV;

    open spec fn view(&self) -> CallV {
        match self {
            CallStep::NoActor { error } => CallV::NoActor { error: error@ },
            CallStep::Recorded { ref_id } => CallV::Recorded { ref_id: ref_id@ },
            CallStep::Send { ref_id, link } => CallV::Send { ref_id: ref_id@, link: *link },
        }
    }
}

/// A call's ref.
pub open spec fn call_ref(
    state: RefStateV,
    actor: Seq<char>,
    client: Seq<char>,
    method: Seq<char>,
    now: u64,
) -> RefV {
    RefV { state, actor: Some(actor), owner: client, method, created_ms: now, warned: false }
}

/// The state after a call is held for an actor.
pub open spec fn holding(s: StateV, actor: Seq<char>, call: QueuedCallV) -> StateV {
    if s.actors.contains_key(actor) {
        let a = s.actors[actor];
        StateV {
            actors: s.actors.insert(
                actor,
                ActorV { queued_calls: a.queued_calls.push(call), ..a },
            ),
            ..s
        }
    } else {
        s
    }
}

/// The state after a call is counted and its number taken.
pub open spec fn numbered(s: StateV) -> StateV {
    StateV {
        counters: Counters { calls_total: next(s.counters.calls_total), ..s.counters },
        next_ref: next(s.next_ref),
        ..s
    }
}

/// What comes of a call, and the state after it. A dead actor's call resolves
/// at once with the reason. A call to an agent whose link is down is held, and
/// sent in order when the agent registers again.
pub open spec fn called(
    s: StateV,
    client: Seq<char>,
    actor: Seq<char>,
    method: Seq<char>,
    payload: Seq<u8>,
    now: u64,
) -> (StateV, CallV) {
    let t = numbered(s);
    let id = ref_name(actor, s.next_ref);
    if !s.actors.contains_key(actor) {
        (t, CallV::NoActor { error: "no such actor "@ + actor })
    } else {
        let a = s.actors[actor];
        match a.state {
            ActorStateV::Dead { reason, .. } => (
                StateV {
                    refs: s.refs.insert(
                        id,
                        call_ref(RefStateV::ActorDied { reason }, actor, client, method, now),
                    ),
                    ..t
                },
                CallV::Recorded { ref_id: id },
            ),
            _ => if !s.agents.contains_key(a.agent) {
                (
                    StateV {
                        refs: s.refs.insert(
                            id,
                            call_ref(
                                RefStateV::ActorDied {
                                    reason: "agent "@ + a.agent + " is not registered"@,
                                },
                                actor,
                                client,
                                method,
                                now,
                            ),
                        ),
                        ..t
                    },
                    CallV::Recorded { ref_id: id },
                )
            } else {
                let u = StateV {
                    refs: s.refs.insert(
                        id,
                        call_ref(RefStateV::Pending, actor, client, method, now),
                    ),
                    ..t
                };
                if s.agents[a.agent].alive {
                    (u, CallV::Send { ref_id: id, link: s.agents[a.agent].link })
                } else {
                    (
                        holding(u, actor, QueuedCallV { ref_id: id, method, payload }),
                        CallV::Recorded { ref_id: id },
                    )
                }
            },
        }
    }
}

/// Holds a call for an actor until its agent can take it.
pub fn hold_call(st: &mut State, actor: &str, ref_id: String, method: String, payload: Vec<u8>)
    ensures
        final(st)@ == holding(
            old(st)@,
            actor@,
            (QueuedCallV { ref_id: ref_id@, method: method@, payload: payload@ }),
        ),
{
    let ghost s = st@;
    let call = QueuedCall { ref_id, method, payload };
    let ghost cv = call.deep_view();
    let known = st.actors.contains(actor);
    if let Some(a) = st.actors.get_mut(actor) {
        let ghost was = a.queued_calls@;
        a.queued_calls.push(call);
        proof {
            assert(call_views(a.queued_calls@) =~= call_views(was).push(cv));
        }
    }
    proof {
        if known {
            let a = s.actors[actor@];
            assert(st@.actors =~= s.actors.insert(
                actor@,
                ActorV { queued_calls: a.queued_calls.push(cv), ..a },
            ));
        } else {
            assert(st@ =~= s);
        }
    }
}

fn add_ref(
    st: &mut State,
    id: &str,
    state: RefState,
    actor: &str,
    client: &str,
    method: &str,
    now: u64,
)
    ensures
        final(st)@ == (StateV {
            refs: old(st)@.refs.insert(id@, call_ref(state@, actor@, client@, method@, now)),
            ..old(st)@
        }),
{
    let ghost s = st@;
    let r = RefInfo {
        state,
        actor: Some(actor.to_string()),
        owner: client.to_string(),
        method: method.to_string(),
        created_ms: now,
        warned: false,
    };
    let ghost rv = r.deep_view();
    st.refs.insert(id.to_string(), r);
    proof {
        assert(st@.refs =~= s.refs.insert(id@, rv));
    }
}

/// Records a client's call of an actor's method, and says where to send it.
pub fn actor_call(
    st: &mut State,
    client: &str,
    actor: &str,
    method: &str,
    payload: Vec<u8>,
    now: u64,
) -> (r: CallStep)
    ensures
        (final(st)@, r@) == called(old(st)@, client@, actor@, method@, payload@, now),
{
    let ghost s = st@;
    let n: u64 = st.next_ref;
    st.counters.calls_total = bump(st.counters.calls_total);
    st.next_ref = bump(n);
    proof {
        assert(st@ =~= numbered(s));
    }
    let mut id = actor.to_string();
    id.append(":");
    id.append(dec(n).as_str());
    let (agent, dead) = match st.actors.get(actor) {
        None => {
            let mut error = "no such actor ".to_string();
            error.append(actor);
            return CallStep::NoActor { error };
        },
        Some(a) => {
            let dead = match &a.state {
                ActorState::Dead { reason, .. } => Some(reason.clone()),
                _ => None,
            };
            (a.agent.clone(), dead)
        },
    };
    if let Some(reason) = dead {
        add_ref(st, id.as_str(), RefState::ActorDied { reason }, actor, client, method, now);
        return CallStep::Recorded { ref_id: id };
    }
    let link = match st.agents.get(agent.as_str()) {
        None => {
            let mut reason = "agent ".to_string();
            reason.append(agent.as_str());
            reason.append(" is not registered");
            add_ref(st, id.as_str(), RefState::ActorDied { reason }, actor, client, method, now);
            return CallStep::Recorded { ref_id: id };
        },
        Some(g) => if g.alive {
            Some(g.link)
        } else {
            None
        },
    };
    add_ref(st, id.as_str(), RefState::Pending, actor, client, method, now);
    match link {
        Some(link) => CallStep::Send { ref_id: id, link },
        None => {
            hold_call(st, actor, id.clone(), method.to_string(), payload);
            CallStep::Recorded { ref_id: id }
        },
    }
}

// ---------------------------------------------------------------------------
// Creating an actor
// ---------------------------------------------------------------------------
/// What an agent is to be sent for a new actor.
#[derive(Debug)]
pub struct Spawn {
    pub link: u64,
    pub agent: String,
    pub node_id: String,
    pub gpu_ids: Vec<u32>,
    pub env: Dict<String>,
}

/// A `Spawn` as a mathematical value.
pub struct SpawnV {
    pub link: u64,
    pub agent: Seq<char>,
    pub node_id: Seq<char>,
    pub gpu_ids: Seq<u32>,
    pub env: Map<Seq<char>, Seq<char>>,
}

impl View for Spawn {
    type V = SpawnV;

    open spec fn view(&self) -> SpawnV {
        SpawnV {
            link: self.link,
            agent: self.agent@,
            node_id: self.node_id@,
            gpu_ids: self.gpu_ids@,
            env: self.env.deep_view(),
        }
    }
}

/// Whether a live actor of a group goes by this name.
pub open spec fn name_taken(s: StateV, group: Seq<char>, name: Seq<char>) -> bool {
    exists|k: Seq<char>| #[trigger]
        s.actors.contains_key(k) && s.actors[k].group == group && s.actors[k].name == name && !(
        s.actors[k].state is Dead)
}

/// Numbers in decimal.
pub open spec fn decimals(v: Seq<u32>) -> Seq<Seq<char>> {
    Seq::new(v.len(), |i: int| decimal(v[i] as nat))
}

/// The environment an actor starts with: the caller's, and what it has to know
/// of where it is. The fabric address is set only where its group spans one.
pub open spec fn spawn_env(
    env: Map<Seq<char>, Seq<char>>,
    actor: Seq<char>,
    b: BundleV,
    control_addr: Seq<char>,
    node_ip: Seq<char>,
    fabric_ip: Option<Seq<char>>,
) -> Map<Seq<char>, Seq<char>> {
    let e = env.insert("MENTAT_ACTOR_ID"@, actor).insert("MENTAT_NODE_ID"@, b.node_id).insert(
        "MENTAT_GPU_IDS"@,
        joined(decimals(b.gpu_ids), ","@),
    ).insert("MENTAT_GCS_ADDRESS"@, control_addr);
    let e = if node_ip.len() > 0 {
        e.insert("MENTAT_NODE_IP"@, node_ip)
    } else {
        e
    };
    match fabric_ip {
        Some(ip) => e.insert("MENTAT_FABRIC_IP"@, ip),
        None => e,
    }
}

/// What a client asks for when it creates an actor.
pub struct ActorReqV {
    pub client: Seq<char>,
    pub name: Seq<char>,
    pub num_gpus: u32,
    pub pg_id: Seq<char>,
    pub bundle: nat,
    pub env: Map<Seq<char>, Seq<char>>,
    /// The new actor's id.
    pub actor_id: Seq<char>,
}

/// Why an actor cannot be created, if it cannot.
pub open spec fn create_complaint(s: StateV, q: ActorReqV) -> Option<Seq<char>> {
    let group = group_of(s, q.client);
    if name_taken(s, group, q.name) {
        Some("actor name '"@ + q.name + "' already exists in group '"@ + group + "'"@)
    } else if !s.pgs.contains_key(q.pg_id) {
        Some("no such placement group "@ + q.pg_id)
    } else {
        let p = s.pgs[q.pg_id];
        if p.state != PgState::Created {
            Some("placement group "@ + q.pg_id + " is not ready"@)
        } else if q.bundle >= p.assignment.len() || p.assignment[q.bundle as int] is None {
            Some(
                "bundle "@ + decimal(q.bundle) + " of placement group "@ + q.pg_id
                    + " is not placed"@,
            )
        } else {
            let b = p.assignment[q.bundle as int]->Some_0;
            if q.num_gpus > b.gpu_ids.len() {
                Some(
                    "actor wants "@ + decimal(q.num_gpus as nat) + " GPUs but bundle "@ + decimal(
                        q.bundle,
                    ) + " reserves "@ + decimal(b.gpu_ids.len()),
                )
            } else if !reachable(s, b.agent) {
                Some(
                    "agent "@ + b.agent + " for bundle "@ + decimal(q.bundle) + " is gone"@,
                )
            } else {
                None
            }
        }
    }
}

/// What the agent is to be sent for a new actor.
pub open spec fn spawn_of(s: StateV, q: ActorReqV) -> SpawnV {
    let p = s.pgs[q.pg_id];
    let b = p.assignment[q.bundle as int]->Some_0;
    let g = s.agents[b.agent];
    let fabric_ip = match p.island {
        Some(i) => if i.addr.contains_key(b.node_id) {
            Some(i.addr[b.node_id])
        } else {
            None
        },
        None => None,
    };
    SpawnV {
        link: g.link,
        agent: b.agent,
        node_id: b.node_id,
        gpu_ids: b.gpu_ids,
        env: spawn_env(q.env, q.actor_id, b, s.control_addr, g.node_ip, fabric_ip),
    }
}

/// The state after an actor is created.
pub open spec fn created(s: StateV, q: ActorReqV) -> StateV {
    let group = group_of(s, q.client);
    let w = spawn_of(s, q);
    let a = ActorV {
        id: q.actor_id,
        name: q.name,
        group,
        agent: w.agent,
        node_id: w.node_id,
        gpu_ids: w.gpu_ids,
        owner: q.client,
        state: ActorStateV::Spawning,
        pid: None,
        queued_calls: Seq::empty(),
    };
    StateV {
        actors: s.actors.insert(q.actor_id, a),
        counters: Counters { actors_spawned: next(s.counters.actors_spawned), ..s.counters },
        ..s
    }.emit(
        "actor_spawning"@,
        seq![row_set(group, "actors"@, q.actor_id, actor_row_of(a))],
        Seq::empty(),
    )
}

/// What a client asks for when it creates an actor.
#[derive(Debug)]
pub struct ActorReq {
    pub client: String,
    pub name: String,
    pub num_gpus: u32,
    pub pg_id: String,
    pub bundle: usize,
    pub env: Dict<String>,
    /// The new actor's id.
    pub actor_id: String,
}

impl View for ActorReq {
    type V = ActorReqV;

    open spec fn view(&self) -> ActorReqV {
        ActorReqV {
            client: self.client@,
            name: self.name@,
            num_gpus: self.num_gpus,
            pg_id: self.pg_id@,
            bundle: self.bundle as nat,
            env: self.env.deep_view(),
            actor_id: self.actor_id@,
        }
    }
}

fn is_name_taken(st: &State, group: &str, name: &str) -> (r: bool)
    ensures
        r == name_taken(st@, group@, name@),
{
    let n: usize = st.actors.len();
    let ghost order = st.actors.order();
    let mut i: usize = 0;
    while i < n
        invariant
            i <= n,
            n == order.len(),
            order == st.actors.order(),
            lists(order, st.actors@.dom()),
            forall|j: int|
                0 <= j < i ==> !(st@.actors[#[trigger] order[j]].group == group@
                    && st@.actors[order[j]].name == name@ && !(st@.actors[order[j]].state is Dead)),
        decreases n - i,
    {
        let a = st.actors.val_at(i);
        proof {
            assert(st@.actors[order[i as int]] == a.deep_view());
            assert(st@.actors.contains_key(order[i as int]));
        }
        if same(a.group.as_str(), group) && same(a.name.as_str(), name) && !a.dead() {
            return true;
        }
        i += 1;
    }
    proof {
        if name_taken(st@, group@, name@) {
            let k = choose|k: Seq<char>| #[trigger]
                st@.actors.contains_key(k) && st@.actors[k].group == group@ && st@.actors[k].name
                    == name@ && !(st@.actors[k].state is Dead);
            assert(st.actors@.dom().contains(k));
            let j = order.index_of(k);
            assert(order[j] == k);
        }
    }
    false
}

fn put_text(d: &mut Dict<String>, key: &str, val: String)
    ensures
        final(d).deep_view() == old(d).deep_view().insert(key@, val@),
{
    let ghost was = d.deep_view();
    d.insert(key.to_string(), val);
    proof {
        assert(d.deep_view() =~= was.insert(key@, val@));
    }
}

fn decimal_list(v: &Vec<u32>) -> (r: Vec<String>)
    ensures
        texts(r@) == decimals(v@),
{
    let mut out: Vec<String> = Vec::new();
    let mut i: usize = 0;
    while i < v.len()
        invariant
            i <= v@.len(),
            out@.len() == i,
            forall|j: int| 0 <= j < i ==> (#[trigger] out@[j])@ == decimal(v@[j] as nat),
        decreases v@.len() - i,
    {
        out.push(dec(v[i] as u64));
        i += 1;
    }
    proof {
        assert(texts(out@) =~= decimals(v@));
    }
    out
}

/// Creates an actor on the bundle it names, and says what its agent is to be
/// sent.
pub fn create_actor(st: &mut State, req: ActorReq) -> (r: Result<Spawn, String>)
    ensures
        match r {
            Ok(w) => create_complaint(old(st)@, req@) is None && w@ == spawn_of(old(st)@, req@)
                && final(st)@ == created(old(st)@, req@),
            Err(e) => create_complaint(old(st)@, req@) == Some(e@) && final(st)@ == old(st)@,
        },
{
    let ghost s = st@;
    let ghost q = req@;
    let group = client_group(st, req.client.as_str());
    if is_name_taken(st, group.as_str(), req.name.as_str()) {
        let mut e = "actor name '".to_string();
        e.append(req.name.as_str());
        e.append("' already exists in group '");
        e.append(group.as_str());
        e.append("'");
        return Err(e);
    }
    let pg = match st.pgs.get(req.pg_id.as_str()) {
        Some(p) => p,
        None => {
            let mut e = "no such placement group ".to_string();
            e.append(req.pg_id.as_str());
            return Err(e);
        },
    };
    let ghost pv = pg.deep_view();
    if pg.state != PgState::Created {
        let mut e = "placement group ".to_string();
        e.append(req.pg_id.as_str());
        e.append(" is not ready");
        return Err(e);
    }
    proof {
        if (req.bundle as int) < pg.assignment@.len() {
            assert(pv.assignment[req.bundle as int] == opt_bundle(
                pg.assignment@[req.bundle as int],
            ));
        }
    }
    let placed_bundle = if req.bundle < pg.assignment.len() {
        match &pg.assignment[req.bundle] {
            Some(b) => Some(b),
            None => None,
        }
    } else {
        None
    };
    let b = match placed_bundle {
        Some(b) => b,
        None => {
            let mut e = "bundle ".to_string();
            e.append(dec(req.bundle as u64).as_str());
            e.append(" of placement group ");
            e.append(req.pg_id.as_str());
            e.append(" is not placed");
            return Err(e);
        },
    };
    let ghost bv = b.deep_view();
    proof {
        assert(pv.assignment[req.bundle as int] == Some(bv));
    }
    if req.num_gpus as usize > b.gpu_ids.len() {
        let mut e = "actor wants ".to_string();
        e.append(dec(req.num_gpus as u64).as_str());
        e.append(" GPUs but bundle ");
        e.append(dec(req.bundle as u64).as_str());
        e.append(" reserves ");
        e.append(dec(b.gpu_ids.len() as u64).as_str());
        return Err(e);
    }
    let agent = match st.agents.get(b.agent.as_str()) {
        Some(g) => if g.alive {
            Some(g)
        } else {
            None
        },
        None => None,
    };
    let (link, node_ip) = match agent {
        Some(g) => (g.link, g.node_ip.clone()),
        None => {
            let mut e = "agent ".to_string();
            e.append(b.agent.as_str());
            e.append(" for bundle ");
            e.append(dec(req.bundle as u64).as_str());
            e.append(" is gone");
            return Err(e);
        },
    };
    let fabric_ip = match &pg.island {
        Some(i) => match i.addr.get(b.node_id.as_str()) {
            Some(ip) => Some(ip.clone()),
            None => None,
        },
        None => None,
    };
    let agent_id = b.agent.clone();
    let node_id = b.node_id.clone();
    let gpu_ids = copy_u32(&b.gpu_ids);
    let mut env = req.env;
    put_text(&mut env, "MENTAT_ACTOR_ID", req.actor_id.clone());
    put_text(&mut env, "MENTAT_NODE_ID", node_id.clone());
    put_text(&mut env, "MENTAT_GPU_IDS", join(&decimal_list(&gpu_ids), ","));
    put_text(&mut env, "MENTAT_GCS_ADDRESS", st.control_addr.clone());
    if !node_ip.as_str().is_empty() {
        put_text(&mut env, "MENTAT_NODE_IP", node_ip);
    }
    if let Some(ip) = fabric_ip {
        put_text(&mut env, "MENTAT_FABRIC_IP", ip);
    }
    let w = Spawn {
        link,
        agent: agent_id.clone(),
        node_id: node_id.clone(),
        gpu_ids: copy_u32(&gpu_ids),
        env,
    };
    proof {
        assert(w@ == spawn_of(s, q));
    }
    let a = ActorInfo {
        id: req.actor_id.clone(),
        name: req.name,
        group,
        agent: agent_id,
        node_id,
        gpu_ids,
        owner: req.client,
        state: ActorState::Spawning,
        pid: None,
        queued_calls: Vec::new(),
    };
    let mut patch: Vec<Patch> = Vec::new();
    patch.push(
        row_patch(a.group.as_str(), "actors", req.actor_id.as_str(), Some(actor_row(&a))),
    );
    let ghost av = a.deep_view();
    proof {
        assert(av.queued_calls =~= Seq::<QueuedCallV>::empty());
        assert(patch_views(patch@) =~= seq![
            row_set(av.group, "actors"@, q.actor_id, actor_row_of(av)),
        ]);
    }
    st.actors.insert(req.actor_id, a);
    st.counters.actors_spawned = bump(st.counters.actors_spawned);
    proof {
        assert(st@.actors =~= s.actors.insert(q.actor_id, av));
    }
    st.emit_patch("actor_spawning", patch, "");
    proof {
        reveal_strlit("");
        assert(""@ =~= Seq::<char>::empty());
        assert(st@ =~= created(s, q));
    }
    Ok(w)
}

/// What is said of a spawn that did not reach its agent.
pub open spec fn unsent_text(agent: Seq<char>, error: Seq<char>) -> Seq<char> {
    "spawn did not reach agent "@ + agent + ": "@ + error
}

/// Records that a spawn did not reach its agent: the actor is dead, and the
/// client is told the reason.
pub fn spawn_unsent(
    st: &mut State,
    actor: &str,
    agent: &str,
    error: &str,
    now: u64,
    by_island: bool,
) -> (r: String)
    ensures
        r@ == unsent_text(agent@, error@),
        final(st)@ == died(old(st)@, actor@, unsent_text(agent@, error@), now, by_island),
{
    let mut e = "spawn did not reach agent ".to_string();
    e.append(agent);
    e.append(": ");
    e.append(error);
    mark_actor_dead(st, actor, e.as_str(), now, by_island);
    e
}

// ---------------------------------------------------------------------------
// Placement groups
// ---------------------------------------------------------------------------
/// The state after a placement group is entered, with nothing placed yet.
pub open spec fn pg_entered(
    s: StateV,
    client: Seq<char>,
    id: Seq<char>,
    bundles: Seq<u32>,
    strategy: Seq<char>,
    claim: Seq<char>,
    now: u64,
) -> StateV {
    let p = PgV {
        id,
        group: group_of(s, client),
        owner: client,
        bundles,
        strategy,
        claim,
        assignment: Seq::new(bundles.len(), |i: int| None),
        state: PgState::Pending,
        created_ms: now,
        fail_reason: None,
        island: None,
        pending_reason: None,
        removed_ms: None,
    };
    StateV { pgs: s.pgs.insert(id, p), ..s }.emit(
        "pg_created"@,
        seq![row_set(p.group, "placement_groups"@, id, pg_row_of(p))],
        Seq::empty(),
    )
}

/// The state after a placement group is created and placing was tried.
pub open spec fn pg_created(
    s: StateV,
    client: Seq<char>,
    id: Seq<char>,
    bundles: Seq<u32>,
    strategy: Seq<char>,
    claim: Seq<char>,
    now: u64,
    by_island: bool,
) -> StateV {
    placed(pg_entered(s, client, id, bundles, strategy, claim, now), by_island)
}

/// Creates a placement group under the id given, and tries to place it. The
/// id is also the handle a client waits on until the group is created.
pub fn pg_create(
    st: &mut State,
    client: &str,
    id: &str,
    bundles: Vec<u32>,
    strategy: String,
    claim: String,
    now: u64,
    by_island: bool,
)
    ensures
        final(st)@ == pg_created(
            old(st)@,
            client@,
            id@,
            bundles@,
            strategy@,
            claim@,
            now,
            by_island,
        ),
{
    let ghost s = st@;
    let group = client_group(st, client);
    let mut assignment: Vec<Option<BundleAssignment>> = Vec::new();
    let mut i: usize = 0;
    while i < bundles.len()
        invariant
            i <= bundles@.len(),
            assignment@.len() == i,
            forall|j: int| 0 <= j < i ==> (#[trigger] assignment@[j]) is None,
        decreases bundles@.len() - i,
    {
        assignment.push(None);
        i += 1;
    }
    proof {
        assert(bundle_views(assignment@) =~= Seq::new(bundles@.len(), |i: int| None));
    }
    let p = PgInfo {
        id: id.to_string(),
        group,
        owner: client.to_string(),
        bundles,
        strategy,
        claim,
        assignment,
        state: PgState::Pending,
        created_ms: now,
        fail_reason: None,
        island: None,
        pending_reason: None,
        removed_ms: None,
    };
    let ghost pv = p.deep_view();
    let mut patch: Vec<Patch> = Vec::new();
    patch.push(row_patch(p.group.as_str(), "placement_groups", id, Some(pg_row(&p))));
    proof {
        assert(patch_views(patch@) =~= seq![
            row_set(pv.group, "placement_groups"@, id@, pg_row_of(pv)),
        ]);
    }
    st.pgs.insert(id.to_string(), p);
    proof {
        assert(st@.pgs =~= s.pgs.insert(id@, pv));
        reveal_strlit("");
        assert(""@ =~= Seq::<char>::empty());
    }
    st.emit_patch("pg_created", patch, "");
    try_place(st, by_island);
}

/// The bundles of a group, by number.
pub open spec fn bundle_docs(bundles: Seq<u32>) -> Map<Seq<char>, JsonV>
    decreases bundles.len(),
{
    if bundles.len() == 0 {
        Map::empty()
    } else {
        bundle_docs(bundles.drop_last()).insert(
            decimal((bundles.len() - 1) as nat),
            JsonV::Obj(map!["GPU"@ => JsonV::Uint(bundles.last() as u64)]),
        )
    }
}

/// The node of each bundle of `n` that is placed, by number.
pub open spec fn bundle_nodes(assignment: Seq<Option<BundleV>>, n: nat) -> Map<Seq<char>, JsonV>
    decreases n,
{
    if n == 0 {
        Map::empty()
    } else {
        let had = bundle_nodes(assignment, (n - 1) as nat);
        if n - 1 < assignment.len() && assignment[n - 1] is Some {
            had.insert(decimal((n - 1) as nat), JsonV::Str(assignment[n - 1]->Some_0.node_id))
        } else {
            had
        }
    }
}

/// A placement group's table, shaped as `placement_group_table()` has it.
pub open spec fn table_of(p: PgV) -> JsonV {
    JsonV::Obj(
        map![
            "placement_group_id"@ => JsonV::Str(p.id),
            "name"@ => JsonV::Str(""@),
            "bundles"@ => JsonV::Obj(bundle_docs(p.bundles)),
            "bundles_to_node_id"@ => JsonV::Obj(bundle_nodes(p.assignment, p.bundles.len())),
            "strategy"@ => JsonV::Str(p.strategy),
            "state"@ => JsonV::Str(pg_state_name(p.state)),
            "stats"@ => JsonV::Obj(Map::empty()),
        ],
    )
}

/// A placement group's table.
pub fn pg_table(st: &State, id: &str) -> (r: Result<Json, String>)
    ensures
        match r {
            Ok(j) => st@.pgs.contains_key(id@) && j.v() == table_of(st@.pgs[id@]),
            Err(e) => !st@.pgs.contains_key(id@) && e@ == "no such placement group "@ + id@,
        },
{
    let p = match st.pgs.get(id) {
        Some(p) => p,
        None => {
            let mut e = "no such placement group ".to_string();
            e.append(id);
            return Err(e);
        },
    };
    let ghost pv = p.deep_view();
    let mut bundles = Json::object();
    let mut nodes = Json::object();
    let mut i: usize = 0;
    proof {
        assert(pv.bundles.take(0) =~= Seq::<u32>::empty());
    }
    while i < p.bundles.len()
        invariant
            pv == p.deep_view(),
            i <= p.bundles@.len(),
            bundles.deep_view() == bundle_docs(pv.bundles.take(i as int)),
            nodes.deep_view() == bundle_nodes(pv.assignment, i as nat),
        decreases p.bundles@.len() - i,
    {
        let key = dec(i as u64);
        proof {
            assert(pv.bundles.take(i + 1).drop_last() =~= pv.bundles.take(i as int));
            assert(pv.bundles.take(i + 1).last() == p.bundles@[i as int]);
        }
        let mut spec_ = Json::object();
        put(&mut spec_, "GPU", Json::Uint(p.bundles[i] as u64));
        put(&mut bundles, key.as_str(), Json::Obj(spec_));
        if i < p.assignment.len() {
            proof {
                assert(pv.assignment[i as int] == opt_bundle(p.assignment@[i as int]));
            }
            if let Some(b) = &p.assignment[i] {
                put(&mut nodes, key.as_str(), Json::Str(b.node_id.clone()));
            }
        }
        i += 1;
    }
    proof {
        assert(pv.bundles.take(pv.bundles.len() as int) =~= pv.bundles);
    }
    let mut d = Json::object();
    put(&mut d, "placement_group_id", Json::Str(p.id.clone()));
    put(&mut d, "name", Json::str(""));
    put(&mut d, "bundles", Json::Obj(bundles));
    put(&mut d, "bundles_to_node_id", Json::Obj(nodes));
    put(&mut d, "strategy", Json::Str(p.strategy.clone()));
    put(&mut d, "state", Json::str(pg_state(p.state)));
    put(&mut d, "stats", Json::Obj(Json::object()));
    Ok(Json::Obj(d))
}

/// A placement group's row after the group is removed.
pub open spec fn removed_row(p: PgV, now: u64) -> PgV {
    PgV { state: PgState::Removed, removed_ms: Some(now), ..p }
}

/// The state after a placement group is removed for a reason. The row stays
/// until the history sweep drops it.
pub open spec fn pg_gone(s: StateV, id: Seq<char>, now: u64, detail: Seq<char>) -> StateV {
    if s.pgs.contains_key(id) {
        let p = removed_row(s.pgs[id], now);
        let t = StateV { pgs: s.pgs.insert(id, p), ..s };
        t.emit(
            "pg_removed"@,
            seq![row_set(p.group, "placement_groups"@, id, pg_row_of(p))] + pg_agent_changes(
                t,
                id,
            ),
            detail,
        )
    } else {
        s
    }
}

/// Removes a placement group, saying why.
pub fn drop_pg(st: &mut State, id: &str, now: u64, detail: &str)
    ensures
        final(st)@ == pg_gone(old(st)@, id@, now, detail@),
{
    let ghost s = st@;
    if !st.pgs.contains(id) {
        return ;
    }
    let ghost q = removed_row(s.pgs[id@], now);
    let ghost t = StateV { pgs: s.pgs.insert(id@, q), ..s };
    if let Some(p) = st.pgs.get_mut(id) {
        p.state = PgState::Removed;
        p.removed_ms = Some(now);
    }
    proof {
        assert(st@.pgs =~= t.pgs);
        assert(st@ =~= t);
    }
    let mut patch: Vec<Patch> = Vec::new();
    if let Some(p) = st.pgs.get(id) {
        patch.push(row_patch(p.group.as_str(), "placement_groups", id, Some(pg_row(p))));
        proof {
            assert(p.deep_view() == t.pgs[id@]);
            assert(patch_views(patch@) =~= seq![
                row_set(q.group, "placement_groups"@, id@, pg_row_of(q)),
            ]);
        }
    }
    agent_patches(st, id, &mut patch);
    st.emit_patch("pg_removed", patch, detail);
}

/// Releases a placement group and its GPUs, and places what waited for them.
pub fn pg_remove(st: &mut State, id: &str, now: u64, by_island: bool)
    ensures
        final(st)@ == placed(pg_gone(old(st)@, id@, now, ""@), by_island),
{
    drop_pg(st, id, now, "");
    try_place(st, by_island);
}

// ---------------------------------------------------------------------------
// What a group has
// ---------------------------------------------------------------------------
/// One node of a group, as its clients see it.
#[derive(Debug, PartialEq, Eq)]
pub struct NodeRow {
    pub ip: String,
    pub gpus: u64,
    pub cpus: u64,
    pub memory: u64,
}

/// A `NodeRow` as a mathematical value.
pub struct NodeRowV {
    pub ip: Seq<char>,
    pub gpus: u64,
    pub cpus: u64,
    pub memory: u64,
}

impl DeepView for NodeRow {
    type V = NodeRowV;

    open spec fn deep_view(&self) -> NodeRowV {
        NodeRowV { ip: self.ip@, gpus: self.gpus, cpus: self.cpus, memory: self.memory }
    }
}

/// The nodes with one more agent counted.
pub open spec fn with_agent(m: Map<Seq<char>, NodeRowV>, a: AgentV) -> Map<Seq<char>, NodeRowV> {
    let had = if m.contains_key(a.node_id) {
        m[a.node_id]
    } else {
        NodeRowV { ip: a.node_ip, gpus: 0, cpus: a.machine.cpus as u64, memory: 0 }
    };
    m.insert(
        a.node_id,
        NodeRowV {
            ip: had.ip,
            gpus: capped(had.gpus as nat + a.machine.gpus.len()),
            cpus: a.machine.cpus as u64,
            memory: a.machine.memory,
        },
    )
}

/// The nodes with the live agents of a group counted, of those in `keys`.
pub open spec fn nodes_with(
    s: StateV,
    group: Seq<char>,
    keys: Seq<Seq<char>>,
    start: Map<Seq<char>, NodeRowV>,
) -> Map<Seq<char>, NodeRowV>
    decreases keys.len(),
{
    if keys.len() == 0 {
        start
    } else {
        let had = nodes_with(s, group, keys.drop_last(), start);
        let a = s.agents[keys.last()];
        if counts(a, group) {
            with_agent(had, a)
        } else {
            had
        }
    }
}

/// The nodes of a client's group: each that hosts its agents, and the daemon's
/// own, so that the driver always finds itself.
pub open spec fn nodes_of(s: StateV, client: Seq<char>) -> Map<Seq<char>, NodeRowV> {
    nodes_with(
        s,
        group_of(s, client),
        ordered(s.agents.dom()),
        map![s.node_id => NodeRowV { ip: s.node_ip, gpus: 0, cpus: 8, memory: 0 }],
    )
}

fn capped_sum(a: u64, b: u64) -> (r: u64)
    ensures
        r == capped((a + b) as nat),
{
    if a > u64::MAX - b {
        u64::MAX
    } else {
        a + b
    }
}

/// The nodes of a client's group, by id.
pub fn nodes(st: &State, client: &str) -> (r: Dict<NodeRow>)
    ensures
        r.deep_view() == nodes_of(st@, client@),
{
    let group = client_group(st, client);
    let mut out: Dict<NodeRow> = Dict::new();
    out.insert(
        st.node_id.clone(),
        NodeRow { ip: st.node_ip.clone(), gpus: 0, cpus: 8, memory: 0 },
    );
    let ghost start = map![
        st@.node_id => NodeRowV { ip: st@.node_ip, gpus: 0, cpus: 8, memory: 0 },
    ];
    let n: usize = st.agents.len();
    let ghost order = st.agents.order();
    let mut i: usize = 0;
    proof {
        assert(st@.agents.dom() =~= st.agents@.dom());
        assert(out.deep_view() =~= start);
    }
    while i < n
        invariant
            i <= n,
            n == order.len(),
            order == st.agents.order(),
            out.deep_view() == nodes_with(st@, group@, order.take(i as int), start),
        decreases n - i,
    {
        let a = st.agents.val_at(i);
        proof {
            assert(order.take(i + 1).drop_last() =~= order.take(i as int));
            assert(order.take(i + 1).last() == order[i as int]);
            assert(st@.agents[order[i as int]] == a.deep_view());
        }
        if a.alive && same(a.group.as_str(), group.as_str()) {
            let ghost had = out.deep_view();
            let (ip, gpus) = match out.get(a.node_id.as_str()) {
                Some(e) => (e.ip.clone(), e.gpus),
                None => (a.node_ip.clone(), 0),
            };
            let row = NodeRow {
                ip,
                gpus: capped_sum(gpus, a.machine.gpus.len() as u64),
                cpus: a.machine.cpus as u64,
                memory: a.machine.memory,
            };
            let ghost rv = row.deep_view();
            out.insert(a.node_id.clone(), row);
            proof {
                assert(out.deep_view() =~= had.insert(a.node_id@, rv));
                assert(out.deep_view() == with_agent(had, a.deep_view()));
            }
        }
        i += 1;
    }
    proof {
        assert(order.take(order.len() as int) =~= order);
    }
    out
}

/// What a group has in all: GPUs, cpus, memory.
#[derive(Clone, Copy, Debug, PartialEq, Eq, Structural)]
pub struct Totals {
    pub gpus: u64,
    pub cpus: u64,
    pub memory: u64,
}

/// What the live agents of a group have in all, of those in `keys`.
pub open spec fn totals_among(s: StateV, group: Seq<char>, keys: Seq<Seq<char>>) -> Totals
    decreases keys.len(),
{
    if keys.len() == 0 {
        Totals { gpus: 0, cpus: 0, memory: 0 }
    } else {
        let had = totals_among(s, group, keys.drop_last());
        let a = s.agents[keys.last()];
        if counts(a, group) {
            Totals {
                gpus: capped(had.gpus as nat + a.machine.gpus.len()),
                cpus: capped((had.cpus + a.machine.cpus) as nat),
                memory: capped((had.memory + a.machine.memory) as nat),
            }
        } else {
            had
        }
    }
}

/// What a client's group has in all.
pub fn resources(st: &State, client: &str) -> (r: Totals)
    ensures
        r == totals_among(st@, group_of(st@, client@), ordered(st@.agents.dom())),
{
    let group = client_group(st, client);
    let mut out = Totals { gpus: 0, cpus: 0, memory: 0 };
    let n: usize = st.agents.len();
    let ghost order = st.agents.order();
    let mut i: usize = 0;
    proof {
        assert(st@.agents.dom() =~= st.agents@.dom());
    }
    while i < n
        invariant
            i <= n,
            n == order.len(),
            order == st.agents.order(),
            out == totals_among(st@, group@, order.take(i as int)),
        decreases n - i,
    {
        let a = st.agents.val_at(i);
        proof {
            assert(order.take(i + 1).drop_last() =~= order.take(i as int));
            assert(order.take(i + 1).last() == order[i as int]);
            assert(st@.agents[order[i as int]] == a.deep_view());
        }
        if a.alive && same(a.group.as_str(), group.as_str()) {
            out =
            Totals {
                gpus: capped_sum(out.gpus, a.machine.gpus.len() as u64),
                cpus: capped_sum(out.cpus, a.machine.cpus as u64),
                memory: capped_sum(out.memory, a.machine.memory),
            };
        }
        i += 1;
    }
    proof {
        assert(order.take(order.len() as int) =~= order);
    }
    out
}

/// What a node has free for a group. Memory is never reserved, so the free
/// figure is the total.
#[derive(Debug)]
pub struct AvailRow {
    pub gpus: u64,
    pub cpus: u64,
    pub memory: u64,
    /// The addresses the node goes by.
    pub ips: Dict<()>,
}

/// An `AvailRow` as a mathematical value.
pub struct AvailV {
    pub gpus: u64,
    pub cpus: u64,
    pub memory: u64,
    pub ips: Set<Seq<char>>,
}

impl DeepView for AvailRow {
    type V = AvailV;

    open spec fn deep_view(&self) -> AvailV {
        AvailV { gpus: self.gpus, cpus: self.cpus, memory: self.memory, ips: self.ips@.dom() }
    }
}

/// The free resources with one more agent counted.
pub open spec fn with_free(
    s: StateV,
    m: Map<Seq<char>, AvailV>,
    key: Seq<char>,
) -> Map<Seq<char>, AvailV> {
    let a = s.agents[key];
    let had = if m.contains_key(a.node_id) {
        m[a.node_id]
    } else {
        AvailV { gpus: 0, cpus: 0, memory: 0, ips: Set::empty() }
    };
    m.insert(
        a.node_id,
        AvailV {
            gpus: capped(had.gpus as nat + s.free_gpus(key).len()),
            cpus: a.machine.cpus as u64,
            memory: a.machine.memory,
            ips: had.ips.insert(a.node_ip),
        },
    )
}

/// What each node has free for a group, counting the agents in `keys`.
pub open spec fn avail_among(s: StateV, group: Seq<char>, keys: Seq<Seq<char>>) -> Map<
    Seq<char>,
    AvailV,
>
    decreases keys.len(),
{
    if keys.len() == 0 {
        Map::empty()
    } else {
        let had = avail_among(s, group, keys.drop_last());
        if counts(s.agents[keys.last()], group) {
            with_free(s, had, keys.last())
        } else {
            had
        }
    }
}

/// What each node has free for a client's group, by node id.
pub fn available(st: &State, client: &str) -> (r: Dict<AvailRow>)
    ensures
        r.deep_view() == avail_among(st@, group_of(st@, client@), ordered(st@.agents.dom())),
{
    let group = client_group(st, client);
    let mut out: Dict<AvailRow> = Dict::new();
    let n: usize = st.agents.len();
    let ghost order = st.agents.order();
    let mut i: usize = 0;
    proof {
        assert(st@.agents.dom() =~= st.agents@.dom());
        assert(out.deep_view() =~= Map::<Seq<char>, AvailV>::empty());
    }
    while i < n
        invariant
            i <= n,
            n == order.len(),
            order == st.agents.order(),
            out.deep_view() == avail_among(st@, group@, order.take(i as int)),
        decreases n - i,
    {
        let a = st.agents.val_at(i);
        proof {
            assert(order.take(i + 1).drop_last() =~= order.take(i as int));
            assert(order.take(i + 1).last() == order[i as int]);
            assert(st@.agents[order[i as int]] == a.deep_view());
        }
        if a.alive && same(a.group.as_str(), group.as_str()) {
            let free = st.free_gpus_of(st.agents.key_at(i).as_str());
            let ghost had = out.deep_view();
            let ghost key = order[i as int];
            let (gpus, mut ips) = match out.remove(a.node_id.as_str()) {
                Some(e) => (e.gpus, e.ips),
                None => {
                    let none: Dict<()> = Dict::new();
                    proof {
                        assert(none@.dom() =~= Set::<Seq<char>>::empty());
                    }
                    (0, none)
                },
            };
            let ghost had_ips = ips@.dom();
            ips.insert(a.node_ip.clone(), ());
            proof {
                assert(ips@.dom() =~= had_ips.insert(a.node_ip@));
            }
            let row = AvailRow {
                gpus: capped_sum(gpus, free.len() as u64),
                cpus: a.machine.cpus as u64,
                memory: a.machine.memory,
                ips,
            };
            let ghost rv = row.deep_view();
            out.insert(a.node_id.clone(), row);
            proof {
                assert(out.deep_view() =~= had.insert(a.node_id@, rv));
                assert(out.deep_view() == with_free(st@, had, key));
            }
        }
        i += 1;
    }
    proof {
        assert(order.take(order.len() as int) =~= order);
    }
    out
}

} // verus!
