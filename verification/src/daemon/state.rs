//! What a daemon knows: its rows, its peers, its events.
//!
//! Each row type has a mathematical counterpart, and `StateV` is the state
//! made of those. What an operation does is stated as a function on it.

use vstd::prelude::*;
use vstd::string::*;

use crate::common::dict::{lists, Dict};
use crate::common::json::{Json, JsonV};
use crate::common::text::{has_prefix, opt_text, same, starts_with, texts};
use crate::daemon::claim::{Island, Request, RequestV};
use crate::daemon::proto::{Machine, MachineV, Service, ServiceV};

verus! {

// ---------------------------------------------------------------------------
// Agents
// ---------------------------------------------------------------------------
/// One registered agent.
#[derive(Debug, PartialEq, Eq)]
pub struct AgentInfo {
    pub id: String,
    pub group: String,
    pub node_id: String,
    pub node_ip: String,
    pub machine: Machine,
    pub container: String,
    pub pid: u32,
    pub services: Dict<Service>,
    /// The connection the agent registered over.
    pub link: u64,
    pub alive: bool,
    /// When the link was lost, while the agent may still come back.
    pub lost_at_ms: Option<u64>,
    pub degraded: bool,
    /// When the link was lost, until the agent registers again.
    pub gone_since_ms: Option<u64>,
    /// The place of its registration among all of them.
    pub seq: u64,
}

/// An `AgentInfo` as a mathematical value.
pub struct AgentV {
    pub id: Seq<char>,
    pub group: Seq<char>,
    pub node_id: Seq<char>,
    pub node_ip: Seq<char>,
    pub machine: MachineV,
    pub container: Seq<char>,
    pub pid: u32,
    pub services: Map<Seq<char>, ServiceV>,
    pub link: u64,
    pub alive: bool,
    pub lost_at_ms: Option<u64>,
    pub degraded: bool,
    pub gone_since_ms: Option<u64>,
    pub seq: u64,
}

impl DeepView for AgentInfo {
    type V = AgentV;

    open spec fn deep_view(&self) -> AgentV {
        AgentV {
            id: self.id@,
            group: self.group@,
            node_id: self.node_id@,
            node_ip: self.node_ip@,
            machine: self.machine.deep_view(),
            container: self.container@,
            pid: self.pid,
            services: self.services.deep_view(),
            link: self.link,
            alive: self.alive,
            lost_at_ms: self.lost_at_ms,
            degraded: self.degraded,
            gone_since_ms: self.gone_since_ms,
            seq: self.seq,
        }
    }
}

// ---------------------------------------------------------------------------
// Actors
// ---------------------------------------------------------------------------
/// Where an actor is in its life.
#[derive(Debug, PartialEq, Eq)]
pub enum ActorState {
    Spawning,
    Running,
    Dead { reason: String, at_ms: u64 },
}

/// An `ActorState` as a mathematical value.
pub enum ActorStateV {
    Spawning,
    Running,
    Dead { reason: Seq<char>, at_ms: u64 },
}

impl View for ActorState {
    type V = ActorStateV;

    open spec fn view(&self) -> ActorStateV {
        match self {
            ActorState::Spawning => ActorStateV::Spawning,
            ActorState::Running => ActorStateV::Running,
            ActorState::Dead { reason, at_ms } => ActorStateV::Dead {
                reason: reason@,
                at_ms: *at_ms,
            },
        }
    }
}

/// A call held while its agent's link is down.
#[derive(Debug, PartialEq, Eq)]
pub struct QueuedCall {
    pub ref_id: String,
    pub method: String,
    pub payload: Vec<u8>,
}

/// A `QueuedCall` as a mathematical value.
pub struct QueuedCallV {
    pub ref_id: Seq<char>,
    pub method: Seq<char>,
    pub payload: Seq<u8>,
}

impl DeepView for QueuedCall {
    type V = QueuedCallV;

    open spec fn deep_view(&self) -> QueuedCallV {
        QueuedCallV { ref_id: self.ref_id@, method: self.method@, payload: self.payload@ }
    }
}

/// Held calls as mathematical values.
pub open spec fn call_views(v: Seq<QueuedCall>) -> Seq<QueuedCallV> {
    Seq::new(v.len(), |i: int| v[i].deep_view())
}

/// One actor.
#[derive(Debug, PartialEq, Eq)]
pub struct ActorInfo {
    pub id: String,
    pub name: String,
    pub group: String,
    pub agent: String,
    pub node_id: String,
    pub gpu_ids: Vec<u32>,
    pub owner: String,
    pub state: ActorState,
    pub pid: Option<u32>,
    pub queued_calls: Vec<QueuedCall>,
}

/// An `ActorInfo` as a mathematical value.
pub struct ActorV {
    pub id: Seq<char>,
    pub name: Seq<char>,
    pub group: Seq<char>,
    pub agent: Seq<char>,
    pub node_id: Seq<char>,
    pub gpu_ids: Seq<u32>,
    pub owner: Seq<char>,
    pub state: ActorStateV,
    pub pid: Option<u32>,
    pub queued_calls: Seq<QueuedCallV>,
}

impl DeepView for ActorInfo {
    type V = ActorV;

    open spec fn deep_view(&self) -> ActorV {
        ActorV {
            id: self.id@,
            name: self.name@,
            group: self.group@,
            agent: self.agent@,
            node_id: self.node_id@,
            gpu_ids: self.gpu_ids@,
            owner: self.owner@,
            state: self.state@,
            pid: self.pid,
            queued_calls: call_views(self.queued_calls@),
        }
    }
}

impl ActorInfo {
    /// Whether the actor has died.
    pub fn dead(&self) -> (r: bool)
        ensures
            r == (self.deep_view().state is Dead),
    {
        match &self.state {
            ActorState::Dead { .. } => true,
            _ => false,
        }
    }
}

// ---------------------------------------------------------------------------
// Placement groups
// ---------------------------------------------------------------------------
/// Where a placement group is in its life.
#[derive(Clone, Copy, Debug, PartialEq, Eq, Structural)]
pub enum PgState {
    Pending,
    Created,
    Removed,
}

/// The GPUs one bundle holds.
#[derive(Debug, PartialEq, Eq)]
pub struct BundleAssignment {
    pub agent: String,
    pub node_id: String,
    pub gpu_ids: Vec<u32>,
}

/// A `BundleAssignment` as a mathematical value.
pub struct BundleV {
    pub agent: Seq<char>,
    pub node_id: Seq<char>,
    pub gpu_ids: Seq<u32>,
}

impl DeepView for BundleAssignment {
    type V = BundleV;

    open spec fn deep_view(&self) -> BundleV {
        BundleV { agent: self.agent@, node_id: self.node_id@, gpu_ids: self.gpu_ids@ }
    }
}

/// An optional assignment as a mathematical value.
pub open spec fn opt_bundle(b: Option<BundleAssignment>) -> Option<BundleV> {
    match b {
        Some(x) => Some(x.deep_view()),
        None => None,
    }
}

/// Assignments as mathematical values.
pub open spec fn bundle_views(v: Seq<Option<BundleAssignment>>) -> Seq<Option<BundleV>> {
    Seq::new(v.len(), |i: int| opt_bundle(v[i]))
}

/// An `Island` as a mathematical value.
pub struct IslandV {
    pub nodes: Seq<Seq<char>>,
    pub addr: Map<Seq<char>, Seq<char>>,
}

impl DeepView for Island {
    type V = IslandV;

    open spec fn deep_view(&self) -> IslandV {
        IslandV { nodes: texts(self.nodes@), addr: self.addr.deep_view() }
    }
}

/// An optional island as a mathematical value.
pub open spec fn opt_island(i: Option<Island>) -> Option<IslandV> {
    match i {
        Some(x) => Some(x.deep_view()),
        None => None,
    }
}

/// Islands as mathematical values.
pub open spec fn island_views(v: Seq<Island>) -> Seq<IslandV> {
    Seq::new(v.len(), |i: int| v[i].deep_view())
}

/// One placement group.
#[derive(Debug, PartialEq, Eq)]
pub struct PgInfo {
    pub id: String,
    pub group: String,
    pub owner: String,
    /// Whole GPUs per bundle.
    pub bundles: Vec<u32>,
    pub strategy: String,
    /// The claim the group is placed inside, if any.
    pub claim: String,
    pub assignment: Vec<Option<BundleAssignment>>,
    pub state: PgState,
    pub created_ms: u64,
    pub fail_reason: Option<String>,
    /// The fabric the group was placed on, where it spans one.
    pub island: Option<Island>,
    /// What the last attempt to place it could not find.
    pub pending_reason: Option<String>,
    pub removed_ms: Option<u64>,
}

/// A `PgInfo` as a mathematical value.
pub struct PgV {
    pub id: Seq<char>,
    pub group: Seq<char>,
    pub owner: Seq<char>,
    pub bundles: Seq<u32>,
    pub strategy: Seq<char>,
    pub claim: Seq<char>,
    pub assignment: Seq<Option<BundleV>>,
    pub state: PgState,
    pub created_ms: u64,
    pub fail_reason: Option<Seq<char>>,
    pub island: Option<IslandV>,
    pub pending_reason: Option<Seq<char>>,
    pub removed_ms: Option<u64>,
}

impl DeepView for PgInfo {
    type V = PgV;

    open spec fn deep_view(&self) -> PgV {
        PgV {
            id: self.id@,
            group: self.group@,
            owner: self.owner@,
            bundles: self.bundles@,
            strategy: self.strategy@,
            claim: self.claim@,
            assignment: bundle_views(self.assignment@),
            state: self.state,
            created_ms: self.created_ms,
            fail_reason: opt_text(self.fail_reason),
            island: opt_island(self.island),
            pending_reason: opt_text(self.pending_reason),
            removed_ms: self.removed_ms,
        }
    }
}

// ---------------------------------------------------------------------------
// Clients, claims, refs
// ---------------------------------------------------------------------------
/// One connected client.
#[derive(Debug, PartialEq, Eq)]
pub struct ClientInfo {
    pub id: String,
    pub group: String,
    /// "driver" or "cli".
    pub kind: String,
    pub node_id: String,
    /// Holds the group's one driver session.
    pub has_session: bool,
}

/// A `ClientInfo` as a mathematical value.
pub struct ClientV {
    pub id: Seq<char>,
    pub group: Seq<char>,
    pub kind: Seq<char>,
    pub node_id: Seq<char>,
    pub has_session: bool,
}

impl DeepView for ClientInfo {
    type V = ClientV;

    open spec fn deep_view(&self) -> ClientV {
        ClientV {
            id: self.id@,
            group: self.group@,
            kind: self.kind@,
            node_id: self.node_id@,
            has_session: self.has_session,
        }
    }
}

/// A claim that was solved, and who holds it.
#[derive(Debug, PartialEq, Eq)]
pub struct ClaimInfo {
    /// What was asked for.
    pub shape: Request,
    /// The bundles of its sets one after another, as numerals. A request counts the
    /// devices of a bundle whole, and two shapes can differ in a part of one.
    pub exact: Vec<String>,
    /// What the first holder was answered, and every other one is.
    pub view: Json,
    pub generation: u64,
    pub holders: Dict<()>,
}

/// A `ClaimInfo` as a mathematical value.
pub struct ClaimV {
    pub shape: RequestV,
    pub exact: Seq<Seq<char>>,
    pub view: JsonV,
    pub generation: u64,
    pub holders: Set<Seq<char>>,
}

impl DeepView for ClaimInfo {
    type V = ClaimV;

    open spec fn deep_view(&self) -> ClaimV {
        ClaimV {
            shape: self.shape@,
            exact: texts(self.exact@),
            view: self.view.v(),
            generation: self.generation,
            holders: self.holders@.dom(),
        }
    }
}

/// What a ref holds.
#[derive(Debug, PartialEq, Eq)]
pub enum RefState {
    Pending,
    Ready { ok: bool, payload: Vec<u8> },
    ActorDied { reason: String },
}

/// A `RefState` as a mathematical value.
pub enum RefStateV {
    Pending,
    Ready { ok: bool, payload: Seq<u8> },
    ActorDied { reason: Seq<char> },
}

impl View for RefState {
    type V = RefStateV;

    open spec fn view(&self) -> RefStateV {
        match self {
            RefState::Pending => RefStateV::Pending,
            RefState::Ready { ok, payload } => RefStateV::Ready { ok: *ok, payload: payload@ },
            RefState::ActorDied { reason } => RefStateV::ActorDied { reason: reason@ },
        }
    }
}

/// One call's result, or the promise of one.
#[derive(Debug, PartialEq, Eq)]
pub struct RefInfo {
    pub state: RefState,
    pub actor: Option<String>,
    pub owner: String,
    pub method: String,
    pub created_ms: u64,
    pub warned: bool,
}

/// A `RefInfo` as a mathematical value.
pub struct RefV {
    pub state: RefStateV,
    pub actor: Option<Seq<char>>,
    pub owner: Seq<char>,
    pub method: Seq<char>,
    pub created_ms: u64,
    pub warned: bool,
}

impl DeepView for RefInfo {
    type V = RefV;

    open spec fn deep_view(&self) -> RefV {
        RefV {
            state: self.state@,
            actor: opt_text(self.actor),
            owner: self.owner@,
            method: self.method@,
            created_ms: self.created_ms,
            warned: self.warned,
        }
    }
}

// ---------------------------------------------------------------------------
// Peers and fabrics
// ---------------------------------------------------------------------------
/// The last probe of one pair of addresses.
#[derive(Debug, PartialEq, Eq)]
pub struct PairProbe {
    pub ok: bool,
    pub rtt_ms: u64,
    pub last_ok_ms: u64,
    pub error: String,
}

/// A `PairProbe` as a mathematical value.
pub struct PairV {
    pub ok: bool,
    pub rtt_ms: u64,
    pub last_ok_ms: u64,
    pub error: Seq<char>,
}

impl DeepView for PairProbe {
    type V = PairV;

    open spec fn deep_view(&self) -> PairV {
        PairV {
            ok: self.ok,
            rtt_ms: self.rtt_ms,
            last_ok_ms: self.last_ok_ms,
            error: self.error@,
        }
    }
}

/// Another daemon, as this one knows it.
#[derive(Debug, PartialEq, Eq)]
pub struct PeerInfo {
    pub node_id: String,
    /// Whether this daemon dialled the link.
    pub outbound: bool,
    /// What the peer calls itself.
    pub node_ip: String,
    /// The address that the link runs over.
    pub link_ip: String,
    pub addrs: Vec<String>,
    pub addr_tags: Dict<Vec<String>>,
    pub addr_ifaces: Dict<String>,
    /// Probed pairs: near address, far address, what came of it.
    pub probe_pairs: Dict<Dict<PairProbe>>,
    pub control_port: u16,
    pub http_port: u16,
    /// The connection to the peer.
    pub link: u64,
    pub alive: bool,
    pub last_seen_ms: u64,
    /// When the link was lost; 0 while it holds.
    pub dead_since_ms: u64,
    pub stale: bool,
    /// The last snapshot the peer pushed.
    pub last_status: Json,
}

/// A `PeerInfo` as a mathematical value.
pub struct PeerV {
    pub node_id: Seq<char>,
    pub outbound: bool,
    pub node_ip: Seq<char>,
    pub link_ip: Seq<char>,
    pub addrs: Seq<Seq<char>>,
    pub addr_tags: Map<Seq<char>, Seq<Seq<char>>>,
    pub addr_ifaces: Map<Seq<char>, Seq<char>>,
    pub probe_pairs: Map<Seq<char>, Map<Seq<char>, PairV>>,
    pub control_port: u16,
    pub http_port: u16,
    pub link: u64,
    pub alive: bool,
    pub last_seen_ms: u64,
    pub dead_since_ms: u64,
    pub stale: bool,
    pub last_status: JsonV,
}

impl DeepView for PeerInfo {
    type V = PeerV;

    open spec fn deep_view(&self) -> PeerV {
        PeerV {
            node_id: self.node_id@,
            outbound: self.outbound,
            node_ip: self.node_ip@,
            link_ip: self.link_ip@,
            addrs: texts(self.addrs@),
            addr_tags: self.addr_tags.deep_view(),
            addr_ifaces: self.addr_ifaces.deep_view(),
            probe_pairs: self.probe_pairs.deep_view(),
            control_port: self.control_port,
            http_port: self.http_port,
            link: self.link,
            alive: self.alive,
            last_seen_ms: self.last_seen_ms,
            dead_since_ms: self.dead_since_ms,
            stale: self.stale,
            last_status: self.last_status.v(),
        }
    }
}

/// The fabrics, as the probes show them.
#[derive(Debug, PartialEq, Eq)]
pub struct Fabrics {
    pub islands: Vec<Island>,
    /// The nodes with an address that an operator tagged as a fabric one.
    pub tagged: Dict<()>,
}

// ---------------------------------------------------------------------------
// Events
// ---------------------------------------------------------------------------
/// One change to a snapshot: a path into it, and what to store there. No
/// value removes the path.
#[derive(Debug, PartialEq, Eq)]
pub struct Patch {
    pub at: Vec<String>,
    pub value: Option<Json>,
}

/// A `Patch` as a mathematical value.
pub struct PatchV {
    pub at: Seq<Seq<char>>,
    pub value: Option<JsonV>,
}

impl DeepView for Patch {
    type V = PatchV;

    open spec fn deep_view(&self) -> PatchV {
        PatchV {
            at: texts(self.at@),
            value: match self.value {
                Some(j) => Some(j.v()),
                None => None,
            },
        }
    }
}

/// Patches as mathematical values.
pub open spec fn patch_views(v: Seq<Patch>) -> Seq<PatchV> {
    Seq::new(v.len(), |i: int| v[i].deep_view())
}

/// Something that happened here, with what it changed in the snapshot.
#[derive(Debug, PartialEq, Eq)]
pub struct Event {
    pub kind: String,
    pub patch: Vec<Patch>,
    pub detail: String,
}

/// An `Event` as a mathematical value.
pub struct EventV {
    pub kind: Seq<char>,
    pub patch: Seq<PatchV>,
    pub detail: Seq<char>,
}

impl DeepView for Event {
    type V = EventV;

    open spec fn deep_view(&self) -> EventV {
        EventV { kind: self.kind@, patch: patch_views(self.patch@), detail: self.detail@ }
    }
}

/// Events as mathematical values.
pub open spec fn event_views(v: Seq<Event>) -> Seq<EventV> {
    Seq::new(v.len(), |i: int| v[i].deep_view())
}

// ---------------------------------------------------------------------------
// The state
// ---------------------------------------------------------------------------
/// What has been counted since the daemon started.
#[derive(Clone, Copy, Debug, PartialEq, Eq, Structural)]
pub struct Counters {
    pub actors_spawned: u64,
    pub actor_exits_clean: u64,
    pub actor_exits_signal: u64,
    pub actor_exits_error: u64,
    pub calls_total: u64,
    pub clients_total: u64,
    pub agents_registered: u64,
    pub relayed: u64,
}

/// What a daemon knows.
#[derive(Debug, PartialEq, Eq)]
pub struct State {
    pub node_id: String,
    pub node_ip: String,
    pub hostname: String,
    pub control_addr: String,
    pub http_port: u16,
    pub head_node_id: String,
    pub head_generation: u64,
    pub agents: Dict<AgentInfo>,
    pub actors: Dict<ActorInfo>,
    pub pgs: Dict<PgInfo>,
    pub clients: Dict<ClientInfo>,
    /// Claims by group, then by name.
    pub claims: Dict<Dict<ClaimInfo>>,
    pub refs: Dict<RefInfo>,
    pub peers: Dict<PeerInfo>,
    pub fabrics: Fabrics,
    pub counters: Counters,
    pub claim_generation: u64,
    pub next_ref: u64,
    pub next_seq: u64,
    /// Agents that were advised that their address misfiles them, once each.
    pub misfiled_warned: Dict<()>,
    /// What happened and has not been published yet.
    pub events: Vec<Event>,
}

/// A `State` as a mathematical value.
#[verifier::ext_equal]
pub struct StateV {
    pub node_id: Seq<char>,
    pub node_ip: Seq<char>,
    pub hostname: Seq<char>,
    pub control_addr: Seq<char>,
    pub http_port: u16,
    pub head_node_id: Seq<char>,
    pub head_generation: u64,
    pub agents: Map<Seq<char>, AgentV>,
    pub actors: Map<Seq<char>, ActorV>,
    pub pgs: Map<Seq<char>, PgV>,
    pub clients: Map<Seq<char>, ClientV>,
    pub claims: Map<Seq<char>, Map<Seq<char>, ClaimV>>,
    pub refs: Map<Seq<char>, RefV>,
    pub peers: Map<Seq<char>, PeerV>,
    pub islands: Seq<IslandV>,
    pub tagged: Set<Seq<char>>,
    pub counters: Counters,
    pub claim_generation: u64,
    pub next_ref: u64,
    pub next_seq: u64,
    pub misfiled_warned: Set<Seq<char>>,
    pub events: Seq<EventV>,
}

impl View for State {
    type V = StateV;

    open spec fn view(&self) -> StateV {
        StateV {
            node_id: self.node_id@,
            node_ip: self.node_ip@,
            hostname: self.hostname@,
            control_addr: self.control_addr@,
            http_port: self.http_port,
            head_node_id: self.head_node_id@,
            head_generation: self.head_generation,
            agents: self.agents.deep_view(),
            actors: self.actors.deep_view(),
            pgs: self.pgs.deep_view(),
            clients: self.clients.deep_view(),
            claims: self.claims.deep_view(),
            refs: self.refs.deep_view(),
            peers: self.peers.deep_view(),
            islands: island_views(self.fabrics.islands@),
            tagged: self.fabrics.tagged@.dom(),
            counters: self.counters,
            claim_generation: self.claim_generation,
            next_ref: self.next_ref,
            next_seq: self.next_seq,
            misfiled_warned: self.misfiled_warned@.dom(),
            events: event_views(self.events@),
        }
    }
}

/// Whether an address is one of the box that names it.
pub open spec fn loopback(ip: Seq<char>) -> bool {
    has_prefix(ip, "127."@) || ip == "::1"@
}

/// Whether an address is one of the box that names it.
pub fn is_loopback(ip: &str) -> (r: bool)
    ensures
        r == loopback(ip@),
{
    starts_with(ip, "127.") || same(ip, "::1")
}

/// Whether a list of assignments reserves a GPU of an agent.
pub open spec fn reserves(bs: Seq<Option<BundleV>>, agent: Seq<char>, g: u32) -> bool {
    exists|i: int|
        0 <= i < bs.len() && (#[trigger] bs[i]) is Some && bs[i]->Some_0.agent == agent
            && bs[i]->Some_0.gpu_ids.contains(g)
}

/// Whether a placement group holds a GPU of an agent.
pub open spec fn pg_holds(p: PgV, agent: Seq<char>, g: u32) -> bool {
    p.state == PgState::Created && reserves(p.assignment, agent, g)
}

/// Whether an actor holds a GPU of an agent: a live one on it does.
pub open spec fn actor_holds(a: ActorV, agent: Seq<char>, g: u32) -> bool {
    a.agent == agent && !(a.state is Dead) && a.gpu_ids.contains(g)
}

/// The indices of a machine's GPUs, in device order.
pub open spec fn gpu_indices(m: MachineV) -> Seq<u32> {
    Seq::new(m.gpus.len(), |i: int| m.gpus[i].index)
}

impl StateV {
    /// Whether anything holds a GPU of an agent.
    pub open spec fn held(self, agent: Seq<char>, g: u32) -> bool {
        ||| exists|k: Seq<char>| #[trigger]
            self.pgs.contains_key(k) && pg_holds(self.pgs[k], agent, g)
        ||| exists|k: Seq<char>| #[trigger]
            self.actors.contains_key(k) && actor_holds(self.actors[k], agent, g)
    }

    /// Of some GPUs of an agent, those that nothing holds.
    pub open spec fn unheld(self, agent: Seq<char>, gpus: Seq<u32>) -> Seq<u32>
        decreases gpus.len(),
    {
        if gpus.len() == 0 {
            Seq::empty()
        } else {
            let had = self.unheld(agent, gpus.drop_last());
            if self.held(agent, gpus.last()) {
                had
            } else {
                had.push(gpus.last())
            }
        }
    }

    /// The GPUs of an agent that nothing holds, in device order.
    pub open spec fn free_gpus(self, agent: Seq<char>) -> Seq<u32> {
        if self.agents.contains_key(agent) {
            self.unheld(agent, gpu_indices(self.agents[agent].machine))
        } else {
            Seq::empty()
        }
    }

    /// The state with one more event to publish.
    pub open spec fn emit(self, kind: Seq<char>, patch: Seq<PatchV>, detail: Seq<char>) -> StateV {
        StateV { events: self.events.push(EventV { kind, patch, detail }), ..self }
    }
}

/// Whether a number is one of a list.
pub fn has_u32(v: &Vec<u32>, g: u32) -> (r: bool)
    ensures
        r == v@.contains(g),
{
    let mut i: usize = 0;
    while i < v.len()
        invariant
            i <= v@.len(),
            forall|j: int| 0 <= j < i ==> v@[j] != g,
        decreases v@.len() - i,
    {
        if v[i] == g {
            return true;
        }
        i += 1;
    }
    false
}

impl PgInfo {
    fn holds(&self, agent: &str, g: u32) -> (r: bool)
        ensures
            r == pg_holds(self.deep_view(), agent@, g),
    {
        if self.state != PgState::Created {
            return false;
        }
        let ghost bs = bundle_views(self.assignment@);
        let mut i: usize = 0;
        while i < self.assignment.len()
            invariant
                bs == bundle_views(self.assignment@),
                i <= self.assignment@.len(),
                forall|j: int|
                    0 <= j < i ==> !((#[trigger] bs[j]) is Some && bs[j]->Some_0.agent == agent@
                        && bs[j]->Some_0.gpu_ids.contains(g)),
                self.state == PgState::Created,
            decreases self.assignment@.len() - i,
        {
            proof {
                assert(bs[i as int] == opt_bundle(self.assignment@[i as int]));
            }
            if let Some(b) = &self.assignment[i] {
                if same(b.agent.as_str(), agent) && has_u32(&b.gpu_ids, g) {
                    return true;
                }
            }
            i += 1;
        }
        false
    }
}

impl ActorInfo {
    fn holds(&self, agent: &str, g: u32) -> (r: bool)
        ensures
            r == actor_holds(self.deep_view(), agent@, g),
    {
        same(self.agent.as_str(), agent) && !self.dead() && has_u32(&self.gpu_ids, g)
    }
}

impl State {
    fn gpu_held(&self, agent: &str, g: u32) -> (r: bool)
        ensures
            r == self@.held(agent@, g),
    {
        let n: usize = self.pgs.len();
        let mut i: usize = 0;
        while i < n
            invariant
                i <= n,
                n == self.pgs.order().len(),
                lists(self.pgs.order(), self.pgs@.dom()),
                forall|j: int|
                    0 <= j < i ==> !pg_holds(
                        self@.pgs[#[trigger] self.pgs.order()[j]],
                        agent@,
                        g,
                    ),
            decreases n - i,
        {
            let p = self.pgs.val_at(i);
            let ghost k = self.pgs.order()[i as int];
            proof {
                assert(self@.pgs.contains_key(k));
            }
            if p.holds(agent, g) {
                return true;
            }
            i += 1;
        }
        proof {
            assert forall|k: Seq<char>| #[trigger] self@.pgs.contains_key(k) implies !pg_holds(
                self@.pgs[k],
                agent@,
                g,
            ) by {
                assert(self.pgs@.dom().contains(k));
                let j = self.pgs.order().index_of(k);
                assert(self.pgs.order()[j] == k);
            }
        }
        let n: usize = self.actors.len();
        let mut i: usize = 0;
        while i < n
            invariant
                i <= n,
                n == self.actors.order().len(),
                lists(self.actors.order(), self.actors@.dom()),
                forall|j: int|
                    0 <= j < i ==> !actor_holds(
                        self@.actors[#[trigger] self.actors.order()[j]],
                        agent@,
                        g,
                    ),
            decreases n - i,
        {
            let a = self.actors.val_at(i);
            let ghost k = self.actors.order()[i as int];
            proof {
                assert(self@.actors.contains_key(k));
            }
            if a.holds(agent, g) {
                return true;
            }
            i += 1;
        }
        proof {
            assert forall|k: Seq<char>| #[trigger] self@.actors.contains_key(k) implies !actor_holds(
                self@.actors[k],
                agent@,
                g,
            ) by {
                assert(self.actors@.dom().contains(k));
                let j = self.actors.order().index_of(k);
                assert(self.actors.order()[j] == k);
            }
        }
        false
    }

    /// The GPUs of an agent that no placement group and no live actor holds,
    /// in device order.
    pub fn free_gpus_of(&self, agent: &str) -> (r: Vec<u32>)
        ensures
            r@ == self@.free_gpus(agent@),
    {
        let mut out: Vec<u32> = Vec::new();
        if let Some(a) = self.agents.get(agent) {
            let ghost all = gpu_indices(a.machine.deep_view());
            let mut i: usize = 0;
            while i < a.machine.gpus.len()
                invariant
                    i <= a.machine.gpus@.len(),
                    all == gpu_indices(a.machine.deep_view()),
                    out@ == self@.unheld(agent@, all.take(i as int)),
                decreases a.machine.gpus@.len() - i,
            {
                let g: u32 = a.machine.gpus[i].index;
                proof {
                    assert(all.take(i + 1).drop_last() =~= all.take(i as int));
                    assert(all.take(i + 1).last() == g);
                }
                if !self.gpu_held(agent, g) {
                    out.push(g);
                }
                i += 1;
            }
            proof {
                assert(all.take(all.len() as int) =~= all);
            }
        }
        out
    }

    /// Records something that happened.
    pub fn emit_patch(&mut self, kind: &str, patch: Vec<Patch>, detail: &str)
        ensures
            final(self)@ == old(self)@.emit(kind@, patch_views(patch@), detail@),
    {
        let ghost was = self@;
        let e = Event { kind: kind.to_string(), patch, detail: detail.to_string() };
        self.events.push(e);
        proof {
            assert(self@.events =~= was.events.push(e.deep_view()));
        }
    }
}

} // verus!
