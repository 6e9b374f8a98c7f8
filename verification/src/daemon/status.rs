//! Status snapshot: the rows, and the document made of them.
//!
//! The event that changes a row sends the row that the snapshot holds, so the
//! two cannot drift: both come from the functions here.

use vstd::prelude::*;
use vstd::string::*;

use crate::common::dict::{lemma_take_contains, lists, ordered, Dict};
use crate::common::json::{
    meaning, metas, opt_str, opt_str_json, opt_uint, opt_uint_json, put, str_array, str_list, Json,
    JsonV,
};
use crate::common::text::{opt_text, same, texts};
use crate::daemon::claim::Island;
use crate::daemon::proto::{PROTO, Gpu, GpuV, Machine, MachineV, Service, ServiceV};
use crate::daemon::state::{
    ActorInfo, ActorState, ActorStateV, ActorV, AgentInfo, AgentV, ClaimInfo, ClaimV, ClientInfo,
    ClientV, Counters, IslandV, PairProbe, PairV, PeerInfo, PeerV, PgInfo, PgState, PgV, State,
    StateV,
};

verus! {

broadcast use meaning;

// ---------------------------------------------------------------------------
// Small pieces
// ---------------------------------------------------------------------------
/// An array of numbers.
pub open spec fn uint_array(v: Seq<u32>) -> JsonV {
    JsonV::Arr(Seq::new(v.len(), |i: int| JsonV::Uint(v[i] as u64)))
}

fn uints(v: &Vec<u32>) -> (r: Json)
    ensures
        r.v() == uint_array(v@),
{
    let mut out: Vec<Json> = Vec::new();
    let mut i: usize = 0;
    while i < v.len()
        invariant
            i <= v@.len(),
            out@.len() == i,
            forall|j: int| 0 <= j < i ==> (#[trigger] out@[j]).v() == JsonV::Uint(v@[j] as u64),
        decreases v@.len() - i,
    {
        out.push(Json::Uint(v[i] as u64));
        i += 1;
    }
    proof {
        assert(metas(out@) =~= uint_array(v@)->Arr_0);
    }
    Json::Arr(out)
}

/// A GPU's row.
pub open spec fn gpu_row(g: GpuV) -> JsonV {
    JsonV::Obj(
        map![
            "index"@ => JsonV::Uint(g.index as u64),
            "vendor"@ => JsonV::Str(g.vendor),
            "name"@ => JsonV::Str(g.name),
            "memory"@ => JsonV::Uint(g.memory),
            "uma"@ => JsonV::Bool(g.uma),
        ],
    )
}

fn gpu_json(g: &Gpu) -> (r: Json)
    ensures
        r.v() == gpu_row(g.deep_view()),
{
    let mut d = Json::object();
    put(&mut d, "index", Json::Uint(g.index as u64));
    put(&mut d, "vendor", Json::Str(g.vendor.clone()));
    put(&mut d, "name", Json::Str(g.name.clone()));
    put(&mut d, "memory", Json::Uint(g.memory));
    put(&mut d, "uma", Json::Bool(g.uma));
    Json::Obj(d)
}

/// A machine's row.
pub open spec fn machine_row(m: MachineV) -> JsonV {
    JsonV::Obj(
        map![
            "memory"@ => JsonV::Uint(m.memory),
            "cpus"@ => JsonV::Uint(m.cpus as u64),
            "gpus"@ => JsonV::Arr(Seq::new(m.gpus.len(), |i: int| gpu_row(m.gpus[i]))),
        ],
    )
}

fn machine_json(m: &Machine) -> (r: Json)
    ensures
        r.v() == machine_row(m.deep_view()),
{
    let mut gpus: Vec<Json> = Vec::new();
    let mut i: usize = 0;
    while i < m.gpus.len()
        invariant
            i <= m.gpus@.len(),
            gpus@.len() == i,
            forall|j: int|
                0 <= j < i ==> (#[trigger] gpus@[j]).v() == gpu_row(m.deep_view().gpus[j]),
        decreases m.gpus@.len() - i,
    {
        gpus.push(gpu_json(&m.gpus[i]));
        i += 1;
    }
    let mut d = Json::object();
    put(&mut d, "memory", Json::Uint(m.memory));
    put(&mut d, "cpus", Json::Uint(m.cpus as u64));
    proof {
        assert(metas(gpus@) =~= Seq::new(
            m.deep_view().gpus.len(),
            |i: int| gpu_row(m.deep_view().gpus[i]),
        ));
    }
    put(&mut d, "gpus", Json::Arr(gpus));
    Json::Obj(d)
}

/// A service's row.
pub open spec fn service_row(s: ServiceV) -> JsonV {
    JsonV::Obj(
        map![
            "host"@ => JsonV::Str(s.host),
            "port"@ => JsonV::Uint(s.port as u64),
            "path"@ => JsonV::Str(s.path),
            "provider"@ => JsonV::Str(s.provider),
            "note"@ => JsonV::Str(s.note),
        ],
    )
}

fn service_json(s: &Service) -> (r: Json)
    ensures
        r.v() == service_row(s.deep_view()),
{
    let mut d = Json::object();
    put(&mut d, "host", Json::Str(s.host.clone()));
    put(&mut d, "port", Json::Uint(s.port as u64));
    put(&mut d, "path", Json::Str(s.path.clone()));
    put(&mut d, "provider", Json::Str(s.provider.clone()));
    put(&mut d, "note", Json::Str(s.note.clone()));
    Json::Obj(d)
}

/// Each value of a map turned into JSON.
pub open spec fn rows<V>(m: Map<Seq<char>, V>, row: spec_fn(V) -> JsonV) -> JsonV {
    JsonV::Obj(Map::new(|k: Seq<char>| m.contains_key(k), |k: Seq<char>| row(m[k])))
}

fn services_json(s: &Dict<Service>) -> (r: Json)
    ensures
        r.v() == rows(s.deep_view(), |x: ServiceV| service_row(x)),
{
    let mut vals: Vec<Json> = Vec::new();
    let n: usize = s.len();
    let mut i: usize = 0;
    while i < n
        invariant
            i <= n,
            n == s.order().len(),
            vals@.len() == i,
            forall|j: int|
                0 <= j < i ==> (#[trigger] vals@[j]).v() == service_row(
                    s@[s.order()[j]].deep_view(),
                ),
        decreases n - i,
    {
        vals.push(service_json(s.val_at(i)));
        i += 1;
    }
    let out = s.with_values(vals);
    proof {
        assert forall|k: Seq<char>| s@.contains_key(k) implies out@[k].v() == service_row(
            s@[k].deep_view(),
        ) by {
            assert(s@.dom().contains(k));
            let j = s.order().index_of(k);
            assert(s.order()[j] == k);
            assert(vals@[j].v() == service_row(s@[s.order()[j]].deep_view()));
        }
        assert(out.deep_view() =~= rows(s.deep_view(), |x: ServiceV| service_row(x))->Obj_0);
    }
    Json::Obj(out)
}

pub(crate) fn texts_json(s: &Dict<String>) -> (r: Json)
    ensures
        r.v() == rows(s.deep_view(), |x: Seq<char>| JsonV::Str(x)),
{
    let mut vals: Vec<Json> = Vec::new();
    let n: usize = s.len();
    let mut i: usize = 0;
    while i < n
        invariant
            i <= n,
            n == s.order().len(),
            vals@.len() == i,
            forall|j: int|
                0 <= j < i ==> (#[trigger] vals@[j]).v() == JsonV::Str(s@[s.order()[j]]@),
        decreases n - i,
    {
        vals.push(Json::Str(s.val_at(i).clone()));
        i += 1;
    }
    let out = s.with_values(vals);
    proof {
        assert forall|k: Seq<char>| s@.contains_key(k) implies out@[k].v() == JsonV::Str(
            s@[k]@,
        ) by {
            assert(s@.dom().contains(k));
            let j = s.order().index_of(k);
            assert(s.order()[j] == k);
            assert(vals@[j].v() == JsonV::Str(s@[s.order()[j]]@));
        }
        assert(out.deep_view() =~= rows(s.deep_view(), |x: Seq<char>| JsonV::Str(x))->Obj_0);
    }
    Json::Obj(out)
}

pub(crate) fn lists_json(s: &Dict<Vec<String>>) -> (r: Json)
    ensures
        r.v() == rows(s.deep_view(), |x: Seq<Seq<char>>| str_array(x)),
{
    let mut vals: Vec<Json> = Vec::new();
    let n: usize = s.len();
    let mut i: usize = 0;
    while i < n
        invariant
            i <= n,
            n == s.order().len(),
            vals@.len() == i,
            forall|j: int|
                0 <= j < i ==> (#[trigger] vals@[j]).v() == str_array(texts(s@[s.order()[j]]@)),
        decreases n - i,
    {
        vals.push(str_list(s.val_at(i)));
        i += 1;
    }
    let out = s.with_values(vals);
    proof {
        assert forall|k: Seq<char>| s@.contains_key(k) implies out@[k].v() == str_array(
            s@[k].deep_view(),
        ) by {
            assert(s@.dom().contains(k));
            let j = s.order().index_of(k);
            assert(s.order()[j] == k);
            assert(vals@[j].v() == str_array(texts(s@[s.order()[j]]@)));
            assert(texts(s@[k]@) =~= s@[k].deep_view());
        }
        assert(out.deep_view() =~= rows(
            s.deep_view(),
            |x: Seq<Seq<char>>| str_array(x),
        )->Obj_0);
    }
    Json::Obj(out)
}

// ---------------------------------------------------------------------------
// Rows
// ---------------------------------------------------------------------------
/// An agent's row.
pub open spec fn agent_row_of(s: StateV, a: AgentV) -> JsonV {
    JsonV::Obj(
        map![
            "node_ip"@ => JsonV::Str(a.node_ip),
            "node_id"@ => JsonV::Str(a.node_id),
            "container"@ => JsonV::Str(a.container),
            "alive"@ => JsonV::Bool(a.alive),
            "degraded"@ => JsonV::Bool(a.degraded),
            "gone_since_ms"@ => opt_uint(a.gone_since_ms),
            "machine"@ => machine_row(a.machine),
            "gpus_free"@ => uint_array(s.free_gpus(a.id)),
            "services"@ => rows(a.services, |x: ServiceV| service_row(x)),
            "pid"@ => JsonV::Uint(a.pid as u64),
        ],
    )
}

/// One agent's row. The event that changes an agent sends this same row,
/// so the two cannot drift.
pub fn agent_row(st: &State, a: &AgentInfo) -> (r: Json)
    ensures
        r.v() == agent_row_of(st@, a.deep_view()),
{
    let mut d = Json::object();
    put(&mut d, "node_ip", Json::Str(a.node_ip.clone()));
    put(&mut d, "node_id", Json::Str(a.node_id.clone()));
    put(&mut d, "container", Json::Str(a.container.clone()));
    put(&mut d, "alive", Json::Bool(a.alive));
    put(&mut d, "degraded", Json::Bool(a.degraded));
    put(&mut d, "gone_since_ms", opt_uint_json(a.gone_since_ms));
    put(&mut d, "machine", machine_json(&a.machine));
    put(&mut d, "gpus_free", uints(&st.free_gpus_of(a.id.as_str())));
    put(&mut d, "services", services_json(&a.services));
    put(&mut d, "pid", Json::Uint(a.pid as u64));
    Json::Obj(d)
}

/// The name of an actor's state.
pub open spec fn actor_state_name(s: ActorStateV) -> Seq<char> {
    match s {
        ActorStateV::Spawning => "spawning"@,
        ActorStateV::Running => "running"@,
        ActorStateV::Dead { .. } => "dead"@,
    }
}

/// Why an actor died; nothing while it lives.
pub open spec fn actor_reason(s: ActorStateV) -> Seq<char> {
    match s {
        ActorStateV::Dead { reason, .. } => reason,
        _ => Seq::empty(),
    }
}

/// An actor's row.
pub open spec fn actor_row_of(a: ActorV) -> JsonV {
    JsonV::Obj(
        map![
            "name"@ => JsonV::Str(a.name),
            "node_id"@ => JsonV::Str(a.node_id),
            "gpu_ids"@ => uint_array(a.gpu_ids),
            "state"@ => JsonV::Str(actor_state_name(a.state)),
            "reason"@ => JsonV::Str(actor_reason(a.state)),
            "pid"@ => opt_uint(match a.pid {
                Some(p) => Some(p as u64),
                None => None,
            }),
        ],
    )
}

/// One actor's row.
pub fn actor_row(a: &ActorInfo) -> (r: Json)
    ensures
        r.v() == actor_row_of(a.deep_view()),
{
    let (state, reason) = match &a.state {
        ActorState::Spawning => ("spawning", String::new()),
        ActorState::Running => ("running", String::new()),
        ActorState::Dead { reason, .. } => ("dead", reason.clone()),
    };
    let mut d = Json::object();
    put(&mut d, "name", Json::Str(a.name.clone()));
    put(&mut d, "node_id", Json::Str(a.node_id.clone()));
    put(&mut d, "gpu_ids", uints(&a.gpu_ids));
    put(&mut d, "state", Json::str(state));
    put(&mut d, "reason", Json::Str(reason));
    put(
        &mut d,
        "pid",
        opt_uint_json(
            match a.pid {
                Some(p) => Some(p as u64),
                None => None,
            },
        ),
    );
    Json::Obj(d)
}

/// The name of a placement group's state.
pub open spec fn pg_state_name(s: PgState) -> Seq<char> {
    match s {
        PgState::Pending => "PENDING"@,
        PgState::Created => "CREATED"@,
        PgState::Removed => "REMOVED"@,
    }
}

/// The name of a placement group's state.
pub fn pg_state(s: PgState) -> (r: &'static str)
    ensures
        r@ == pg_state_name(s),
{
    match s {
        PgState::Pending => "PENDING",
        PgState::Created => "CREATED",
        PgState::Removed => "REMOVED",
    }
}

/// A placement group's row.
pub open spec fn pg_row_of(p: PgV) -> JsonV {
    JsonV::Obj(
        map![
            "bundles"@ => uint_array(p.bundles),
            "strategy"@ => JsonV::Str(p.strategy),
            "state"@ => JsonV::Str(pg_state_name(p.state)),
            "claim"@ => JsonV::Str(p.claim),
            "pending_reason"@ => opt_str(p.pending_reason),
            "island_nodes"@ => opt_uint(match p.island {
                Some(i) => Some(i.nodes.len() as u64),
                None => None,
            }),
        ],
    )
}

/// One placement group's row.
pub fn pg_row(p: &PgInfo) -> (r: Json)
    ensures
        r.v() == pg_row_of(p.deep_view()),
{
    let mut d = Json::object();
    put(&mut d, "bundles", uints(&p.bundles));
    put(&mut d, "strategy", Json::Str(p.strategy.clone()));
    put(&mut d, "state", Json::str(pg_state(p.state)));
    put(&mut d, "claim", Json::Str(p.claim.clone()));
    put(&mut d, "pending_reason", opt_str_json(&p.pending_reason));
    let members: Option<u64> = match &p.island {
        Some(i) => Some(i.nodes.len() as u64),
        None => None,
    };
    put(&mut d, "island_nodes", opt_uint_json(members));
    Json::Obj(d)
}

/// A claim's row: what it holds, not the whole view.
pub open spec fn claim_row_of(c: ClaimV) -> JsonV {
    JsonV::Obj(
        map![
            "generation"@ => JsonV::Uint(c.generation),
            "holders"@ => str_array(ordered(c.holders)),
            "sets"@ => rows(
                c.view.field("sets"@).fields(),
                |x: JsonV| JsonV::Uint(x.items().len() as u64),
            ),
        ],
    )
}

fn set_sizes(view: &Json) -> (r: Json)
    ensures
        r.v() == rows(
            view.v().field("sets"@).fields(),
            |x: JsonV| JsonV::Uint(x.items().len() as u64),
        ),
{
    match view.fields_at("sets") {
        None => {
            let d = Json::object();
            proof {
                assert(d.deep_view() =~= rows(
                    view.v().field("sets"@).fields(),
                    |x: JsonV| JsonV::Uint(x.items().len() as u64),
                )->Obj_0);
            }
            Json::Obj(d)
        },
        Some(s) => {
            let mut vals: Vec<Json> = Vec::new();
            let n: usize = s.len();
            let mut i: usize = 0;
            while i < n
                invariant
                    i <= n,
                    n == s.order().len(),
                    vals@.len() == i,
                    forall|j: int|
                        0 <= j < i ==> (#[trigger] vals@[j]).v() == JsonV::Uint(
                            s@[s.order()[j]].v().items().len() as u64,
                        ),
                decreases n - i,
            {
                let size: usize = match s.val_at(i) {
                    Json::Arr(a) => a.len(),
                    _ => 0,
                };
                vals.push(Json::Uint(size as u64));
                i += 1;
            }
            let out = s.with_values(vals);
            proof {
                assert forall|k: Seq<char>| s@.contains_key(k) implies out@[k].v() == JsonV::Uint(
                    s@[k].v().items().len() as u64,
                ) by {
                    assert(s@.dom().contains(k));
                    let j = s.order().index_of(k);
                    assert(s.order()[j] == k);
                    assert(vals@[j].v() == JsonV::Uint(
                        s@[s.order()[j]].v().items().len() as u64,
                    ));
                }
                assert(out.deep_view() =~= rows(
                    view.v().field("sets"@).fields(),
                    |x: JsonV| JsonV::Uint(x.items().len() as u64),
                )->Obj_0);
            }
            Json::Obj(out)
        },
    }
}

/// The keys of a map as an array, in order.
pub fn keys_json<V>(d: &Dict<V>) -> (r: Json)
    ensures
        r.v() == str_array(ordered(d@.dom())),
{
    let mut out: Vec<Json> = Vec::new();
    let n: usize = d.len();
    let mut i: usize = 0;
    while i < n
        invariant
            i <= n,
            n == d.order().len(),
            out@.len() == i,
            forall|j: int| 0 <= j < i ==> (#[trigger] out@[j]).v() == JsonV::Str(d.order()[j]),
        decreases n - i,
    {
        out.push(Json::Str(d.key_at(i).clone()));
        i += 1;
    }
    proof {
        assert(metas(out@) =~= str_array(d.order())->Arr_0);
    }
    Json::Arr(out)
}

/// A claim's row: what it holds, not the whole view. The addresses and
/// interfaces behind `sets` come back from the claim itself.
pub fn claim_row(c: &ClaimInfo) -> (r: Json)
    ensures
        r.v() == claim_row_of(c.deep_view()),
{
    let mut d = Json::object();
    put(&mut d, "generation", Json::Uint(c.generation));
    put(&mut d, "holders", keys_json(&c.holders));
    put(&mut d, "sets", set_sizes(&c.view));
    Json::Obj(d)
}

/// A probed pair's row.
pub open spec fn pair_row(p: PairV) -> JsonV {
    JsonV::Obj(
        map![
            "ok"@ => JsonV::Bool(p.ok),
            "rtt_ms"@ => JsonV::Uint(p.rtt_ms),
            "last_ok_ms"@ => JsonV::Uint(p.last_ok_ms),
            "error"@ => JsonV::Str(p.error),
        ],
    )
}

fn pair_json(p: &PairProbe) -> (r: Json)
    ensures
        r.v() == pair_row(p.deep_view()),
{
    let mut d = Json::object();
    put(&mut d, "ok", Json::Bool(p.ok));
    put(&mut d, "rtt_ms", Json::Uint(p.rtt_ms));
    put(&mut d, "last_ok_ms", Json::Uint(p.last_ok_ms));
    put(&mut d, "error", Json::Str(p.error.clone()));
    Json::Obj(d)
}

/// The pairs probed from one near address.
pub open spec fn pair_rows(m: Map<Seq<char>, PairV>) -> JsonV {
    rows(m, |x: PairV| pair_row(x))
}

fn pairs_json(s: &Dict<PairProbe>) -> (r: Json)
    ensures
        r.v() == pair_rows(s.deep_view()),
{
    let mut vals: Vec<Json> = Vec::new();
    let n: usize = s.len();
    let mut i: usize = 0;
    while i < n
        invariant
            i <= n,
            n == s.order().len(),
            vals@.len() == i,
            forall|j: int|
                0 <= j < i ==> (#[trigger] vals@[j]).v() == pair_row(s@[s.order()[j]].deep_view()),
        decreases n - i,
    {
        vals.push(pair_json(s.val_at(i)));
        i += 1;
    }
    let out = s.with_values(vals);
    proof {
        assert forall|k: Seq<char>| s@.contains_key(k) implies out@[k].v() == pair_row(
            s@[k].deep_view(),
        ) by {
            assert(s@.dom().contains(k));
            let j = s.order().index_of(k);
            assert(s.order()[j] == k);
            assert(vals@[j].v() == pair_row(s@[s.order()[j]].deep_view()));
        }
        assert(out.deep_view() =~= pair_rows(s.deep_view())->Obj_0);
    }
    Json::Obj(out)
}

/// One peer's probed pairs, by near address, then by far one. A pair the
/// prober has not tried yet has no entry, which readers must not confuse with
/// a pair that failed.
pub open spec fn probe_rows(m: Map<Seq<char>, Map<Seq<char>, PairV>>) -> JsonV {
    rows(m, |x: Map<Seq<char>, PairV>| pair_rows(x))
}

fn probe_table(s: &Dict<Dict<PairProbe>>) -> (r: Json)
    ensures
        r.v() == probe_rows(s.deep_view()),
{
    let mut vals: Vec<Json> = Vec::new();
    let n: usize = s.len();
    let mut i: usize = 0;
    while i < n
        invariant
            i <= n,
            n == s.order().len(),
            vals@.len() == i,
            forall|j: int|
                0 <= j < i ==> (#[trigger] vals@[j]).v() == pair_rows(
                    s@[s.order()[j]].deep_view(),
                ),
        decreases n - i,
    {
        vals.push(pairs_json(s.val_at(i)));
        i += 1;
    }
    let out = s.with_values(vals);
    proof {
        assert forall|k: Seq<char>| s@.contains_key(k) implies out@[k].v() == pair_rows(
            s@[k].deep_view(),
        ) by {
            assert(s@.dom().contains(k));
            let j = s.order().index_of(k);
            assert(s.order()[j] == k);
            assert(vals@[j].v() == pair_rows(s@[s.order()[j]].deep_view()));
        }
        assert(out.deep_view() =~= probe_rows(s.deep_view())->Obj_0);
    }
    Json::Obj(out)
}

/// What a peer's row holds.
pub open spec fn peer_fields(p: PeerV) -> Map<Seq<char>, JsonV> {
    map![
        "node_ip"@ => JsonV::Str(p.node_ip),
        "link_ip"@ => JsonV::Str(p.link_ip),
        "addrs"@ => str_array(p.addrs),
        "addr_tags"@ => rows(p.addr_tags, |x: Seq<Seq<char>>| str_array(x)),
        "addr_ifaces"@ => rows(p.addr_ifaces, |x: Seq<char>| JsonV::Str(x)),
        "probes"@ => probe_rows(p.probe_pairs),
        "control_port"@ => JsonV::Uint(p.control_port as u64),
        "http_port"@ => JsonV::Uint(p.http_port as u64),
        "alive"@ => JsonV::Bool(p.alive),
        "stale"@ => JsonV::Bool(p.stale),
        "last_seen_ms"@ => JsonV::Uint(p.last_seen_ms),
        "dead_since_ms"@ => JsonV::Uint(p.dead_since_ms),
    ]
}

fn peer_dict(p: &PeerInfo) -> (d: Dict<Json>)
    ensures
        d.deep_view() == peer_fields(p.deep_view()),
{
    let mut d = Json::object();
    put(&mut d, "node_ip", Json::Str(p.node_ip.clone()));
    put(&mut d, "link_ip", Json::Str(p.link_ip.clone()));
    put(&mut d, "addrs", str_list(&p.addrs));
    put(&mut d, "addr_tags", lists_json(&p.addr_tags));
    put(&mut d, "addr_ifaces", texts_json(&p.addr_ifaces));
    put(&mut d, "probes", probe_table(&p.probe_pairs));
    put(&mut d, "control_port", Json::Uint(p.control_port as u64));
    put(&mut d, "http_port", Json::Uint(p.http_port as u64));
    put(&mut d, "alive", Json::Bool(p.alive));
    put(&mut d, "stale", Json::Bool(p.stale));
    put(&mut d, "last_seen_ms", Json::Uint(p.last_seen_ms));
    put(&mut d, "dead_since_ms", Json::Uint(p.dead_since_ms));
    d
}

/// A peer's row.
pub open spec fn peer_row_of(p: PeerV) -> JsonV {
    JsonV::Obj(peer_fields(p))
}

/// One peer's row, as the events that change it send it.
pub fn peer_row(p: &PeerInfo) -> (r: Json)
    ensures
        r.v() == peer_row_of(p.deep_view()),
{
    Json::Obj(peer_dict(p))
}

/// A client's row.
pub open spec fn client_row_of(c: ClientV) -> JsonV {
    JsonV::Obj(
        map![
            "group"@ => JsonV::Str(c.group),
            "kind"@ => JsonV::Str(c.kind),
            "node_id"@ => JsonV::Str(c.node_id),
            "session"@ => JsonV::Bool(c.has_session),
        ],
    )
}

/// One client's row.
pub fn client_row(c: &ClientInfo) -> (r: Json)
    ensures
        r.v() == client_row_of(c.deep_view()),
{
    let mut d = Json::object();
    put(&mut d, "group", Json::Str(c.group.clone()));
    put(&mut d, "kind", Json::Str(c.kind.clone()));
    put(&mut d, "node_id", Json::Str(c.node_id.clone()));
    put(&mut d, "session", Json::Bool(c.has_session));
    Json::Obj(d)
}

// ---------------------------------------------------------------------------
// The snapshot
// ---------------------------------------------------------------------------

/// The agents of a group, by id.
pub open spec fn agents_of(s: StateV, g: Seq<char>) -> JsonV {
    JsonV::Obj(
        Map::new(
            |k: Seq<char>| s.agents.contains_key(k) && s.agents[k].group == g,
            |k: Seq<char>| agent_row_of(s, s.agents[k]),
        ),
    )
}

fn agents_json(st: &State, g: &str) -> (r: Json)
    ensures
        r.v() == agents_of(st@, g@),
{
    let mut out = Json::object();
    let n: usize = st.agents.len();
    let ghost order = st.agents.order();
    let ghost want = agents_of(st@, g@)->Obj_0;
    let mut i: usize = 0;
    proof {
        assert(order.take(0) =~= Seq::<Seq<char>>::empty());
    }
    while i < n
        invariant
            i <= n,
            n == order.len(),
            order == st.agents.order(),
            lists(order, st.agents@.dom()),
            want == agents_of(st@, g@)->Obj_0,
            forall|k: Seq<char>| #[trigger]
                out.deep_view().contains_key(k) <==> order.take(i as int).contains(k)
                    && want.contains_key(k),
            forall|k: Seq<char>| #[trigger]
                out.deep_view().contains_key(k) ==> out.deep_view()[k] == want[k],
        decreases n - i,
    {
        let a = st.agents.val_at(i);
        let ghost key = order[i as int];
        let ghost had = out.deep_view();
        proof {
            assert(st@.agents.contains_key(key));
        }
        if same(a.group.as_str(), g) {
            put(&mut out, st.agents.key_at(i).as_str(), agent_row(st, a));
            proof {
                assert(want.contains_key(key));
                assert(out.deep_view() == had.insert(key, want[key]));
            }
        }
        proof {
            assert forall|k: Seq<char>| #[trigger]
                out.deep_view().contains_key(k) <==> order.take(i + 1).contains(k)
                    && want.contains_key(k) by {
                lemma_take_contains(order, i as int, k);
                assert(had.contains_key(k) <==> order.take(i as int).contains(k)
                    && want.contains_key(k));
            }
        }
        i += 1;
    }
    proof {
        assert(order.take(order.len() as int) =~= order);
        assert(out.deep_view() =~= want) by {
            assert forall|k: Seq<char>| #[trigger] want.contains_key(k) implies out.deep_view().contains_key(
                k,
            ) by {
                assert(st.agents@.dom().contains(k));
            }
        }
    }
    Json::Obj(out)
}

/// The actors of a group, by id.
pub open spec fn actors_of(s: StateV, g: Seq<char>) -> JsonV {
    JsonV::Obj(
        Map::new(
            |k: Seq<char>| s.actors.contains_key(k) && s.actors[k].group == g,
            |k: Seq<char>| actor_row_of(s.actors[k]),
        ),
    )
}

fn actors_json(st: &State, g: &str) -> (r: Json)
    ensures
        r.v() == actors_of(st@, g@),
{
    let mut out = Json::object();
    let n: usize = st.actors.len();
    let ghost order = st.actors.order();
    let ghost want = actors_of(st@, g@)->Obj_0;
    let mut i: usize = 0;
    proof {
        assert(order.take(0) =~= Seq::<Seq<char>>::empty());
    }
    while i < n
        invariant
            i <= n,
            n == order.len(),
            order == st.actors.order(),
            lists(order, st.actors@.dom()),
            want == actors_of(st@, g@)->Obj_0,
            forall|k: Seq<char>| #[trigger]
                out.deep_view().contains_key(k) <==> order.take(i as int).contains(k)
                    && want.contains_key(k),
            forall|k: Seq<char>| #[trigger]
                out.deep_view().contains_key(k) ==> out.deep_view()[k] == want[k],
        decreases n - i,
    {
        let a = st.actors.val_at(i);
        let ghost key = order[i as int];
        let ghost had = out.deep_view();
        proof {
            assert(st@.actors.contains_key(key));
        }
        if same(a.group.as_str(), g) {
            put(&mut out, st.actors.key_at(i).as_str(), actor_row(a));
            proof {
                assert(want.contains_key(key));
                assert(out.deep_view() == had.insert(key, want[key]));
            }
        }
        proof {
            assert forall|k: Seq<char>| #[trigger]
                out.deep_view().contains_key(k) <==> order.take(i + 1).contains(k)
                    && want.contains_key(k) by {
                lemma_take_contains(order, i as int, k);
                assert(had.contains_key(k) <==> order.take(i as int).contains(k)
                    && want.contains_key(k));
            }
        }
        i += 1;
    }
    proof {
        assert(order.take(order.len() as int) =~= order);
        assert(out.deep_view() =~= want) by {
            assert forall|k: Seq<char>| #[trigger] want.contains_key(k) implies out.deep_view().contains_key(
                k,
            ) by {
                assert(st.actors@.dom().contains(k));
            }
        }
    }
    Json::Obj(out)
}

/// The pgs of a group, by id.
pub open spec fn pgs_of(s: StateV, g: Seq<char>) -> JsonV {
    JsonV::Obj(
        Map::new(
            |k: Seq<char>| s.pgs.contains_key(k) && s.pgs[k].group == g,
            |k: Seq<char>| pg_row_of(s.pgs[k]),
        ),
    )
}

fn pgs_json(st: &State, g: &str) -> (r: Json)
    ensures
        r.v() == pgs_of(st@, g@),
{
    let mut out = Json::object();
    let n: usize = st.pgs.len();
    let ghost order = st.pgs.order();
    let ghost want = pgs_of(st@, g@)->Obj_0;
    let mut i: usize = 0;
    proof {
        assert(order.take(0) =~= Seq::<Seq<char>>::empty());
    }
    while i < n
        invariant
            i <= n,
            n == order.len(),
            order == st.pgs.order(),
            lists(order, st.pgs@.dom()),
            want == pgs_of(st@, g@)->Obj_0,
            forall|k: Seq<char>| #[trigger]
                out.deep_view().contains_key(k) <==> order.take(i as int).contains(k)
                    && want.contains_key(k),
            forall|k: Seq<char>| #[trigger]
                out.deep_view().contains_key(k) ==> out.deep_view()[k] == want[k],
        decreases n - i,
    {
        let a = st.pgs.val_at(i);
        let ghost key = order[i as int];
        let ghost had = out.deep_view();
        proof {
            assert(st@.pgs.contains_key(key));
        }
        if same(a.group.as_str(), g) {
            put(&mut out, st.pgs.key_at(i).as_str(), pg_row(a));
            proof {
                assert(want.contains_key(key));
                assert(out.deep_view() == had.insert(key, want[key]));
            }
        }
        proof {
            assert forall|k: Seq<char>| #[trigger]
                out.deep_view().contains_key(k) <==> order.take(i + 1).contains(k)
                    && want.contains_key(k) by {
                lemma_take_contains(order, i as int, k);
                assert(had.contains_key(k) <==> order.take(i as int).contains(k)
                    && want.contains_key(k));
            }
        }
        i += 1;
    }
    proof {
        assert(order.take(order.len() as int) =~= order);
        assert(out.deep_view() =~= want) by {
            assert forall|k: Seq<char>| #[trigger] want.contains_key(k) implies out.deep_view().contains_key(
                k,
            ) by {
                assert(st.pgs@.dom().contains(k));
            }
        }
    }
    Json::Obj(out)
}

/// A number, or the largest there is where it is larger.
pub open spec fn capped(n: nat) -> u64 {
    if n <= u64::MAX {
        n as u64
    } else {
        u64::MAX
    }
}

fn add_capped(a: u64, b: usize) -> (r: u64)
    ensures
        r == capped((a + b) as nat),
{
    let b: u64 = b as u64;
    if a > u64::MAX - b {
        u64::MAX
    } else {
        a + b
    }
}

/// Whether an agent counts for a group.
pub open spec fn counts(a: AgentV, g: Seq<char>) -> bool {
    a.alive && a.group == g
}

/// How many GPUs the live agents of a group have, of those in `keys`.
pub open spec fn gpus_total(s: StateV, g: Seq<char>, keys: Seq<Seq<char>>) -> nat
    decreases keys.len(),
{
    if keys.len() == 0 {
        0
    } else {
        let had = gpus_total(s, g, keys.drop_last());
        let a = s.agents[keys.last()];
        if counts(a, g) {
            had + a.machine.gpus.len()
        } else {
            had
        }
    }
}

/// How many GPUs of the live agents of a group are held, of those in `keys`.
pub open spec fn gpus_used(s: StateV, g: Seq<char>, keys: Seq<Seq<char>>) -> nat
    decreases keys.len(),
{
    if keys.len() == 0 {
        0
    } else {
        let had = gpus_used(s, g, keys.drop_last());
        let a = s.agents[keys.last()];
        if counts(a, g) {
            (had + a.machine.gpus.len() - s.free_gpus(keys.last()).len()) as nat
        } else {
            had
        }
    }
}

/// An agent has no more free GPUs than GPUs.
pub proof fn lemma_free_within(s: StateV, agent: Seq<char>, gpus: Seq<u32>)
    ensures
        s.unheld(agent, gpus).len() <= gpus.len(),
    decreases gpus.len(),
{
    if gpus.len() > 0 {
        lemma_free_within(s, agent, gpus.drop_last());
    }
}

pub(crate) fn count_gpus(st: &State, g: &str) -> (r: (u64, u64))
    ensures
        r.0 == capped(gpus_total(st@, g@, ordered(st@.agents.dom()))),
        r.1 == capped(gpus_used(st@, g@, ordered(st@.agents.dom()))),
{
    let n: usize = st.agents.len();
    let ghost order = st.agents.order();
    let mut total: u64 = 0;
    let mut used: u64 = 0;
    let mut i: usize = 0;
    proof {
        assert(st@.agents.dom() =~= st.agents@.dom());
    }
    while i < n
        invariant
            i <= n,
            n == order.len(),
            order == st.agents.order(),
            total == capped(gpus_total(st@, g@, order.take(i as int))),
            used == capped(gpus_used(st@, g@, order.take(i as int))),
        decreases n - i,
    {
        let a = st.agents.val_at(i);
        let ghost key = order[i as int];
        proof {
            assert(order.take(i + 1).drop_last() =~= order.take(i as int));
            assert(order.take(i + 1).last() == key);
            assert(st@.agents[key] == a.deep_view());
        }
        if a.alive && same(a.group.as_str(), g) {
            let free = st.free_gpus_of(st.agents.key_at(i).as_str());
            let have: usize = a.machine.gpus.len();
            proof {
                lemma_free_within(st@, key, crate::daemon::state::gpu_indices(a.machine.deep_view()));
            }
            total = add_capped(total, have);
            used = add_capped(used, have - free.len());
        }
        i += 1;
    }
    proof {
        assert(order.take(order.len() as int) =~= order);
    }
    (total, used)
}

/// The claims of a group, by name.
pub open spec fn claims_of(s: StateV, g: Seq<char>) -> Map<Seq<char>, ClaimV> {
    if s.claims.contains_key(g) {
        s.claims[g]
    } else {
        Map::empty()
    }
}

fn claims_json(st: &State, g: &str) -> (r: Json)
    ensures
        r.v() == rows(claims_of(st@, g@), |c: ClaimV| claim_row_of(c)),
{
    match st.claims.get(g) {
        None => {
            let d = Json::object();
            proof {
                assert(d.deep_view() =~= rows(
                    claims_of(st@, g@),
                    |c: ClaimV| claim_row_of(c),
                )->Obj_0);
            }
            Json::Obj(d)
        },
        Some(s) => {
            let mut vals: Vec<Json> = Vec::new();
            let n: usize = s.len();
            let mut i: usize = 0;
            while i < n
                invariant
                    i <= n,
                    n == s.order().len(),
                    vals@.len() == i,
                    forall|j: int|
                        0 <= j < i ==> (#[trigger] vals@[j]).v() == claim_row_of(
                            s@[s.order()[j]].deep_view(),
                        ),
                decreases n - i,
            {
                vals.push(claim_row(s.val_at(i)));
                i += 1;
            }
            let out = s.with_values(vals);
            proof {
                assert forall|k: Seq<char>| s@.contains_key(k) implies out@[k].v() == claim_row_of(
                    s@[k].deep_view(),
                ) by {
                    assert(s@.dom().contains(k));
                    let j = s.order().index_of(k);
                    assert(s.order()[j] == k);
                    assert(vals@[j].v() == claim_row_of(s@[s.order()[j]].deep_view()));
                }
                assert(claims_of(st@, g@) == s.deep_view());
                assert(out.deep_view() =~= rows(
                    s.deep_view(),
                    |c: ClaimV| claim_row_of(c),
                )->Obj_0);
            }
            Json::Obj(out)
        },
    }
}

/// A group's row.
pub open spec fn group_row(s: StateV, g: Seq<char>) -> JsonV {
    JsonV::Obj(
        map![
            "claims"@ => rows(claims_of(s, g), |c: ClaimV| claim_row_of(c)),
            "agents"@ => agents_of(s, g),
            "actors"@ => actors_of(s, g),
            "placement_groups"@ => pgs_of(s, g),
            "gpus_total"@ => JsonV::Uint(capped(gpus_total(s, g, ordered(s.agents.dom())))),
            "gpus_used"@ => JsonV::Uint(capped(gpus_used(s, g, ordered(s.agents.dom())))),
        ],
    )
}

fn group_json(st: &State, g: &str) -> (r: Json)
    ensures
        r.v() == group_row(st@, g@),
{
    let (total, used) = count_gpus(st, g);
    let mut d = Json::object();
    put(&mut d, "claims", claims_json(st, g));
    put(&mut d, "agents", agents_json(st, g));
    put(&mut d, "actors", actors_json(st, g));
    put(&mut d, "placement_groups", pgs_json(st, g));
    put(&mut d, "gpus_total", Json::Uint(total));
    put(&mut d, "gpus_used", Json::Uint(used));
    Json::Obj(d)
}

/// Whether an agent or an actor mentions a group.
pub open spec fn mentioned(s: StateV, g: Seq<char>) -> bool {
    ||| exists|k: Seq<char>| #[trigger] s.agents.contains_key(k) && s.agents[k].group == g
    ||| exists|k: Seq<char>| #[trigger] s.actors.contains_key(k) && s.actors[k].group == g
}

/// The groups a snapshot shows: the one asked for, or every one that an agent
/// or an actor mentions.
pub open spec fn shown(s: StateV, scope: Option<Seq<char>>, g: Seq<char>) -> bool {
    match scope {
        Some(x) => g == x,
        None => mentioned(s, g),
    }
}

pub(crate) fn groups_of(st: &State) -> (r: Dict<()>)
    ensures
        forall|g: Seq<char>| #[trigger] r@.contains_key(g) <==> mentioned(st@, g),
{
    let mut out: Dict<()> = Dict::new();
    let n: usize = st.agents.len();
    let ghost order = st.agents.order();
    let mut i: usize = 0;
    while i < n
        invariant
            i <= n,
            n == order.len(),
            order == st.agents.order(),
            lists(order, st.agents@.dom()),
            forall|g: Seq<char>| #[trigger]
                out@.contains_key(g) <==> exists|j: int|
                    0 <= j < i && st@.agents[#[trigger] order[j]].group == g,
        decreases n - i,
    {
        let a = st.agents.val_at(i);
        let ghost had = out@;
        proof {
            assert(st@.agents[order[i as int]] == a.deep_view());
        }
        out.insert(a.group.clone(), ());
        proof {
            assert forall|g: Seq<char>| #[trigger] out@.contains_key(g) <==> exists|j: int|
                0 <= j < i + 1 && st@.agents[#[trigger] order[j]].group == g by {
                if had.contains_key(g) {
                    let j = choose|j: int|
                        0 <= j < i && st@.agents[#[trigger] order[j]].group == g;
                    assert(0 <= j < i + 1);
                }
                if g == a.group@ {
                    assert(st@.agents[order[i as int]].group == g);
                }
            }
        }
        i += 1;
    }
    proof {
        assert forall|g: Seq<char>| #[trigger] out@.contains_key(g) <==> exists|k: Seq<char>|
            #[trigger] st@.agents.contains_key(k) && st@.agents[k].group == g by {
            if out@.contains_key(g) {
                let j = choose|j: int| 0 <= j < n && st@.agents[#[trigger] order[j]].group == g;
                assert(order.contains(order[j]));
                assert(st.agents@.dom().contains(order[j]));
                assert(st@.agents.contains_key(order[j]));
            }
            if exists|k: Seq<char>| #[trigger]
                st@.agents.contains_key(k) && st@.agents[k].group == g {
                let k = choose|k: Seq<char>| #[trigger]
                    st@.agents.contains_key(k) && st@.agents[k].group == g;
                assert(st.agents@.dom().contains(k));
                let j = order.index_of(k);
                assert(order[j] == k);
            }
        }
    }
    let ghost first = out@;
    let n: usize = st.actors.len();
    let ghost order = st.actors.order();
    let mut i: usize = 0;
    while i < n
        invariant
            i <= n,
            n == order.len(),
            order == st.actors.order(),
            lists(order, st.actors@.dom()),
            forall|g: Seq<char>| #[trigger]
                out@.contains_key(g) <==> first.contains_key(g) || exists|j: int|
                    0 <= j < i && st@.actors[#[trigger] order[j]].group == g,
        decreases n - i,
    {
        let a = st.actors.val_at(i);
        let ghost had = out@;
        proof {
            assert(st@.actors[order[i as int]] == a.deep_view());
        }
        out.insert(a.group.clone(), ());
        proof {
            assert forall|g: Seq<char>| #[trigger]
                out@.contains_key(g) <==> first.contains_key(g) || exists|j: int|
                    0 <= j < i + 1 && st@.actors[#[trigger] order[j]].group == g by {
                if had.contains_key(g) && !first.contains_key(g) {
                    let j = choose|j: int|
                        0 <= j < i && st@.actors[#[trigger] order[j]].group == g;
                    assert(0 <= j < i + 1);
                }
                if g == a.group@ {
                    assert(st@.actors[order[i as int]].group == g);
                }
            }
        }
        i += 1;
    }
    proof {
        assert forall|g: Seq<char>| #[trigger] out@.contains_key(g) <==> mentioned(st@, g) by {
            if out@.contains_key(g) && !first.contains_key(g) {
                let j = choose|j: int| 0 <= j < n && st@.actors[#[trigger] order[j]].group == g;
                assert(order.contains(order[j]));
                assert(st.actors@.dom().contains(order[j]));
                assert(st@.actors.contains_key(order[j]));
            }
            if exists|k: Seq<char>| #[trigger]
                st@.actors.contains_key(k) && st@.actors[k].group == g {
                let k = choose|k: Seq<char>| #[trigger]
                    st@.actors.contains_key(k) && st@.actors[k].group == g;
                assert(st.actors@.dom().contains(k));
                let j = order.index_of(k);
                assert(order[j] == k);
            }
        }
    }
    out
}

/// The groups of a snapshot.
pub open spec fn groups_doc(s: StateV, scope: Option<Seq<char>>) -> JsonV {
    JsonV::Obj(
        Map::new(|g: Seq<char>| shown(s, scope, g), |g: Seq<char>| group_row(s, g)),
    )
}

fn groups_json(st: &State, scope: &Option<String>) -> (r: Json)
    ensures
        r.v() == groups_doc(st@, opt_text(*scope)),
{
    let names = match scope {
        Some(g) => {
            let mut one: Dict<()> = Dict::new();
            one.insert(g.clone(), ());
            one
        },
        None => groups_of(st),
    };
    let mut vals: Vec<Json> = Vec::new();
    let n: usize = names.len();
    let mut i: usize = 0;
    while i < n
        invariant
            i <= n,
            n == names.order().len(),
            vals@.len() == i,
            forall|j: int|
                0 <= j < i ==> (#[trigger] vals@[j]).v() == group_row(st@, names.order()[j]),
        decreases n - i,
    {
        vals.push(group_json(st, names.key_at(i).as_str()));
        i += 1;
    }
    let out = names.with_values(vals);
    proof {
        let want = groups_doc(st@, opt_text(*scope))->Obj_0;
        assert forall|k: Seq<char>| names@.contains_key(k) implies out@[k].v() == group_row(
            st@,
            k,
        ) by {
            assert(names@.dom().contains(k));
            let j = names.order().index_of(k);
            assert(names.order()[j] == k);
            assert(vals@[j].v() == group_row(st@, names.order()[j]));
        }
        assert forall|k: Seq<char>| #[trigger] out.deep_view().contains_key(k) == want.contains_key(
            k,
        ) by {
            assert(out@.dom().contains(k) == names@.dom().contains(k));
            assert(names@.contains_key(k) == shown(st@, opt_text(*scope), k));
        }
        assert(out.deep_view() =~= want);
    }
    Json::Obj(out)
}

/// A summary of the groups in a peer's last snapshot.
pub open spec fn peer_groups(status: JsonV) -> JsonV {
    match status.field("groups"@) {
        JsonV::Obj(m) => rows(m, |g: JsonV| group_summary(g)),
        _ => JsonV::Null,
    }
}

fn copy_at(g: &Json, key: &str) -> (r: Json)
    ensures
        r.v() == g.v().field(key@),
{
    match g.get(key) {
        Some(j) => j.copy(),
        None => Json::Null,
    }
}

/// The summary of one group.
pub open spec fn group_summary(g: JsonV) -> JsonV {
    JsonV::Obj(
        map![
            "gpus_total"@ => g.field("gpus_total"@),
            "gpus_used"@ => g.field("gpus_used"@),
        ],
    )
}

fn peer_groups_json(status: &Json) -> (r: Json)
    ensures
        r.v() == peer_groups(status.v()),
{
    match status.fields_at("groups") {
        None => Json::Null,
        Some(s) => {
            let mut vals: Vec<Json> = Vec::new();
            let n: usize = s.len();
            let mut i: usize = 0;
            while i < n
                invariant
                    i <= n,
                    n == s.order().len(),
                    vals@.len() == i,
                    forall|j: int|
                        0 <= j < i ==> (#[trigger] vals@[j]).v() == group_summary(
                            s@[s.order()[j]].v(),
                        ),
                decreases n - i,
            {
                let g = s.val_at(i);
                let mut d = Json::object();
                put(&mut d, "gpus_total", copy_at(g, "gpus_total"));
                put(&mut d, "gpus_used", copy_at(g, "gpus_used"));
                vals.push(Json::Obj(d));
                i += 1;
            }
            let out = s.with_values(vals);
            proof {
                assert forall|k: Seq<char>| s@.contains_key(k) implies out@[k].v()
                    == group_summary(s@[k].v()) by {
                    assert(s@.dom().contains(k));
                    let j = s.order().index_of(k);
                    assert(s.order()[j] == k);
                    assert(vals@[j].v() == group_summary(s@[s.order()[j]].v()));
                }
                assert(out.deep_view() =~= peer_groups(status.v())->Obj_0);
            }
            Json::Obj(out)
        },
    }
}

/// A peer as a snapshot shows it: its row, and a summary of its groups. The
/// full detail lives on that daemon's own snapshot.
pub open spec fn peer_doc(p: PeerV) -> JsonV {
    JsonV::Obj(peer_fields(p).insert("groups"@, peer_groups(p.last_status)))
}

fn peers_json(s: &Dict<PeerInfo>) -> (r: Json)
    ensures
        r.v() == rows(s.deep_view(), |p: PeerV| peer_doc(p)),
{
    let mut vals: Vec<Json> = Vec::new();
    let n: usize = s.len();
    let mut i: usize = 0;
    while i < n
        invariant
            i <= n,
            n == s.order().len(),
            vals@.len() == i,
            forall|j: int|
                0 <= j < i ==> (#[trigger] vals@[j]).v() == peer_doc(s@[s.order()[j]].deep_view()),
        decreases n - i,
    {
        let p = s.val_at(i);
        let mut d = peer_dict(p);
        put(&mut d, "groups", peer_groups_json(&p.last_status));
        vals.push(Json::Obj(d));
        i += 1;
    }
    let out = s.with_values(vals);
    proof {
        assert forall|k: Seq<char>| s@.contains_key(k) implies out@[k].v() == peer_doc(
            s@[k].deep_view(),
        ) by {
            assert(s@.dom().contains(k));
            let j = s.order().index_of(k);
            assert(s.order()[j] == k);
            assert(vals@[j].v() == peer_doc(s@[s.order()[j]].deep_view()));
        }
        assert(out.deep_view() =~= rows(s.deep_view(), |p: PeerV| peer_doc(p))->Obj_0);
    }
    Json::Obj(out)
}

/// The clients of a snapshot.
pub open spec fn clients_doc(s: StateV, scope: Option<Seq<char>>) -> JsonV {
    JsonV::Obj(
        Map::new(
            |k: Seq<char>|
                s.clients.contains_key(k) && (scope is None || s.clients[k].group
                    == scope->Some_0),
            |k: Seq<char>| client_row_of(s.clients[k]),
        ),
    )
}

fn clients_json(st: &State, scope: &Option<String>) -> (r: Json)
    ensures
        r.v() == clients_doc(st@, opt_text(*scope)),
{
    let mut out = Json::object();
    let n: usize = st.clients.len();
    let ghost order = st.clients.order();
    let ghost want = clients_doc(st@, opt_text(*scope))->Obj_0;
    let mut i: usize = 0;
    proof {
        assert(order.take(0) =~= Seq::<Seq<char>>::empty());
    }
    while i < n
        invariant
            i <= n,
            n == order.len(),
            order == st.clients.order(),
            lists(order, st.clients@.dom()),
            want == clients_doc(st@, opt_text(*scope))->Obj_0,
            forall|k: Seq<char>| #[trigger]
                out.deep_view().contains_key(k) <==> order.take(i as int).contains(k)
                    && want.contains_key(k),
            forall|k: Seq<char>| #[trigger]
                out.deep_view().contains_key(k) ==> out.deep_view()[k] == want[k],
        decreases n - i,
    {
        let c = st.clients.val_at(i);
        let ghost key = order[i as int];
        let ghost had = out.deep_view();
        proof {
            assert(st@.clients.contains_key(key));
        }
        let in_scope = match scope {
            Some(g) => same(c.group.as_str(), g.as_str()),
            None => true,
        };
        if in_scope {
            put(&mut out, st.clients.key_at(i).as_str(), client_row(c));
            proof {
                assert(want.contains_key(key));
                assert(out.deep_view() == had.insert(key, want[key]));
            }
        }
        proof {
            assert forall|k: Seq<char>| #[trigger]
                out.deep_view().contains_key(k) <==> order.take(i + 1).contains(k)
                    && want.contains_key(k) by {
                lemma_take_contains(order, i as int, k);
                assert(had.contains_key(k) <==> order.take(i as int).contains(k)
                    && want.contains_key(k));
            }
        }
        i += 1;
    }
    proof {
        assert(order.take(order.len() as int) =~= order);
        assert(out.deep_view() =~= want) by {
            assert forall|k: Seq<char>| #[trigger] want.contains_key(k) implies out.deep_view().contains_key(
                k,
            ) by {
                assert(st.clients@.dom().contains(k));
            }
        }
    }
    Json::Obj(out)
}

/// The islands of a snapshot.
pub open spec fn islands_doc(v: Seq<IslandV>) -> JsonV {
    JsonV::Arr(Seq::new(v.len(), |i: int| island_row(v[i])))
}

/// An island's row.
pub open spec fn island_row(i: IslandV) -> JsonV {
    JsonV::Obj(
        map![
            "nodes"@ => str_array(i.nodes),
            "addrs"@ => rows(i.addr, |x: Seq<char>| JsonV::Str(x)),
        ],
    )
}

fn islands_json(v: &Vec<Island>) -> (r: Json)
    ensures
        r.v() == islands_doc(crate::daemon::state::island_views(v@)),
{
    let mut out: Vec<Json> = Vec::new();
    let mut i: usize = 0;
    while i < v.len()
        invariant
            i <= v@.len(),
            out@.len() == i,
            forall|j: int| 0 <= j < i ==> (#[trigger] out@[j]).v() == island_row(v@[j].deep_view()),
        decreases v@.len() - i,
    {
        let mut d = Json::object();
        put(&mut d, "nodes", str_list(&v[i].nodes));
        put(&mut d, "addrs", texts_json(&v[i].addr));
        out.push(Json::Obj(d));
        i += 1;
    }
    proof {
        assert(metas(out@) =~= islands_doc(crate::daemon::state::island_views(v@))->Arr_0);
    }
    Json::Arr(out)
}

/// The counters of a snapshot.
pub open spec fn counters_row(c: Counters) -> JsonV {
    JsonV::Obj(
        map![
            "actors_spawned"@ => JsonV::Uint(c.actors_spawned),
            "actor_exits_clean"@ => JsonV::Uint(c.actor_exits_clean),
            "actor_exits_signal"@ => JsonV::Uint(c.actor_exits_signal),
            "actor_exits_error"@ => JsonV::Uint(c.actor_exits_error),
            "calls_total"@ => JsonV::Uint(c.calls_total),
            "clients_total"@ => JsonV::Uint(c.clients_total),
            "agents_registered"@ => JsonV::Uint(c.agents_registered),
            "relayed"@ => JsonV::Uint(c.relayed),
        ],
    )
}

fn counters_json(c: &Counters) -> (r: Json)
    ensures
        r.v() == counters_row(*c),
{
    let mut d = Json::object();
    put(&mut d, "actors_spawned", Json::Uint(c.actors_spawned));
    put(&mut d, "actor_exits_clean", Json::Uint(c.actor_exits_clean));
    put(&mut d, "actor_exits_signal", Json::Uint(c.actor_exits_signal));
    put(&mut d, "actor_exits_error", Json::Uint(c.actor_exits_error));
    put(&mut d, "calls_total", Json::Uint(c.calls_total));
    put(&mut d, "clients_total", Json::Uint(c.clients_total));
    put(&mut d, "agents_registered", Json::Uint(c.agents_registered));
    put(&mut d, "relayed", Json::Uint(c.relayed));
    Json::Obj(d)
}

/// The addresses a daemon announces as its own.
#[derive(Debug)]
pub struct LocalAddrs {
    pub addrs: Vec<String>,
    pub addr_tags: Dict<Vec<String>>,
    pub addr_ifaces: Dict<String>,
}

/// A `LocalAddrs` as a mathematical value.
pub struct LocalV {
    pub addrs: Seq<Seq<char>>,
    pub addr_tags: Map<Seq<char>, Seq<Seq<char>>>,
    pub addr_ifaces: Map<Seq<char>, Seq<char>>,
}

impl DeepView for LocalAddrs {
    type V = LocalV;

    open spec fn deep_view(&self) -> LocalV {
        LocalV {
            addrs: texts(self.addrs@),
            addr_tags: self.addr_tags.deep_view(),
            addr_ifaces: self.addr_ifaces.deep_view(),
        }
    }
}

/// The snapshot of a state, of every group or of one.
pub open spec fn snapshot_of(s: StateV, scope: Option<Seq<char>>, local: LocalV) -> JsonV {
    JsonV::Obj(
        map![
            "proto"@ => JsonV::Str(PROTO@),
            "node_id"@ => JsonV::Str(s.node_id),
            "node_ip"@ => JsonV::Str(s.node_ip),
            "addrs"@ => str_array(local.addrs),
            "addr_tags"@ => rows(local.addr_tags, |x: Seq<Seq<char>>| str_array(x)),
            "addr_ifaces"@ => rows(local.addr_ifaces, |x: Seq<char>| JsonV::Str(x)),
            "hostname"@ => JsonV::Str(s.hostname),
            "control_addr"@ => JsonV::Str(s.control_addr),
            "head_node_id"@ => JsonV::Str(s.head_node_id),
            "head_generation"@ => JsonV::Uint(s.head_generation),
            "islands"@ => islands_doc(s.islands),
            "peers"@ => rows(s.peers, |p: PeerV| peer_doc(p)),
            "clients"@ => clients_doc(s, scope),
            "groups"@ => groups_doc(s, scope),
            "counters"@ => counters_row(s.counters),
        ],
    )
}

/// The snapshot of a state, of every group or of one.
pub fn snapshot(st: &State, scope: &Option<String>, local: &LocalAddrs) -> (r: Json)
    ensures
        r.v() == snapshot_of(st@, opt_text(*scope), local.deep_view()),
{
    let mut d = Json::object();
    put(&mut d, "proto", Json::str(PROTO));
    put(&mut d, "node_id", Json::Str(st.node_id.clone()));
    put(&mut d, "node_ip", Json::Str(st.node_ip.clone()));
    put(&mut d, "addrs", str_list(&local.addrs));
    put(&mut d, "addr_tags", lists_json(&local.addr_tags));
    put(&mut d, "addr_ifaces", texts_json(&local.addr_ifaces));
    put(&mut d, "hostname", Json::Str(st.hostname.clone()));
    put(&mut d, "control_addr", Json::Str(st.control_addr.clone()));
    put(&mut d, "head_node_id", Json::Str(st.head_node_id.clone()));
    put(&mut d, "head_generation", Json::Uint(st.head_generation));
    put(&mut d, "islands", islands_json(&st.fabrics.islands));
    put(&mut d, "peers", peers_json(&st.peers));
    put(&mut d, "clients", clients_json(st, scope));
    put(&mut d, "groups", groups_json(st, scope));
    put(&mut d, "counters", counters_json(&st.counters));
    Json::Obj(d)
}

} // verus!
