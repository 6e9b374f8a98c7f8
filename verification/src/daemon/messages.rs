//! What a daemon does with a client's message, and with an agent's.

use vstd::prelude::*;
use vstd::string::*;

use crate::common::dict::{ordered, Dict};
use crate::common::json::{meaning, Json};
use crate::common::quote::{debug_quoted, debug_text};
use crate::common::text::{opt_text, texts};
use crate::daemon::actors::{
    died, do_get, do_wait, kill_actor, kill_views, killed, looked, opt_list, stop_actors, stopped,
    waited, Got, Kill,
};
use crate::daemon::agents::{
    actor_exit, actor_result, exit_counted, exit_reason, note_told, result_told, service_note,
    spawn_result, spawn_told,
};
use crate::daemon::calls::{
    actor_call, avail_among, available, called, client_group, create_actor, create_complaint,
    created, group_of, nodes, nodes_of, pg_create, pg_created, pg_gone, pg_remove, pg_table,
    resources, spawn_of, table_of, totals_among, ActorReq, ActorReqV, AvailRow, CallStep, NodeRow,
    Spawn, Totals,
};
use crate::daemon::claims::{claim, claim_answer, plain_refusal, refused, Refusal};
use crate::daemon::place::placed;
use crate::daemon::state::{State, StateV};
use crate::daemon::status::{snapshot, snapshot_of, LocalAddrs};

verus! {

broadcast use meaning;

// ---------------------------------------------------------------------------
// Clients
// ---------------------------------------------------------------------------
/// What a client asks for.
#[derive(Debug)]
pub enum ClientMsg {
    Nodes,
    Resources,
    Available,
    Claim { name: String, shape: Json },
    PgCreate { bundles: Vec<u32>, strategy: String, claim: String },
    PgTable { pg_id: String },
    PgRemove { pg_id: String },
    ActorCreate { name: String, num_gpus: u32, pg_id: String, bundle: usize, env: Dict<String> },
    ActorCall { actor_id: String, method: String },
    RefGet { ref_id: String },
    RefWait { ref_ids: Vec<String>, num_returns: usize },
    ActorKill { actor_id: String },
    Status { group: Option<String> },
    ActorStop { group: String, all: bool },
    /// A message of a type nobody here knows.
    Unknown { t: String },
    /// A message that no client sends, as a log shows it.
    Unexpected { shown: String },
}

/// Who asks, and when.
#[derive(Debug)]
pub struct Turn {
    pub client: String,
    pub now: u64,
    /// Whether groups are placed inside fabrics.
    pub by_island: bool,
    /// An id nobody has yet, for what the message makes.
    pub new_id: String,
    /// Whether the time the client gave a wait is over.
    pub expired: bool,
}

/// What a client is answered, or what is to be done before it can be.
#[derive(Debug)]
pub enum Reply {
    Nodes { rows: Dict<NodeRow> },
    Resources { totals: Totals },
    Available { rows: Dict<AvailRow> },
    Claimed { name: String, generation: u64, head: String, view: Json },
    PgCreated { pg_id: String },
    PgTable { table: Json },
    Done,
    /// An actor's spawn is to be sent.
    Spawn { actor_id: String, spawn: Spawn },
    Call { step: CallStep },
    Get { got: Got },
    Wait { ready: Option<Vec<String>> },
    /// Actors' ends are to be sent.
    Kills { kills: Vec<Kill> },
    Snapshot { doc: Json },
    Error { error: String },
    Refused { refusal: Refusal },
}

/// The request that makes an actor.
pub open spec fn actor_request(
    t: Turn,
    name: Seq<char>,
    num_gpus: u32,
    pg_id: Seq<char>,
    bundle: nat,
    env: Map<Seq<char>, Seq<char>>,
) -> ActorReqV {
    ActorReqV {
        client: t.client@,
        name,
        num_gpus,
        pg_id,
        bundle,
        env,
        actor_id: t.new_id@,
    }
}

/// What a client's message comes to: the state after it, and the answer.
pub open spec fn answers(
    s: StateV,
    local: LocalAddrs,
    turn: Turn,
    msg: ClientMsg,
    payload: Seq<u8>,
    t: StateV,
    r: Reply,
) -> bool {
    match msg {
        ClientMsg::Nodes => {
            &&& t == s
            &&& r matches Reply::Nodes { rows } && rows.deep_view()
            == nodes_of(s, turn.client@)
        },
        ClientMsg::Resources => {
            &&& t == s
            &&& r matches Reply::Resources { totals } && totals
            == totals_among(s, group_of(s, turn.client@), ordered(s.agents.dom()))
        },
        ClientMsg::Available => {
            &&& t == s
            &&& r matches Reply::Available { rows } && rows.deep_view()
            == avail_among(s, group_of(s, turn.client@), ordered(s.agents.dom()))
        },
        ClientMsg::Claim { name, shape } => {
            let (after, want) = claim_answer(
                s,
                local.deep_view(),
                turn.client@,
                group_of(s, turn.client@),
                name@,
                shape.v(),
            );
            t == after && match want {
                Ok((g, v)) => r matches Reply::Claimed { name: n, generation, head, view } && n@
                    == name@ && generation == g && head@ == after.head_node_id && view.v() == v,
                Err(e) => r matches Reply::Refused { refusal } && refusal@ == e,
            }
        },
        ClientMsg::PgCreate { bundles, strategy, claim } => {
            &&& t == pg_created(
            s,
            turn.client@,
            turn.new_id@,
            bundles@,
            strategy@,
            claim@,
            turn.now,
            turn.by_island,
        )
            &&& r matches Reply::PgCreated { pg_id } && pg_id@ == turn.new_id@
        },
        ClientMsg::PgTable { pg_id } => t == s && (if s.pgs.contains_key(pg_id@) {
            r matches Reply::PgTable { table } && table.v() == table_of(s.pgs[pg_id@])
        } else {
            r matches Reply::Error { error } && error@ == "no such placement group "@ + pg_id@
        }),
        ClientMsg::PgRemove { pg_id } => t == placed(
            pg_gone(s, pg_id@, turn.now, ""@),
            turn.by_island,
        ) && r is Done,
        ClientMsg::ActorCreate { name, num_gpus, pg_id, bundle, env } => {
            let q = actor_request(
                turn,
                name@,
                num_gpus,
                pg_id@,
                bundle as nat,
                env.deep_view(),
            );
            match create_complaint(s, q) {
                Some(e) => {
                    &&& t == s
                    &&& r matches Reply::Error { error } && error@ == e
                },
                None => {
                    &&& t == created(s, q)
                    &&& r matches Reply::Spawn { actor_id, spawn } && actor_id@ == turn.new_id@
                        && spawn@ == spawn_of(s, q)
                },
            }
        },
        ClientMsg::ActorCall { actor_id, method } => r matches Reply::Call { step } && (t, step@)
            == called(s, turn.client@, actor_id@, method@, payload, turn.now),
        ClientMsg::RefGet { ref_id } => {
            &&& t == s
            &&& r matches Reply::Get { got } && got@ == looked(
            s,
            ref_id@,
            turn.expired,
        )
        },
        ClientMsg::RefWait { ref_ids, num_returns } => {
            &&& t == s
            &&& r matches Reply::Wait { ready }
            && opt_list(ready) == waited(s, texts(ref_ids@), num_returns as nat, turn.expired)
        },
        ClientMsg::ActorKill { actor_id } => {
            let (after, k) = killed(s, actor_id@, turn.now, turn.by_island);
            &&& t == after
            &&& r matches Reply::Kills { kills } && kill_views(kills@) == seq![k]
        },
        ClientMsg::Status { group } => {
            &&& t == s
            &&& r matches Reply::Snapshot { doc } && doc.v()
            == snapshot_of(s, opt_text(group), local.deep_view())
        },
        ClientMsg::ActorStop { group, all } => {
            let (after, want) = stopped(s, group@, all, turn.now, turn.by_island);
            t == after && match want {
                Ok(k) => r matches Reply::Kills { kills } && kill_views(kills@) == k,
                Err(e) => r matches Reply::Error { error } && error@ == e,
            }
        },
        ClientMsg::Unknown { t: tag } => {
            &&& t == s
            &&& r matches Reply::Refused { refusal } && refusal@
            == plain_refusal(
            "unknown_message"@,
            "no such message type "@ + debug_text(tag@),
        )
        },
        ClientMsg::Unexpected { shown } => {
            &&& t == s
            &&& r matches Reply::Error { error } && error@ == "unexpected client message: "@ + shown@
        },
    }
}

/// Does what a client's message asks for.
pub fn handle_client_msg(
    st: &mut State,
    local: &LocalAddrs,
    turn: &Turn,
    msg: ClientMsg,
    payload: Vec<u8>,
) -> (r: Reply)
    ensures
        answers(old(st)@, *local, *turn, msg, payload@, final(st)@, r),
{
    let client = turn.client.as_str();
    match msg {
        ClientMsg::Nodes => Reply::Nodes { rows: nodes(st, client) },
        ClientMsg::Resources => Reply::Resources { totals: resources(st, client) },
        ClientMsg::Available => Reply::Available { rows: available(st, client) },
        ClientMsg::Claim { name, shape } => {
            let group = client_group(st, client);
            match claim(st, local, client, group.as_str(), name.as_str(), &shape) {
                Ok((generation, view)) => Reply::Claimed {
                    name,
                    generation,
                    head: st.head_node_id.clone(),
                    view,
                },
                Err(refusal) => Reply::Refused { refusal },
            }
        },
        ClientMsg::PgCreate { bundles, strategy, claim } => {
            pg_create(
                st,
                client,
                turn.new_id.as_str(),
                bundles,
                strategy,
                claim,
                turn.now,
                turn.by_island,
            );
            Reply::PgCreated { pg_id: turn.new_id.clone() }
        },
        ClientMsg::PgTable { pg_id } => match pg_table(st, pg_id.as_str()) {
            Ok(table) => Reply::PgTable { table },
            Err(error) => Reply::Error { error },
        },
        ClientMsg::PgRemove { pg_id } => {
            pg_remove(st, pg_id.as_str(), turn.now, turn.by_island);
            Reply::Done
        },
        ClientMsg::ActorCreate { name, num_gpus, pg_id, bundle, env } => {
            let req = ActorReq {
                client: turn.client.clone(),
                name,
                num_gpus,
                pg_id,
                bundle,
                env,
                actor_id: turn.new_id.clone(),
            };
            match create_actor(st, req) {
                Ok(spawn) => Reply::Spawn { actor_id: turn.new_id.clone(), spawn },
                Err(error) => Reply::Error { error },
            }
        },
        ClientMsg::ActorCall { actor_id, method } => Reply::Call {
            step: actor_call(
                st,
                client,
                actor_id.as_str(),
                method.as_str(),
                payload,
                turn.now,
            ),
        },
        ClientMsg::RefGet { ref_id } => Reply::Get {
            got: do_get(st, ref_id.as_str(), turn.expired),
        },
        ClientMsg::RefWait { ref_ids, num_returns } => Reply::Wait {
            ready: do_wait(st, &ref_ids, num_returns, turn.expired),
        },
        ClientMsg::ActorKill { actor_id } => {
            let k = kill_actor(st, actor_id.as_str(), turn.now, turn.by_island);
            let ghost kv = k@;
            let mut kills: Vec<Kill> = Vec::new();
            kills.push(k);
            proof {
                assert(kill_views(kills@) =~= seq![kv]);
            }
            Reply::Kills { kills }
        },
        ClientMsg::Status { group } => Reply::Snapshot { doc: snapshot(st, &group, local) },
        ClientMsg::ActorStop { group, all } => match stop_actors(
            st,
            group.as_str(),
            all,
            turn.now,
            turn.by_island,
        ) {
            Ok(kills) => Reply::Kills { kills },
            Err(error) => Reply::Error { error },
        },
        ClientMsg::Unknown { t } => {
            let mut e = "no such message type ".to_string();
            e.append(debug_quoted(t.as_str()).as_str());
            Reply::Refused { refusal: refused("unknown_message", e) }
        },
        ClientMsg::Unexpected { shown } => {
            let mut error = "unexpected client message: ".to_string();
            error.append(shown.as_str());
            Reply::Error { error }
        },
    }
}

// ---------------------------------------------------------------------------
// Agents
// ---------------------------------------------------------------------------
/// What a registered agent says.
#[derive(Debug)]
pub enum AgentMsg {
    SpawnResult { actor_id: String, ok: bool, error: String, pid: u32 },
    Result { ref_id: String, ok: bool, error: String },
    Exit { actor_id: String, exit_code: Option<i32>, signal: Option<i32> },
    Note { service: String, note: String },
    /// Anything else, which is logged and left.
    Other,
}

/// The state after an agent's message.
pub open spec fn agent_said(
    s: StateV,
    agent: Seq<char>,
    msg: AgentMsg,
    payload: Seq<u8>,
    now: u64,
    by_island: bool,
) -> StateV {
    match msg {
        AgentMsg::SpawnResult { actor_id, ok, error, pid } => spawn_told(
            s,
            actor_id@,
            ok,
            error@,
            pid,
            now,
            by_island,
        ),
        AgentMsg::Result { ref_id, ok, error } => result_told(s, ref_id@, ok, error@, payload),
        AgentMsg::Exit { actor_id, exit_code, signal } => died(
            (StateV { counters: exit_counted(s.counters, exit_code, signal), ..s }),
            actor_id@,
            exit_reason(exit_code, signal),
            now,
            by_island,
        ),
        AgentMsg::Note { service, note } => note_told(s, agent, service@, note@),
        AgentMsg::Other => s,
    }
}

/// Takes in what a registered agent says.
pub fn handle_agent_msg(
    st: &mut State,
    agent: &str,
    msg: AgentMsg,
    payload: Vec<u8>,
    now: u64,
    by_island: bool,
)
    ensures
        final(st)@ == agent_said(old(st)@, agent@, msg, payload@, now, by_island),
{
    match msg {
        AgentMsg::SpawnResult { actor_id, ok, error, pid } => spawn_result(
            st,
            actor_id.as_str(),
            ok,
            error.as_str(),
            pid,
            now,
            by_island,
        ),
        AgentMsg::Result { ref_id, ok, error } => actor_result(
            st,
            ref_id.as_str(),
            ok,
            error,
            payload,
        ),
        AgentMsg::Exit { actor_id, exit_code, signal } => actor_exit(
            st,
            actor_id.as_str(),
            exit_code,
            signal,
            now,
            by_island,
        ),
        AgentMsg::Note { service, note } => service_note(st, agent, service.as_str(), note),
        AgentMsg::Other => {},
    }
}

} // verus!
