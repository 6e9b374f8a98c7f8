use mentat::common::dict::Dict;
use mentat::common::json::{Json, Real};
use mentat::daemon::actors::{do_get, do_wait, kill_actor, mark_actor_dead, orphans_of, Got, Kill};
use mentat::daemon::agents::{actor_exit, actor_result};
use mentat::daemon::calls::{actor_call, pg_remove, CallStep};
use mentat::daemon::claim::{BetweenReq, Link, Request, SetReq};
use mentat::daemon::claims::{claim, release_all};
use mentat::daemon::entry::{conn_entry, hostname, relay_claim, setting, Entry, First};
use mentat::daemon::ident::{misfiled, node_id_for, node_ip_of, BoxInfo, Head};
use mentat::daemon::messages::{handle_agent_msg, handle_client_msg, AgentMsg, ClientMsg, Reply, Turn};
use mentat::daemon::place::try_place;
use mentat::daemon::proto::{Gpu, Machine};
use mentat::daemon::state::{
    ActorInfo, ActorState, AgentInfo, ClaimInfo, ClientInfo, PgInfo, PgState, State,
};
use mentat::daemon::status::{snapshot, LocalAddrs};
use mentat::daemon::sweep::sweep_history;

fn value(v: serde_json::Value) -> Json {
    match v {
        serde_json::Value::Null => Json::Null,
        serde_json::Value::Bool(b) => Json::Bool(b),
        serde_json::Value::Number(n) => match (n.as_u64(), n.as_i64()) {
            (Some(u), _) => Json::Uint(u),
            (None, Some(i)) => Json::Neg(i),
            _ => {
                let f = n.as_f64().unwrap();
                let up = f.ceil().max(0.0);
                Json::Real(Real {
                    text: n.to_string(),
                    up: up as u64,
                    whole: up == f,
                })
            }
        },
        serde_json::Value::String(s) => Json::Str(s),
        serde_json::Value::Array(a) => Json::Arr(a.into_iter().map(value).collect()),
        serde_json::Value::Object(m) => {
            let mut d: Dict<Json> = Dict::new();
            for (k, v) in m {
                d.insert(k, value(v));
            }
            Json::Obj(d)
        }
    }
}

fn json(text: &str) -> Json {
    value(serde_json::from_str(text).unwrap())
}

/// What stands at a path of names.
fn at<'a>(j: &'a Json, path: &[&str]) -> Option<&'a Json> {
    let mut cur = j;
    for k in path {
        cur = cur.get(k)?;
    }
    Some(cur)
}

const NOW: u64 = 1_800_000_000_000;
const KEEP: u64 = 3_600_000;

fn local() -> LocalAddrs {
    LocalAddrs {
        addrs: Vec::new(),
        addr_tags: Dict::new(),
        addr_ifaces: Dict::new(),
    }
}

fn new_state() -> State {
    State::new("10.0.0.1", "box", "10.0.0.1:6379", 6380)
}

/// A second holder spells the shape its own way and joins the claim it already
/// holds.
#[test]
fn a_second_holder_may_spell_the_shape_differently() {
    let mut st = new_state();
    st.head_node_id = st.node_id.clone();

    let floats = json(r#"{"sets": [{"name": "s", "bundles": [1.0]}]}"#);
    let count = json(r#"{"sets": [{"name": "s", "bundles": 1}]}"#);

    // Solved already, since solving one needs a cluster to solve it on.
    let mut holders = Dict::new();
    holders.insert("c1".to_string(), ());
    let mut names = Dict::new();
    names.insert(
        "fence".to_string(),
        ClaimInfo {
            shape: Request {
                sets: vec![SetReq {
                    name: "s".into(),
                    bundles: vec![1],
                    link: Link::Any,
                }],
                between: Vec::<BetweenReq>::new(),
            },
            exact: vec!["1".into()],
            view: json(r#"{"sets": {}}"#),
            generation: 7,
            holders,
        },
    );
    st.claims.insert("grp".to_string(), names);

    for (who, shape) in [("c2", &floats), ("c3", &count)] {
        let (g, _) = claim(&mut st, &local(), who, "grp", "fence", shape)
            .unwrap_or_else(|e| panic!("{who}: {e:?}"));
        assert_eq!(g, 7, "a repeat claim returns the answer already solved");
    }

    // A different request under the same name is still refused.
    let wider = json(r#"{"sets": [{"name": "s", "bundles": [2]}]}"#);
    assert!(claim(&mut st, &local(), "c4", "grp", "fence", &wider).is_err());

    // So is a part of a device where a whole one is held.
    for other in ["[0.5]", "[-1]", "[1, 1]"] {
        let shape = format!(r#"{{"sets": [{{"name": "s", "bundles": {other}}}]}}"#);
        let e = claim(&mut st, &local(), "c4", "grp", "fence", &json(&shape)).unwrap_err();
        assert_eq!(e.code, "shape_conflict", "{other}");
    }

    // What is let go by everyone is gone.
    for who in ["c1", "c2", "c3"] {
        release_all(&mut st, who);
    }
    assert_eq!(st.claims.get("grp").unwrap().len(), 0);
}

fn state_with(owner: &str, at_ms: u64) -> State {
    let mut st = new_state();
    st.actors.insert(
        "a1".into(),
        ActorInfo {
            id: "a1".into(),
            name: "w0".into(),
            group: "g".into(),
            agent: "ag".into(),
            node_id: st.node_id.clone(),
            gpu_ids: vec![0],
            owner: owner.into(),
            state: ActorState::Dead {
                reason: "exited".into(),
                at_ms,
            },
            pid: None,
            queued_calls: Vec::new(),
        },
    );
    st
}

fn with_driver(mut st: State, client: &str) -> State {
    st.clients.insert(
        client.into(),
        ClientInfo {
            id: client.into(),
            group: "g".into(),
            kind: "driver".into(),
            node_id: st.node_id.clone(),
            has_session: true,
        },
    );
    st
}

fn revive(st: &mut State) {
    st.actors.get_mut("a1").unwrap().state = ActorState::Running;
}

/// A box that has booted a model dozens of times holds a row per boot, each from
/// a driver long gone.
#[test]
fn a_dead_actor_goes_once_its_driver_has() {
    let mut st = state_with("driver-1", 0);
    sweep_history(&mut st, NOW, KEEP);
    assert!(st.actors.len() == 0);
}

/// The row is what turns a call on a dead actor into the reason it died, and only
/// its owner can make that call.
#[test]
fn a_dead_actor_stays_while_its_driver_is_connected() {
    let mut st = with_driver(state_with("driver-1", 0), "driver-1");
    sweep_history(&mut st, NOW, KEEP);
    assert_eq!(st.actors.len(), 1);
}

/// A restarted daemon rebuilds its tables from the agents before any driver
/// reconnects, so for a moment every owner looks gone.
#[test]
fn a_recent_death_survives_a_daemon_restart() {
    let mut st = state_with("driver-1", NOW);
    sweep_history(&mut st, NOW, KEEP);
    assert_eq!(st.actors.len(), 1);
}

/// A driver that crashed while its daemon restarted never says hello again, so
/// its adopted actor would hold its GPU.
#[test]
fn a_new_session_replaces_actors_whose_owner_has_none() {
    let mut st = state_with("gone", 0);
    revive(&mut st);
    assert_eq!(orphans_of(&st, "g", "new"), vec!["a1".to_string()]);

    // The owner reconnecting is the same driver, and keeps its actor.
    assert!(orphans_of(&st, "g", "gone").is_empty());
    // An owner with a live session holds the group.
    let st = with_driver(st, "gone");
    assert!(orphans_of(&st, "g", "new").is_empty());
}

/// A live agent with a single GPU.
fn with_agent(mut st: State, id: &str) -> State {
    st.agents.insert(
        id.into(),
        AgentInfo {
            id: id.into(),
            group: "g".into(),
            node_id: st.node_id.clone(),
            node_ip: st.node_ip.clone(),
            machine: Machine {
                memory: 0,
                cpus: 1,
                gpus: vec![Gpu {
                    index: 0,
                    vendor: "nvidia".into(),
                    name: "fake".into(),
                    memory: 0,
                    uma: false,
                }],
            },
            container: "c".into(),
            pid: 1,
            services: Dict::new(),
            link: 3,
            alive: true,
            lost_at_ms: None,
            degraded: false,
            gone_since_ms: None,
            seq: 0,
        },
    );
    st
}

fn waiting_group(id: &str, owner: &str) -> PgInfo {
    PgInfo {
        id: id.into(),
        group: "g".into(),
        owner: owner.into(),
        bundles: vec![1],
        strategy: "PACK".into(),
        assignment: vec![None],
        state: PgState::Pending,
        created_ms: NOW,
        fail_reason: None,
        claim: String::new(),
        island: None,
        pending_reason: None,
        removed_ms: None,
    }
}

/// The old driver's reap ran placement while the actor was still running, so the
/// new driver's group pended behind a GPU that came free a moment later.
#[test]
fn an_actor_exit_places_the_group_waiting_on_its_gpu() {
    let mut st = with_agent(state_with("driver-1", 0), "ag");
    st.head_node_id = st.node_id.clone();
    revive(&mut st);
    let mut st = with_driver(st, "driver-2");
    st.pgs.insert("p1".into(), waiting_group("p1", "driver-2"));
    try_place(&mut st, true);
    assert_eq!(st.pgs.get("p1").unwrap().state, PgState::Pending);

    mark_actor_dead(&mut st, "a1", "actor process exited", NOW, true);
    assert_eq!(st.pgs.get("p1").unwrap().state, PgState::Created);
    assert_eq!(
        st.pgs.get("p1").unwrap().assignment[0].as_ref().unwrap().gpu_ids,
        vec![0]
    );
}

fn boxes() -> Vec<BoxInfo> {
    vec![
        BoxInfo {
            id: "id-10.100.0.2".into(),
            name: "gx10-5818".into(),
            addrs: vec!["10.100.0.2".into(), "192.168.1.77".into()],
        },
        BoxInfo {
            id: "id-10.100.0.1".into(),
            name: "gx10-2353".into(),
            addrs: vec!["10.100.0.1".into(), "192.168.1.70".into()],
        },
    ]
}

/// A container told to call itself by the LAN address of the box it runs on. Its
/// GPUs land on a node no island contains.
#[test]
fn a_lan_address_for_a_fabric_box_is_named() {
    let note = misfiled("192.168.1.77", "id-192.168.1.77", &boxes())
        .expect("the LAN address of a known box under another id");
    assert!(note.contains("gx10-5818"), "{note}");
    assert!(note.contains("192.168.1.77"), "{note}");
}

/// The address the box is filed under is what it should claim.
#[test]
fn the_matching_address_is_quiet() {
    assert_eq!(misfiled("10.100.0.2", "id-10.100.0.2", &boxes()), None);
}

/// An address no box in the mesh owns proves nothing about identity.
#[test]
fn an_unknown_address_is_quiet() {
    assert_eq!(misfiled("10.42.0.9", "id-10.42.0.9", &boxes()), None);
}

/// Loopback belongs to every box, so it identifies none.
#[test]
fn loopback_is_quiet() {
    let b = vec![BoxInfo {
        id: "id-a".into(),
        name: "a".into(),
        addrs: vec!["127.0.0.1".into(), "10.0.0.1".into()],
    }];
    assert_eq!(misfiled("127.0.0.1", "id-b", &b), None);
    assert_eq!(misfiled("", "id-b", &b), None);
}

// ---------------------------------------------------------------------------
// What holds of the operations together
// ---------------------------------------------------------------------------
fn turn(client: &str) -> Turn {
    Turn {
        client: client.into(),
        now: NOW,
        by_island: true,
        new_id: "new-1".into(),
        expired: false,
    }
}

fn serving() -> State {
    let mut st = with_driver(with_agent(state_with("driver-1", 0), "ag"), "driver-1");
    st.head_node_id = st.node_id.clone();
    revive(&mut st);
    st
}

fn call(st: &mut State) -> String {
    match actor_call(st, "driver-1", "a1", "run", vec![1, 2], NOW) {
        CallStep::Send { ref_id, link } => {
            assert_eq!(link, 3);
            ref_id
        }
        other => panic!("{other:?}"),
    }
}

#[test]
fn a_death_answers_every_call_that_waits() {
    let mut st = serving();
    let first = call(&mut st);
    let second = call(&mut st);
    assert_ne!(first, second);
    assert!(matches!(do_get(&st, &first, false), Got::Wait));
    assert!(matches!(do_get(&st, &first, true), Got::Timeout));
    actor_result(&mut st, &first, true, String::new(), vec![9]);
    mark_actor_dead(&mut st, "a1", "segfault", NOW, true);
    match do_get(&st, &second, false) {
        Got::Died { reason } => assert!(reason.contains("segfault"), "{reason}"),
        other => panic!("{other:?}"),
    }
    // What was answered before stays answered.
    match do_get(&st, &first, false) {
        Got::Value { ok, payload } => assert_eq!((ok, payload), (true, vec![9])),
        other => panic!("{other:?}"),
    }
    actor_result(&mut st, &second, true, String::new(), vec![8]);
    assert!(matches!(do_get(&st, &second, false), Got::Died { .. }));
    assert_eq!(
        do_wait(&st, &vec![first.clone(), second.clone()], 2, false),
        Some(vec![first, second])
    );
    // A dead actor keeps the reason it died of first.
    mark_actor_dead(&mut st, "a1", "again", NOW + 5, true);
    assert_eq!(
        st.actors.get("a1").unwrap().state,
        ActorState::Dead {
            reason: "segfault".into(),
            at_ms: NOW
        }
    );
}

#[test]
fn no_gpu_is_given_twice() {
    let mut st = with_driver(with_agent(new_state(), "ag"), "driver-1");
    st.head_node_id = st.node_id.clone();
    st.pgs.insert("p1".into(), waiting_group("p1", "driver-1"));
    st.pgs.insert("p2".into(), waiting_group("p2", "driver-1"));
    try_place(&mut st, true);
    let states = (
        st.pgs.get("p1").unwrap().state,
        st.pgs.get("p2").unwrap().state,
    );
    assert_eq!(states, (PgState::Created, PgState::Pending));
    pg_remove(&mut st, "p1", NOW, true);
    assert_eq!(st.pgs.get("p1").unwrap().state, PgState::Removed);
    assert_eq!(st.pgs.get("p2").unwrap().state, PgState::Created);
}

#[test]
fn a_kill_goes_through_a_live_agent() {
    let mut st = serving();
    match kill_actor(&mut st, "a1", NOW, true) {
        Kill::Tell { link, actor } => assert_eq!((link, actor.as_str()), (3, "a1")),
        other => panic!("{other:?}"),
    }
    assert_eq!(st.actors.get("a1").unwrap().state, ActorState::Running);
    actor_exit(&mut st, "a1", Some(0), None, NOW, true);
    assert_eq!(st.counters.actor_exits_clean, 1);
    assert!(matches!(kill_actor(&mut st, "a1", NOW, true), Kill::Nothing));
    let mut st = serving();
    st.agents.get_mut("ag").unwrap().alive = false;
    assert!(matches!(kill_actor(&mut st, "a1", NOW, true), Kill::Marked));
}

#[test]
fn a_client_is_answered() {
    let mut st = serving();
    let t = turn("driver-1");
    match handle_client_msg(&mut st, &local(), &t, ClientMsg::Resources, vec![]) {
        Reply::Resources { totals } => assert_eq!((totals.gpus, totals.cpus), (1, 1)),
        other => panic!("{other:?}"),
    }
    match handle_client_msg(
        &mut st,
        &local(),
        &t,
        ClientMsg::PgCreate {
            bundles: vec![1],
            strategy: "PACK".into(),
            claim: String::new(),
        },
        vec![],
    ) {
        Reply::PgCreated { pg_id } => assert_eq!(pg_id, "new-1"),
        other => panic!("{other:?}"),
    }
    match handle_client_msg(
        &mut st,
        &local(),
        &t,
        ClientMsg::PgTable {
            pg_id: "nobody".into(),
        },
        vec![],
    ) {
        Reply::Error { error } => assert_eq!(error, "no such placement group nobody"),
        other => panic!("{other:?}"),
    }
    match handle_client_msg(
        &mut st,
        &local(),
        &t,
        ClientMsg::Unknown {
            t: "no_such".into(),
        },
        vec![],
    ) {
        Reply::Refused { refusal } => {
            assert_eq!(refusal.code, "unknown_message");
            assert_eq!(refusal.error, "no such message type \"no_such\"");
        }
        other => panic!("{other:?}"),
    }
    match handle_client_msg(
        &mut st,
        &local(),
        &t,
        ClientMsg::ActorStop {
            group: String::new(),
            all: false,
        },
        vec![],
    ) {
        Reply::Error { error } => {
            assert_eq!(error, "actor_stop takes a group or all. Groups: g")
        }
        other => panic!("{other:?}"),
    }
    match handle_client_msg(&mut st, &local(), &t, ClientMsg::Status { group: None }, vec![]) {
        Reply::Snapshot { doc } => {
            assert_eq!(doc, snapshot(&st, &None, &local()));
            assert_eq!(
                at(&doc, &["groups", "g", "actors", "a1", "state"]).and_then(|j| j.as_str()),
                Some("running")
            );
        }
        other => panic!("{other:?}"),
    }
}

#[test]
fn an_agent_is_heard() {
    let mut st = serving();
    let id = call(&mut st);
    handle_agent_msg(
        &mut st,
        "ag",
        AgentMsg::Result {
            ref_id: id.clone(),
            ok: false,
            error: "never reached it".into(),
        },
        vec![],
        NOW,
        true,
    );
    match do_get(&st, &id, false) {
        Got::Died { reason } => assert!(reason.contains("never reached it"), "{reason}"),
        other => panic!("{other:?}"),
    }
    handle_agent_msg(
        &mut st,
        "ag",
        AgentMsg::Exit {
            actor_id: "a1".into(),
            exit_code: None,
            signal: Some(9),
        },
        vec![],
        NOW,
        true,
    );
    assert_eq!(st.counters.actor_exits_signal, 1);
    assert!(matches!(
        st.actors.get("a1").unwrap().state,
        ActorState::Dead { .. }
    ));
}

#[test]
fn a_first_frame_says_what_a_connection_is() {
    assert!(matches!(conn_entry(First::Hello, Head::Here, false), Entry::Client));
    assert!(matches!(conn_entry(First::Register, Head::Here, false), Entry::Agent));
    assert!(matches!(conn_entry(First::Hello, Head::Unknown, false), Entry::Wait));
    assert!(matches!(conn_entry(First::PeerHello, Head::Unknown, true), Entry::Peer));
    assert!(matches!(conn_entry(First::Probe, Head::Nowhere, true), Entry::Answer));
    match conn_entry(First::Hello, Head::Unknown, true) {
        Entry::Refuse { refusal } => assert_eq!(refusal.code, "no_head"),
        other => panic!("{other:?}"),
    }
    match conn_entry(
        First::Other {
            shown: "Ping".into(),
        },
        Head::Here,
        false,
    ) {
        Entry::Refuse { refusal } => assert!(refusal.error.ends_with("got Ping"), "{}", refusal.error),
        other => panic!("{other:?}"),
    }
    match conn_entry(First::Register, Head::At(vec!["a:1".into()]), false) {
        Entry::Relay { at } => assert_eq!(at, vec!["a:1".to_string()]),
        other => panic!("{other:?}"),
    }
    let st = new_state();
    assert_eq!(relay_claim(&st, "127.0.0.1", &vec![], ""), "10.0.0.1");
    assert_eq!(relay_claim(&st, "10.0.0.5", &vec![], ""), "");
    assert_eq!(relay_claim(&st, "127.0.0.1", &vec![], "10.0.0.5"), "10.0.0.5");
}

#[test]
fn blank_settings_are_unset() {
    assert_eq!(setting(None), None);
    assert_eq!(setting(Some("  ")), None);
    assert_eq!(setting(Some("{}")), Some("{}".to_string()));
    assert_eq!(hostname(" gx10\n"), "gx10");
    assert_eq!(hostname("\n"), "unknown");
}

#[test]
fn a_node_id_names_its_address() {
    let id = node_id_for("10.0.0.1");
    assert_eq!(id, "6d656e7461743a31302e302e302e31");
    assert_eq!(node_ip_of(&id).as_deref(), Some("10.0.0.1"));
    assert_eq!(node_ip_of("abc"), None);
    assert_eq!(node_ip_of("zz"), None);
    assert_eq!(node_ip_of("ff"), None);
    assert_eq!(node_ip_of("6d656e"), None);
}
