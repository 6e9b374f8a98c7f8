use mentat::common::dict::Dict;
use mentat::common::json::{Json, Real};
use mentat::daemon::actors::{do_get, Got};
use mentat::daemon::agents::{
    agent_register, link_lost, spawn_result, Arrival, Register, ToAgent,
};
use mentat::daemon::calls::{
    actor_call, available, create_actor, hold_call, nodes, pg_create, spawn_unsent, ActorReq,
    CallStep,
};
use mentat::daemon::claims::claim;
use mentat::daemon::election::{elector, head_candidate};
use mentat::daemon::ident::{default_node_ip, has_node_ip, head_for, node_id_for, Head};
use mentat::daemon::machine::{
    machine_source, no_machine, probe_path, probe_ran, Place, Run, Source, PROBE,
};
use mentat::daemon::mesh::{
    connector_step, covered, dial_targets, discovered, peer_lost, register_peer, sweep_peers, Dial,
    Linked, PeerIdent,
};
use mentat::daemon::moved::head_moved;
use mentat::daemon::peering::{
    accept_peer, connect_from, dial, my_hello, peer_loop, probe_pair, status_links, try_connect,
    PeerMsg, ProbeReply,
};
use mentat::daemon::claim::Island;
use mentat::daemon::place::{placement_scopes, try_place};
use mentat::daemon::probes::{end_round, probe_peer, probe_targets, Probed};
use mentat::daemon::proto::{Gpu, Machine, ResumeActor, PROTO};
use mentat::daemon::sessions::{client_closed, hello, reap_client_resources, Closed, Hello};
use mentat::daemon::state::{ActorState, PgState, State};
use mentat::daemon::status::{snapshot, LocalAddrs};
use mentat::daemon::sweep::{sweep_lifecycle, Limits};

fn value(v: serde_json::Value) -> Json {
    match v {
        serde_json::Value::Null => Json::Null,
        serde_json::Value::Bool(b) => Json::Bool(b),
        serde_json::Value::Number(n) => match (n.as_u64(), n.as_i64()) {
            (Some(u), _) => Json::Uint(u),
            (None, Some(i)) => Json::Neg(i),
            _ => {
                let f = n.as_f64().unwrap();
                let up = f.ceil().max(0.0);
                Json::Real(Real {
                    text: n.to_string(),
                    up: up as u64,
                    whole: up == f,
                })
            }
        },
        serde_json::Value::String(s) => Json::Str(s),
        serde_json::Value::Array(a) => Json::Arr(a.into_iter().map(value).collect()),
        serde_json::Value::Object(m) => {
            let mut d: Dict<Json> = Dict::new();
            for (k, v) in m {
                d.insert(k, value(v));
            }
            Json::Obj(d)
        }
    }
}

fn json(text: &str) -> Json {
    value(serde_json::from_str(text).unwrap())
}

/// What stands at a path of names.
fn at<'a>(j: &'a Json, path: &[&str]) -> Option<&'a Json> {
    let mut cur = j;
    for k in path {
        cur = cur.get(k)?;
    }
    Some(cur)
}

const NOW: u64 = 1_800_000_000_000;

fn local(addrs: &[&str]) -> LocalAddrs {
    LocalAddrs {
        addrs: addrs.iter().map(|s| s.to_string()).collect(),
        addr_tags: Dict::new(),
        addr_ifaces: Dict::new(),
    }
}

fn box_at(ip: &str) -> State {
    State::new(ip, "box", &format!("{ip}:6379"), 6380)
}

fn head() -> State {
    let mut st = box_at("10.0.0.1");
    st.head_node_id = st.node_id.clone();
    st
}

fn say_hello(st: &mut State, client: &str, group: &str, session: bool) -> Result<Vec<String>, String> {
    let h = Hello {
        proto: PROTO.into(),
        client_id: client.into(),
        group: group.into(),
        session,
        kind: "driver".into(),
        node_ip: String::new(),
    };
    hello(st, &h, "127.0.0.1", &vec![])
        .map(|w| w.orphans)
        .map_err(|r| r.code)
}

fn register(agent: &str, gpus: u32) -> Register {
    Register {
        proto: PROTO.into(),
        agent_id: agent.into(),
        group: "g".into(),
        node_ip: String::new(),
        machine: Machine {
            memory: 64,
            cpus: 4,
            gpus: (0..gpus)
                .map(|index| Gpu {
                    index,
                    vendor: "nvidia".into(),
                    name: "x".into(),
                    memory: 8,
                    uma: false,
                })
                .collect(),
        },
        container: "c".into(),
        pid: 9,
        services: Dict::new(),
        resume: Vec::new(),
        unacked_refs: Vec::new(),
    }
}

fn from(link: u64) -> Arrival {
    Arrival {
        peer_ip: "127.0.0.1".into(),
        mine: vec!["10.0.0.1".into()],
        local: vec!["10.0.0.1".into()],
        link,
    }
}

fn shown(frames: &[ToAgent]) -> Vec<String> {
    frames
        .iter()
        .map(|f| match f {
            ToAgent::RegisterOk { .. } => "ok".to_string(),
            ToAgent::Kill { actor_id } => format!("kill {actor_id}"),
            ToAgent::Dispatch { actor_id, call } => format!("dispatch {actor_id} {}", call.method),
        })
        .collect()
}

/// A head with a driver, an agent of two GPUs, and a placed group of one bundle.
fn cluster() -> State {
    let mut st = head();
    say_hello(&mut st, "d1", "g", true).unwrap();
    agent_register(&mut st, register("ag", 2), &from(7), NOW, true).unwrap();
    pg_create(
        &mut st,
        "d1",
        "p1",
        vec![1],
        "PACK".into(),
        String::new(),
        NOW,
        true,
    );
    st
}

fn actor_req(id: &str, gpus: u32) -> ActorReq {
    ActorReq {
        client: "d1".into(),
        name: id.into(),
        num_gpus: gpus,
        pg_id: "p1".into(),
        bundle: 0,
        env: Dict::new(),
        actor_id: id.into(),
    }
}

fn limits() -> Limits {
    Limits {
        slow_call_warn_ms: 1_000,
        pg_pending_timeout_ms: 10_000,
        agent_degraded_after_ms: 5_000,
        agent_dead_after_ms: 60_000,
        history_keep_ms: 3_600_000,
        island_placement: true,
    }
}

#[test]
fn a_group_has_one_driver() {
    let mut st = head();
    assert!(say_hello(&mut st, "d1", "g", true).is_ok());
    assert_eq!(
        say_hello(&mut st, "d2", "g", true),
        Err("duplicate_session".to_string())
    );
    assert!(say_hello(&mut st, "d2", "h", true).is_ok(), "another group");
    assert!(say_hello(&mut st, "d1", "g", true).is_ok(), "its own again");
    assert!(say_hello(&mut st, "cli", "g", false).is_ok());
    let bad = Hello {
        proto: "7.0".into(),
        client_id: "x".into(),
        group: "g".into(),
        session: false,
        kind: "cli".into(),
        node_ip: String::new(),
    };
    let r = hello(&mut st, &bad, "127.0.0.1", &vec![]).unwrap_err();
    assert_eq!(r.code, "proto_mismatch");
    assert_eq!(st.counters.clients_total, 4);
    assert!(matches!(client_closed(&mut st, "cli", false), Closed::Done));
    assert!(!st.clients.contains("cli"));
}

#[test]
fn a_driver_that_leaves_gives_everything_back() {
    let mut st = cluster();
    assert_eq!(st.pgs.get("p1").unwrap().state, PgState::Created);
    create_actor(&mut st, actor_req("a1", 1)).unwrap();
    match client_closed(&mut st, "d1", true) {
        Closed::Reap { group } => assert_eq!(group, "g"),
        other => panic!("{other:?}"),
    }
    let kills = reap_client_resources(&mut st, "d1", "g", NOW, true);
    assert_eq!(kills.len(), 1);
    assert_eq!(st.pgs.get("p1").unwrap().state, PgState::Removed);
    assert!(!st.clients.contains("d1"));
}

#[test]
fn an_actor_is_made_on_its_bundle() {
    let mut st = cluster();
    let s = create_actor(&mut st, actor_req("a1", 1)).unwrap();
    assert_eq!((s.link, s.agent.as_str(), s.gpu_ids.clone()), (7, "ag", vec![0]));
    spawn_result(&mut st, "a1", true, "", 4242, NOW, true);
    let a = st.actors.get("a1").unwrap();
    assert_eq!((&a.state, a.pid), (&ActorState::Running, Some(4242)));
    // A name is taken while its actor lives.
    assert!(create_actor(&mut st, actor_req("a1", 1)).is_err());
    let mut req = actor_req("a2", 1);
    req.pg_id = "nobody".into();
    assert!(create_actor(&mut st, req).is_err());
    let why = spawn_unsent(&mut st, "a1", "ag", "broken pipe", NOW, true);
    assert!(why.contains("broken pipe"), "{why}");
    assert!(matches!(
        st.actors.get("a1").unwrap().state,
        ActorState::Dead { .. }
    ));
}

#[test]
fn calls_are_held_through_an_outage() {
    let mut st = cluster();
    create_actor(&mut st, actor_req("a1", 1)).unwrap();
    spawn_result(&mut st, "a1", true, "", 1, NOW, true);
    link_lost(&mut st, "ag", 99, NOW, 60_000);
    assert!(st.agents.get("ag").unwrap().alive, "another link's loss");
    link_lost(&mut st, "ag", 7, NOW, 60_000);
    assert!(!st.agents.get("ag").unwrap().alive);
    let first = match actor_call(&mut st, "d1", "a1", "run", vec![1], NOW) {
        CallStep::Recorded { ref_id } => ref_id,
        other => panic!("{other:?}"),
    };
    hold_call(&mut st, "a1", "r9".into(), "again".into(), vec![2]);
    // Degraded, then back, with nothing lost.
    sweep_lifecycle(&mut st, NOW + 5_000, &limits());
    assert!(st.agents.get("ag").unwrap().degraded);
    assert_eq!(st.actors.get("a1").unwrap().state, ActorState::Running);
    let mut reg = register("ag", 2);
    reg.resume = vec![ResumeActor {
        actor_id: "a1".into(),
        name: "a1".into(),
        gpu_ids: vec![0],
        pid: 1,
        owner: "d1".into(),
        pending_refs: vec![],
    }];
    let back = agent_register(&mut st, reg, &from(8), NOW + 6_000, true).unwrap();
    assert_eq!(
        shown(&back.frames),
        vec!["ok", "dispatch a1 run", "dispatch a1 again"],
        "in the order they were made"
    );
    assert_eq!(st.actors.get("a1").unwrap().state, ActorState::Running);
    assert!(matches!(do_get(&st, &first, false), Got::Wait));
}

#[test]
fn a_restarted_daemon_numbers_past_the_calls_it_takes_over() {
    let mut st = head();
    let mut reg = register("ag", 2);
    reg.resume = vec![ResumeActor {
        actor_id: "a:1f".into(),
        name: "worker".into(),
        gpu_ids: vec![0],
        pid: 1,
        owner: "d1".into(),
        pending_refs: vec!["a:1f:7".into(), "a:other:40".into()],
    }];
    reg.unacked_refs = vec!["a:1f:4".into()];
    let back = agent_register(&mut st, reg, &from(7), NOW, true).unwrap();
    assert_eq!(shown(&back.frames), vec!["ok"]);
    assert_eq!(st.actors.get("a:1f").unwrap().state, ActorState::Running);
    assert!(matches!(do_get(&st, "a:1f:7", false), Got::Wait));
    assert!(matches!(do_get(&st, "a:1f:4", false), Got::Wait));
    assert!(matches!(do_get(&st, "a:other:40", false), Got::Unknown { .. }));
    match actor_call(&mut st, "d1", "a:1f", "run", vec![], NOW) {
        CallStep::Send { ref_id, link } => assert_eq!((ref_id.as_str(), link), ("a:1f:8", 7)),
        other => panic!("{other:?}"),
    }
}

#[test]
fn a_long_outage_ends_the_actors() {
    let mut st = cluster();
    create_actor(&mut st, actor_req("a1", 1)).unwrap();
    link_lost(&mut st, "ag", 7, NOW, 60_000);
    sweep_lifecycle(&mut st, NOW + 59_999, &limits());
    assert!(!matches!(
        st.actors.get("a1").unwrap().state,
        ActorState::Dead { .. }
    ));
    sweep_lifecycle(&mut st, NOW + 60_000, &limits());
    match &st.actors.get("a1").unwrap().state {
        ActorState::Dead { reason, .. } => assert_eq!(
            reason,
            "agent link lost for 60000ms, past MENTAT_AGENT_DEAD_AFTER_MS"
        ),
        other => panic!("{other:?}"),
    }
}

#[test]
fn a_group_that_waits_too_long_is_failed() {
    let mut st = cluster();
    pg_create(
        &mut st,
        "d1",
        "p2",
        vec![9],
        "PACK".into(),
        String::new(),
        NOW,
        true,
    );
    let p = st.pgs.get("p2").unwrap();
    assert_eq!(p.state, PgState::Pending);
    assert!(p.pending_reason.is_some());
    sweep_lifecycle(&mut st, NOW + 10_001, &limits());
    let p = st.pgs.get("p2").unwrap();
    assert_eq!(p.state, PgState::Removed);
    assert!(p.fail_reason.is_some());
}

#[test]
fn an_agent_of_another_version_is_refused() {
    let mut st = head();
    let mut reg = register("ag", 1);
    reg.proto = "9.9".into();
    let r = agent_register(&mut st, reg, &from(1), NOW, true).unwrap_err();
    assert_eq!(r.code, "proto_mismatch");
    assert_eq!(st.agents.len(), 0);
}

#[test]
fn an_agent_filed_under_the_wrong_box_is_let_in_and_told_once() {
    let mut st = head();
    join(&mut st, "10.0.0.2", &["10.0.0.2", "192.168.1.2"], 5, true);
    let mut reg = register("ag", 1);
    reg.node_ip = "192.168.1.2".into();
    let w = agent_register(&mut st, reg, &from(1), NOW, true).unwrap();
    assert_eq!(
        w.advice.as_deref(),
        Some(
            "agent ag claimed 192.168.1.2, an address of 10.0.0.2, which this daemon knows as a \
             different node. Its GPUs would join no island and its group would take no fabric"
        )
    );
    assert_eq!(st.agents.get("ag").unwrap().node_ip, "192.168.1.2");
    let mut reg = register("ag", 1);
    reg.node_ip = "192.168.1.2".into();
    let w = agent_register(&mut st, reg, &from(2), NOW, true).unwrap();
    assert_eq!((w.advice, w.replaced), (None, Some(1)));
}

#[test]
fn the_reply_precedes_kills_and_held_calls() {
    let mut st = cluster();
    create_actor(&mut st, actor_req("a1", 1)).unwrap();
    spawn_result(&mut st, "a1", true, "", 1, NOW, true);
    link_lost(&mut st, "ag", 7, NOW, 60_000);
    actor_call(&mut st, "d1", "a1", "run", vec![], NOW);
    let held = |id: &str| ResumeActor {
        actor_id: id.into(),
        name: id.into(),
        gpu_ids: vec![],
        pid: 1,
        owner: "d1".into(),
        pending_refs: vec![],
    };
    let mut dead = actor_req("a2", 0);
    dead.pg_id = "p1".into();
    let mut reg = register("ag", 2);
    reg.resume = vec![held("a1")];
    agent_register(&mut st, reg, &from(8), NOW, true).unwrap();
    create_actor(&mut st, dead).unwrap();
    spawn_result(&mut st, "a2", false, "no room", 0, NOW, true);
    link_lost(&mut st, "ag", 8, NOW, 60_000);
    actor_call(&mut st, "d1", "a1", "step", vec![], NOW);
    let mut reg = register("ag", 2);
    reg.resume = vec![held("a1"), held("a2")];
    let w = agent_register(&mut st, reg, &from(9), NOW, true).unwrap();
    assert_eq!(shown(&w.frames), vec!["ok", "kill a2", "dispatch a1 step"]);
}

#[test]
fn a_driver_sees_its_nodes() {
    let st = cluster();
    let n = nodes(&st, "d1");
    assert_eq!(n.len(), 1);
    let row = n.get(&st.node_id).unwrap();
    assert_eq!((row.gpus, row.cpus, row.memory), (2, 4, 64));
    let a = available(&st, "d1");
    assert_eq!(a.get(&st.node_id).unwrap().gpus, 1, "one is placed");
    let doc = snapshot(&st, &Some("g".into()), &local(&["10.0.0.1"]));
    assert_eq!(
        at(&doc, &["groups", "g", "gpus_used"]),
        Some(&Json::Uint(1))
    );
    assert_eq!(
        at(&doc, &["groups", "g", "gpus_total"]),
        Some(&Json::Uint(2))
    );
}

// ---------------------------------------------------------------------------
// The mesh
// ---------------------------------------------------------------------------
fn ident(ip: &str, addrs: &[&str], outbound: bool) -> PeerIdent {
    PeerIdent {
        node_id: node_id_for(ip),
        outbound,
        node_ip: ip.into(),
        link_ip: ip.into(),
        addrs: addrs.iter().map(|s| s.to_string()).collect(),
        addr_tags: Dict::new(),
        addr_ifaces: Dict::new(),
        control_port: 6379,
        http_port: 6380,
    }
}

fn join(st: &mut State, ip: &str, addrs: &[&str], link: u64, outbound: bool) -> Linked {
    register_peer(st, ident(ip, addrs, outbound), link, NOW)
}

#[test]
fn both_ends_keep_one_link() {
    // 10.0.0.1 sorts below 10.0.0.2: the link it dials wins on both ends.
    let (mut a, mut b) = (box_at("10.0.0.1"), box_at("10.0.0.2"));
    assert!(matches!(
        join(&mut a, "10.0.0.2", &["10.0.0.2"], 1, false),
        Linked::Kept { replaced: None }
    ));
    assert!(matches!(
        join(&mut a, "10.0.0.2", &["10.0.0.2"], 2, true),
        Linked::Kept { replaced: Some(1) }
    ));
    assert!(matches!(
        join(&mut b, "10.0.0.1", &["10.0.0.1"], 1, false),
        Linked::Kept { replaced: None }
    ));
    assert!(matches!(
        join(&mut b, "10.0.0.1", &["10.0.0.1"], 2, true),
        Linked::Refused
    ));
}

#[test]
fn a_box_that_changed_its_name_leaves_no_ghost() {
    let mut st = head();
    join(&mut st, "192.168.1.93", &["192.168.1.93", "10.103.0.93"], 1, true);
    peer_lost(&mut st, &node_id_for("192.168.1.93"), 99, NOW);
    assert_eq!(status_links(&st), vec![1], "another link's loss");
    peer_lost(&mut st, &node_id_for("192.168.1.93"), 1, NOW);
    assert!(status_links(&st).is_empty());
    join(&mut st, "10.103.0.93", &["192.168.1.93", "10.103.0.93"], 2, true);
    assert_eq!(st.peers.len(), 1);
}

#[test]
fn silent_peers_go_stale_then_leave_then_are_forgotten() {
    let mut st = head();
    let id = node_id_for("10.0.0.2");
    join(&mut st, "10.0.0.2", &["10.0.0.2"], 4, true);
    assert!(sweep_peers(&mut st, NOW + 15_000, 15_000, 45_000, 1_000).is_empty());
    assert!(st.peers.get(&id).unwrap().stale);
    peer_loop(
        &mut st,
        &id,
        PeerMsg::Status {
            data: json(r#"{"addrs": ["10.0.0.2", "10.9.0.2"]}"#),
        },
        NOW + 16_000,
    );
    let p = st.peers.get(&id).unwrap();
    assert!(!p.stale);
    assert_eq!(p.addrs.len(), 2, "the push carries its addresses");
    peer_loop(&mut st, &id, PeerMsg::Pong, NOW + 17_000);
    assert_eq!(
        sweep_peers(&mut st, NOW + 62_000, 15_000, 45_000, 1_000),
        vec![4]
    );
    assert!(!st.peers.get(&id).unwrap().alive);
    sweep_peers(&mut st, NOW + 64_000, 15_000, 45_000, 1_000);
    assert_eq!(st.peers.len(), 0);
}

#[test]
fn the_lowest_node_becomes_head_after_the_hold_down() {
    let mut st = box_at("10.0.0.2");
    assert_eq!(head_candidate(&st), st.node_id, "alone");
    let t = elector(&mut st, None, NOW, 3_000);
    assert!(!t.changed);
    let t = elector(&mut st, t.waiting, NOW + 2_999, 3_000);
    assert!(!t.changed);
    let t = elector(&mut st, t.waiting, NOW + 3_000, 3_000);
    assert!(t.changed && !t.moved);
    assert!(matches!(head_for(&st), Head::Here));
    // A settled head stays when a lower box joins without being one.
    join(&mut st, "10.0.0.1", &["10.0.0.1"], 1, false);
    assert_eq!(head_candidate(&st), st.node_id);
}

#[test]
fn a_head_that_moves_hands_everything_over() {
    let mut st = cluster();
    assert!(!head_moved(&mut st, NOW), "it is still the head");
    join(&mut st, "10.0.0.0", &["10.0.0.0"], 1, false);
    st.head_node_id = node_id_for("10.0.0.0");
    match head_for(&st) {
        Head::At(list) => assert_eq!(list, vec!["10.0.0.0:6379".to_string()]),
        other => panic!("{other:?}"),
    }
    assert!(head_moved(&mut st, NOW));
    assert_eq!(st.clients.len(), 0);
    assert_eq!(st.pgs.get("p1").unwrap().state, PgState::Removed);
    assert_eq!(st.events.last().unwrap().kind, "head_moved");
}

#[test]
fn one_seed_finds_the_rest_of_the_mesh() {
    let mut st = head();
    let id = node_id_for("10.0.0.2");
    join(&mut st, "10.0.0.2", &["10.0.0.2", "10.9.0.2"], 4, true);
    assert!(covered(&st, "10.0.0.2:6379", &Some(id.clone())));
    assert!(matches!(
        connector_step(&st, "10.0.0.2:6379", &Some(id.clone()), false, 0, 1_000),
        Dial::Covered
    ));
    peer_lost(&mut st, &id, 4, NOW);
    assert_eq!(
        dial_targets(&st, "10.0.0.2:6379", &Some(id.clone())),
        vec!["10.0.0.2:6379".to_string(), "10.9.0.2:6379".to_string()]
    );
    assert!(matches!(
        connector_step(&st, "10.0.0.2:6379", &Some(id.clone()), true, 1_001, 1_000),
        Dial::Stop
    ));
    assert!(matches!(
        connector_step(&st, "10.0.0.2:6379", &Some(id), false, 1_001, 1_000),
        Dial::Try(_)
    ));
    assert!(discovered(&st).is_empty());
    let mut dialing = Dict::new();
    assert!(dial(&mut dialing, "a:1"));
    assert!(!dial(&mut dialing, "a:1"));
}

#[test]
fn a_link_knows_who_is_at_its_end() {
    let (a, b) = (box_at("10.0.0.1"), box_at("10.0.0.2"));
    let here = local(&["10.0.0.2"]);
    let h = my_hello(&b, 6379, &here);
    assert_eq!((h.node_ip.as_str(), h.http_port), ("10.0.0.2", 6380));
    let p = try_connect(&a, "192.168.1.2:7000", h).unwrap();
    assert!(p.outbound);
    assert_eq!((p.link_ip.as_str(), p.control_port), ("192.168.1.2", 6379));
    let mut h = my_hello(&b, 0, &here);
    h.control_port = 0;
    assert_eq!(try_connect(&a, "h:7000", h).unwrap().control_port, 7000);
    let p = accept_peer(&a, "10.5.0.2", my_hello(&b, 6379, &here)).unwrap();
    assert_eq!((p.outbound, p.link_ip.as_str()), (false, "10.5.0.2"));
    assert!(accept_peer(&b, "x", my_hello(&b, 6379, &here)).is_none(), "itself");
    assert!(try_connect(&b, "x:1", my_hello(&b, 6379, &here)).is_none());
}

#[test]
fn only_the_node_that_was_meant_answers_a_probe() {
    let mut st = head();
    let id = node_id_for("10.0.0.2");
    join(&mut st, "10.0.0.2", &["10.0.0.2"], 4, true);
    assert_eq!(probe_targets(&st).len(), 1);
    assert_eq!(probe_pair(ProbeReply::Node { id: "n".into() }, "n"), Ok(()));
    assert_eq!(
        probe_pair(ProbeReply::Node { id: "m".into() }, "n"),
        Err("node m answered, expected n".to_string())
    );
    assert!(probe_pair(ProbeReply::Closed, "n").is_err());
    assert!(probe_pair(ProbeReply::Other { shown: "x".into() }, "n")
        .unwrap_err()
        .ends_with("x"));
    assert_eq!(connect_from("10.0.0.1", "10.0.0.2"), Ok((0x0a000001, 0x0a000002)));
    assert_eq!(
        connect_from("fe80::1", "10.0.0.2"),
        Err("fe80::1 is not an IPv4 address".to_string())
    );
    let got = Probed::Answered { rtt_ms: 3 };
    assert_eq!(
        probe_peer(&mut st, &id, "10.0.0.1", "10.0.0.2", got, NOW),
        Some(true),
        "it changed"
    );
    let got = Probed::Failed { error: "x".into() };
    probe_peer(&mut st, &id, "10.0.0.9", "10.0.0.2", got, NOW);
    assert_eq!(
        probe_peer(&mut st, "nobody", "a", "b", Probed::Answered { rtt_ms: 1 }, NOW),
        None
    );
    end_round(&mut st, &id, &vec!["10.0.0.1".into()], &vec!["10.0.0.2".into()]);
    let pairs = &st.peers.get(&id).unwrap().probe_pairs;
    assert_eq!(pairs.len(), 1, "an address this box no longer has is dropped");
    assert!(pairs.get("10.0.0.1").unwrap().get("10.0.0.2").unwrap().ok);
}

#[test]
fn a_daemon_has_an_address_to_be_known_by() {
    assert!(!has_node_ip(" "));
    assert_eq!(default_node_ip(Some(" 10.0.0.5 "), None), "10.0.0.5");
    assert_eq!(default_node_ip(Some(""), Some("10.0.0.6")), "10.0.0.6");
    assert_eq!(default_node_ip(None, None), "127.0.0.1");
}

#[test]
fn a_claim_is_solved_by_the_head_alone() {
    let mut st = cluster();
    let shape = json(r#"{"sets": [{"name": "s", "bundles": [1]}]}"#);
    let here = local(&["10.0.0.1"]);
    let (g, view) = claim(&mut st, &here, "d1", "g", "fence", &shape).unwrap();
    assert_eq!(g, 1);
    assert!(at(&view, &["sets", "s"]).is_some());
    let again = claim(&mut st, &here, "d2", "g", "fence", &shape).unwrap();
    assert_eq!(again.0, 1);
    assert_eq!(again.1, view);
    assert_eq!(
        claim(&mut st, &here, "d1", "g", " ", &shape).unwrap_err().code,
        "bad_claim_name"
    );
    let bad = json(r#"{"sets": 3}"#);
    assert_eq!(
        claim(&mut st, &here, "d1", "g", "other", &bad).unwrap_err().code,
        "bad_shape"
    );
    let big = json(r#"{"sets": [{"name": "s", "bundles": [9]}]}"#);
    assert_eq!(
        claim(&mut st, &here, "d1", "g", "other", &big).unwrap_err().code,
        "unsolvable_claim"
    );
    st.head_node_id = "elsewhere".into();
    assert!(claim(&mut st, &here, "d1", "g", "fence", &shape).is_err());
}

#[test]
fn one_view_gives_one_answer() {
    let (mut a, mut b) = (cluster(), cluster());
    say_hello(&mut b, "x1", "h", true).unwrap();
    let here = local(&["10.0.0.1"]);
    let shape = json(r#"{"sets": [{"name": "s", "bundles": [1]}]}"#);
    claim(&mut b, &here, "x1", "h", "other", &shape).unwrap();
    let one = claim(&mut a, &here, "d1", "g", "fence", &shape).unwrap();
    let two = claim(&mut b, &here, "d2", "g", "fence", &shape).unwrap();
    assert_eq!((one.0, two.0), (1, 2));
    assert_eq!(one.1, two.1);
}

/// What an event stores is what the snapshot says.
#[test]
fn an_event_says_what_the_snapshot_says() {
    let mut st = cluster();
    create_actor(&mut st, actor_req("a1", 1)).unwrap();
    mentat::daemon::actors::mark_actor_dead(&mut st, "a1", "gone", NOW, true);
    try_place(&mut st, true);
    let doc = snapshot(&st, &None, &local(&["10.0.0.1"]));
    let ev = st.events.iter().find(|e| e.kind == "actor_dead").unwrap();
    for p in &ev.patch {
        let path: Vec<&str> = p.at.iter().map(String::as_str).collect();
        assert_eq!(at(&doc, &path), p.value.as_ref(), "{path:?}");
    }
}

fn place(path: &str, is_file: bool) -> Place {
    Place {
        path: path.into(),
        is_file,
    }
}

#[test]
fn the_probe_is_where_it_is_said_to_be_or_first_found() {
    let places = vec![
        place("/bin/here/probe", false),
        place("/usr/bin/probe", true),
        place("/opt/probe", true),
    ];
    assert_eq!(probe_path(&None, &places).as_deref(), Some("/usr/bin/probe"));
    assert_eq!(
        probe_path(&Some(String::new()), &places).as_deref(),
        Some("/usr/bin/probe")
    );
    assert_eq!(
        probe_path(&Some("/x".into()), &places).as_deref(),
        Some("/x")
    );
    assert_eq!(probe_path(&None, &vec![place("/a", false)]), None);
}

#[test]
fn a_blank_inventory_does_not_bypass_the_probe() {
    match machine_source(Some("{}"), Some("/p".into())) {
        Source::Given { raw } => assert_eq!(raw, "{}"),
        other => panic!("{other:?}"),
    }
    match machine_source(Some("  "), Some("/p".into())) {
        Source::Run { probe } => assert_eq!(probe, "/p"),
        other => panic!("{other:?}"),
    }
    match machine_source(None, None) {
        Source::Fatal { why } => assert_eq!(
            why,
            format!(
                "no {PROBE} beside this binary or on PATH. Install it, or set \
                 MENTAT_MACHINE to the inventory this box has"
            )
        ),
        other => panic!("{other:?}"),
    }
}

#[test]
fn a_probe_that_fails_says_why() {
    let ended = |success: bool| Run::Ended {
        success,
        status: "exit status: 3".into(),
        stdout: b"{\"memory\":1}\n".to_vec(),
        stderr: vec![b' ', b'n', 0xff, b'o', b'\n'],
    };
    assert_eq!(probe_ran("/p", &ended(true)), Ok("{\"memory\":1}\n".to_string()));
    assert_eq!(
        probe_ran("/p", &ended(false)),
        Err("/p exited exit status: 3: n\u{fffd}o".to_string())
    );
    let failed = Run::Failed {
        error: "no such file".into(),
    };
    assert_eq!(
        probe_ran("/p", &failed),
        Err("/p did not run: no such file".to_string())
    );
    assert_eq!(
        no_machine("/p", "bad", " x \n"),
        "/p is not a machine: bad: x"
    );
}

#[test]
fn an_agent_that_was_not_given_up_stays() {
    let mut st = head();
    agent_register(&mut st, register("ag", 1), &from(7), NOW, true).unwrap();
    link_lost(&mut st, "ag", 7, NOW, 60_000);
    let mut l = limits();
    l.history_keep_ms = 1_000;
    sweep_lifecycle(&mut st, NOW + 10_000, &l);
    assert!(st.agents.get("ag").is_some(), "inside its window");
    sweep_lifecycle(&mut st, NOW + 60_000, &l);
    assert!(st.agents.get("ag").is_none(), "given up, and old enough");
}

#[test]
fn a_moved_head_tells_of_every_agent_that_was_freed() {
    let mut st = head();
    let mut reg = register("ag", 2);
    reg.resume = vec![ResumeActor {
        actor_id: "a1".into(),
        name: "a1".into(),
        gpu_ids: vec![0],
        pid: 1,
        owner: "gone".into(),
        pending_refs: vec![],
    }];
    agent_register(&mut st, reg, &from(7), NOW, true).unwrap();
    let here = local(&["10.0.0.1"]);
    let before = snapshot(&st, &None, &here);
    assert_eq!(
        at(&before, &["groups", "g", "agents", "ag", "gpus_free"]),
        Some(&json("[1]"))
    );
    st.head_node_id = "elsewhere".into();
    st.events.clear();
    assert!(head_moved(&mut st, NOW));
    let after = snapshot(&st, &None, &here);
    let patch = &st.events[0].patch;
    for path in [
        vec!["groups", "g", "agents", "ag"],
        vec!["groups", "g", "actors", "a1"],
        vec!["groups", "g", "gpus_used"],
    ] {
        let p = patch.iter().find(|p| p.at == path).expect("named");
        assert_eq!(p.value.as_ref(), at(&after, &path));
    }
    assert_eq!(
        at(&after, &["groups", "g", "agents", "ag", "gpus_free"]),
        Some(&json("[0, 1]"))
    );
    assert_eq!(at(&after, &["groups", "g", "gpus_used"]), Some(&Json::Uint(0)));
}

#[test]
fn every_node_stands_as_an_island_of_one() {
    let mut st = head();
    let node = |ip: &str| node_id_for(ip);
    for (agent, ip, gpus) in [("x", "10.0.0.3", 4), ("y", "10.0.0.4", 1)] {
        let mut reg = register(agent, gpus);
        reg.node_ip = ip.into();
        agent_register(&mut st, reg, &from(7), NOW, true).unwrap();
        st.fabrics.tagged.insert(node(ip), ());
    }
    let pair = vec![node("10.0.0.3"), node("10.0.0.4")];
    st.fabrics.islands.push(Island {
        nodes: pair.clone(),
        addr: Dict::new(),
    });
    let v = placement_scopes(&st, "g", &vec![1, 1], "", "", true).unwrap();
    assert_eq!(v.len(), 2);
    assert!(v[0].island.is_none(), "one node has no fabric to cross");
    assert_eq!(v[0].nodes, Some(vec![node("10.0.0.3")]));
    assert_eq!(v[1].nodes, Some(pair));
}

#[test]
fn actors_share_a_gpu_on_one_bundle_only() {
    let mut st = cluster();
    pg_create(
        &mut st,
        "d1",
        "p2",
        vec![1],
        "PACK".into(),
        String::new(),
        NOW,
        true,
    );
    let gpus = |st: &State, id: &str| st.actors.get(id).unwrap().gpu_ids.clone();
    create_actor(&mut st, actor_req("a1", 1)).unwrap();
    let mut other = actor_req("a2", 1);
    other.pg_id = "p2".into();
    create_actor(&mut st, other).unwrap();
    assert_eq!((gpus(&st, "a1"), gpus(&st, "a2")), (vec![0], vec![1]));
    create_actor(&mut st, actor_req("a3", 0)).unwrap();
    assert_eq!(gpus(&st, "a3"), gpus(&st, "a1"), "the bundle's, whole");
    // A group that comes later gets nothing while actors or groups hold it all.
    pg_create(
        &mut st,
        "d1",
        "p3",
        vec![1],
        "PACK".into(),
        String::new(),
        NOW,
        true,
    );
    assert_eq!(st.pgs.get("p3").unwrap().state, PgState::Pending);
}

#[test]
fn a_moved_head_tells_of_a_group_that_nobody_mentions() {
    let mut st = cluster();
    say_hello(&mut st, "d9", "lonely", true).unwrap();
    pg_create(
        &mut st,
        "d9",
        "p9",
        vec![1],
        "PACK".into(),
        String::new(),
        NOW,
        true,
    );
    let here = local(&["10.0.0.1"]);
    st.head_node_id = "elsewhere".into();
    st.events.clear();
    assert!(head_moved(&mut st, NOW));
    let after = snapshot(&st, &None, &here);
    let named = |path: &[&str]| st.events[0].patch.iter().find(|p| p.at == path);
    // No snapshot shows the group, so its row stands in the event alone.
    let gone = ["groups", "lonely", "placement_groups", "p9"];
    assert!(named(&gone).unwrap().value.is_some());
    assert_eq!(at(&after, &gone), None);
    let agent = ["groups", "g", "agents", "ag"];
    assert_eq!(named(&agent).unwrap().value.as_ref(), at(&after, &agent));
    assert_eq!(st.agents.get("ag").unwrap().id, "ag");
}
