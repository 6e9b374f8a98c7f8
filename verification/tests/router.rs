use mentat::common::dict::Dict;
use mentat::common::json::{Json, Real};
use mentat::serve::events::{anchored_seq, apply_frame, apply_patch, Applied};
use mentat::serve::groups::{best_openai, collect_node_addrs, endpoint_of};
use mentat::serve::listen::{udp_listener, was_cut, RouterHeard};
use mentat::serve::net::{Allow, Net};
use mentat::serve::poll::{
    events_failed, full_read_due, poll_failed, poll_replied, watch_failed, watch_found, watch_replied, watch_settled,
    watch_start, Fallback,
};
use mentat::serve::probe::{
    after_first, after_retry, handle, keep_probes, models_in, probe_group, probe_landed,
    probe_start, AfterFirst, Page, RoundResult, SendError,
};
use mentat::serve::shared::{Config, DaemonView, Endpoint, Liveness, Settings, Shared};
use mentat::serve::table::{
    age_groups, endpoint_url, group_table, health_of, listed_model, model_ids, model_objects,
    model_table, not_ready, status_view,
};
use mentat::serve::groups::announced_groups;
use mentat::serve::watch::{
    announce_address, claim_node, drop_watch, ensure_watched, move_watch, peer_addresses,
    published_alive, try_alternates,
};

fn value(v: serde_json::Value) -> Json {
    match v {
        serde_json::Value::Null => Json::Null,
        serde_json::Value::Bool(b) => Json::Bool(b),
        serde_json::Value::Number(n) => match (n.as_u64(), n.as_i64()) {
            (Some(u), _) => Json::Uint(u),
            (None, Some(i)) => Json::Neg(i),
            _ => {
                let f = n.as_f64().unwrap();
                let up = f.ceil().max(0.0);
                Json::Real(Real {
                    text: n.to_string(),
                    up: up as u64,
                    whole: up == f,
                })
            }
        },
        serde_json::Value::String(s) => Json::Str(s),
        serde_json::Value::Array(a) => Json::Arr(a.into_iter().map(value).collect()),
        serde_json::Value::Object(m) => {
            let mut d: Dict<Json> = Dict::new();
            for (k, v) in m {
                d.insert(k, value(v));
            }
            Json::Obj(d)
        }
    }
}

fn json(text: &str) -> Json {
    value(serde_json::from_str(text).unwrap())
}

/// What stands at a path of names.
fn at<'a>(j: &'a Json, path: &[&str]) -> Option<&'a Json> {
    let mut cur = j;
    for k in path {
        cur = cur.get(k)?;
    }
    Some(cur)
}

fn strings(v: &[&str]) -> Vec<String> {
    v.iter().map(|s| s.to_string()).collect()
}

/// 10.0.0.0/24 and 192.168.1.0/24, as a two-homed box would report them.
fn subnets() -> Vec<Net> {
    vec![
        Net::parse("10.0.0.0/24").unwrap(),
        Net::parse("192.168.1.0/24").unwrap(),
    ]
}

/// The source address decides, whatever subnet the node calls itself by.
#[test]
fn an_unlisted_identity_subnet_does_not_block_discovery() {
    let allowed = Allow::parse("192.168.1.0/24");
    let subnets = subnets();
    // Nothing advertised is both allowed and local, so the source stands.
    assert_eq!(
        announce_address(&strings(&["10.100.0.2"]), "192.168.1.77", &allowed, &subnets),
        "192.168.1.77"
    );
}

/// An advertised address still passes the allowlist before it is used, since this
/// one does get connected to.
#[test]
fn an_advertised_candidate_is_still_gated() {
    let subnets = subnets();
    let allowed = Allow::parse("10.0.0.0/24");
    assert_eq!(
        announce_address(&strings(&["10.0.0.7"]), "10.0.0.1", &allowed, &subnets),
        "10.0.0.7",
        "allowed and local, so it is preferred"
    );
    assert_eq!(
        announce_address(&strings(&["192.168.1.13"]), "10.0.0.1", &allowed, &subnets),
        "10.0.0.1",
        "local but not allowed, so the source stands"
    );
}

/// The peer calls itself by an address on a subnet this box cannot route to, and
/// the reachable one is only in addrs.
#[test]
fn a_reachable_addr_beats_an_unroutable_identity() {
    let p = json(
        r#"{"node_ip": "10.100.0.1", "link_ip": "10.100.0.1",
            "addrs": ["10.100.0.1", "192.168.1.11"]}"#,
    );
    assert_eq!(
        peer_addresses(&p, &subnets()).0.as_deref(),
        Some("192.168.1.11")
    );
}

/// With nothing on a local subnet, the link address still leads.
#[test]
fn link_ip_leads_when_nothing_is_local() {
    let p = json(
        r#"{"node_ip": "10.100.0.1", "link_ip": "172.16.4.4", "addrs": ["172.16.9.9"]}"#,
    );
    assert_eq!(
        peer_addresses(&p, &subnets()).0.as_deref(),
        Some("172.16.4.4")
    );
}

#[test]
fn a_listed_model_keeps_every_field_the_engine_sent() {
    let engine = json(
        r#"{"id": "glm53", "object": "model", "created": 1788281389, "owned_by": "vllm",
            "root": "/models/glm-5.3-flash-nvfp4", "parent": null, "max_model_len": 262144,
            "permission": [{"id": "modelperm-9631122d1ff25211"}]}"#,
    );
    let listed = listed_model(&engine, "ga");
    assert_eq!(listed.uint_at("max_model_len"), Some(262144));
    assert_eq!(listed.text_at("root"), Some("/models/glm-5.3-flash-nvfp4"));
    assert_eq!(
        listed.items_at("permission").unwrap()[0].text_at("id"),
        Some("modelperm-9631122d1ff25211")
    );
    assert_eq!(listed.get("parent"), Some(&Json::Null));
    let len = |j: &Json| match j {
        Json::Obj(d) => d.len(),
        _ => 0,
    };
    assert_eq!(len(&listed), len(&engine), "no field added or dropped");
    assert_eq!(listed.text_at("owned_by"), Some("ga"), "the one rewrite");
}

/// The bare entry a probe synthesises when an endpoint lists nothing, and an entry
/// holding fields this router predates. Both reach the listing intact.
#[test]
fn a_sparse_or_unfamiliar_entry_survives() {
    let bare = listed_model(&json(r#"{"id": "gb"}"#), "gb");
    assert_eq!(bare.text_at("id"), Some("gb"));
    assert_eq!(bare.text_at("owned_by"), Some("gb"));

    let future = listed_model(&json(r#"{"id": "m", "some_new_field": [1, 2]}"#), "ga");
    assert_eq!(future.get("some_new_field"), Some(&json("[1, 2]")));
}

/// An entry with no `id` cannot be routed to, so it never reaches the route
/// table.
#[test]
fn model_ids_skips_what_it_cannot_name() {
    let models = vec![
        json(r#"{"id": "a"}"#),
        json(r#"{"no_id": true}"#),
        json(r#"{"id": "b"}"#),
    ];
    assert_eq!(model_ids(&models), vec!["a", "b"]);
}

fn endpoint(url: &str) -> Endpoint {
    Endpoint {
        candidates: vec![url.to_string()],
        announced: url.to_string(),
        note: None,
    }
}

/// The provider names the engine behind the endpoint, so it has to come from the
/// rank whose endpoint won.
#[test]
fn the_provider_follows_the_winning_endpoint() {
    let (ep, provider) = best_openai(vec![
        (endpoint("http://b:8000/v1"), "sglang".into()),
        (endpoint("http://a:8000/v1"), "vllm".into()),
    ]);
    assert_eq!(ep.unwrap().best(), Some("http://a:8000/v1"));
    assert_eq!(provider, "vllm");
}

/// An agent predating the field announces no provider, which reads as unknown
/// rather than as a group with no endpoint.
#[test]
fn an_unannounced_provider_is_empty() {
    let (ep, provider) = best_openai(vec![(endpoint("http://a:8000/v1"), String::new())]);
    assert!(ep.is_some());
    assert_eq!(provider, "");

    let (none, provider) = best_openai(Vec::new());
    assert!(none.is_none());
    assert_eq!(provider, "");
}

const NOW: u64 = 1_000_000_000;

/// A group whose container is long gone stays in every daemon snapshot, so the
/// router has to be the one that calls it over.
#[test]
fn a_group_that_never_serves_is_retired_once_the_ttl_passes() {
    let ttl = 3_600_000;
    let mut l = Liveness::new(NOW - 3_599_000);
    assert!(!l.round(NOW, false, ttl), "still inside the ttl");
    assert!(!l.retired(NOW, ttl));

    l.ok_at = NOW - 3_601_000;
    assert!(l.round(NOW, false, ttl), "the retiring round");
    assert!(l.retired(NOW, ttl));
    assert!(
        !l.round(NOW, false, ttl),
        "retirement is said once per outage"
    );
}

/// One good round is the whole recovery.
#[test]
fn serving_again_un_retires_a_group() {
    let ttl = 3_600_000;
    let mut l = Liveness::new(NOW - 86_400_000);
    assert!(l.round(NOW, false, ttl));
    assert!(l.retired(NOW, ttl));

    assert!(!l.round(NOW, true, ttl));
    assert!(!l.retired(NOW, ttl), "back the round it answers");

    // And going down again is a new outage, so it reports it again.
    l.ok_at = NOW - 3_601_000;
    assert!(l.round(NOW, false, ttl));
}

/// A port announcement is resolved against the announcing node's own ranked
/// addresses.
#[test]
fn a_port_announcement_resolves_to_every_address_of_its_node() {
    let snap = json(
        r#"{"node_ip": "10.100.0.1", "addrs": ["10.100.0.1", "192.168.1.11"], "peers": {}}"#,
    );
    let mut nodes = Dict::new();
    collect_node_addrs(&snap, &mut nodes);
    let agent = json(
        r#"{"node_ip": "10.100.0.1",
            "services": {"openai": {"host": "", "port": 8000, "path": "/v1"}}}"#,
    );
    let allowed = Allow::parse("10.0.0.0/8, 192.168.1.0/24");
    let ep = endpoint_of(&agent, "openai", &nodes, &allowed, &subnets()).unwrap();
    assert_eq!(
        ep.candidates,
        vec![
            // Local subnet first: this router shares the LAN wire and not the
            // fabric, whatever the node's own ranking prefers.
            "http://192.168.1.11:8000/v1",
            "http://10.100.0.1:8000/v1",
        ]
    );
}

/// A verbatim URL must survive untouched, past the allowlist too.
#[test]
fn a_verbatim_url_is_neither_re_derived_nor_gated() {
    let agent = json(
        r#"{"node_ip": "10.100.0.1",
            "services": {"openai": {"host": "203.0.113.7", "port": 8000, "path": "/v1"}}}"#,
    );
    let ep = endpoint_of(
        &agent,
        "openai",
        &Dict::new(),
        &Allow::parse("10.0.0.0/8"),
        &subnets(),
    )
    .unwrap();
    assert_eq!(ep.candidates, vec!["http://203.0.113.7:8000/v1"]);
}

/// Everything filtered out leaves a resolved endpoint with nothing to try, which
/// is a failure of its own rather than "nothing announced".
#[test]
fn derived_addresses_are_gated_and_may_leave_nothing() {
    let mut nodes = Dict::new();
    nodes.insert(
        "10.100.0.1".to_string(),
        strings(&["10.100.0.1", "192.168.1.11"]),
    );
    let agent = json(
        r#"{"node_ip": "10.100.0.1",
            "services": {"openai": {"host": "", "port": 8000, "path": "/v1"}}}"#,
    );
    let ep = endpoint_of(
        &agent,
        "openai",
        &nodes,
        &Allow::parse("172.16.0.0/12"),
        &subnets(),
    )
    .unwrap();
    assert!(ep.candidates.is_empty(), "{:?}", ep.candidates);
    assert!(ep.announced.contains("port 8000/v1"), "{}", ep.announced);
}

/// An agent registered under an address the node does not list first must still
/// find its node.
#[test]
fn an_agent_joins_its_node_by_any_of_its_addresses() {
    let snap = json(
        r#"{"node_ip": "192.168.1.13", "addrs": ["192.168.1.13"],
            "peers": {"n1": {"node_ip": "10.100.0.1", "link_ip": "192.168.1.11",
                             "addrs": ["192.168.1.11", "10.100.0.1"]}}}"#,
    );
    let mut nodes = Dict::new();
    collect_node_addrs(&snap, &mut nodes);
    for key in ["10.100.0.1", "192.168.1.11"] {
        assert_eq!(
            nodes.get(key).map(Vec::len),
            Some(2),
            "{key} must resolve to the peer's whole address list"
        );
    }
}

/// A peer that reports one address has not contradicted a daemon that reports
/// three, so the longer description wins.
#[test]
fn the_fuller_description_of_a_node_wins() {
    let mut nodes = Dict::new();
    collect_node_addrs(
        &json(r#"{"node_ip": "10.100.0.1", "addrs": [], "peers": {}}"#),
        &mut nodes,
    );
    collect_node_addrs(
        &json(
            r#"{"node_ip": "10.100.0.1", "addrs": ["10.100.0.1", "192.168.1.11"], "peers": {}}"#,
        ),
        &mut nodes,
    );
    assert_eq!(nodes.get("10.100.0.1").unwrap().len(), 2);
}

fn snap() -> Json {
    json(r#"{"node_id": "n1", "groups": {"glm": {"actors": {"a:1": {"state": "spawning"}}}}}"#)
}

fn actor_state(v: &Json) -> Option<&str> {
    at(v, &["groups", "glm", "actors", "a:1", "state"]).and_then(|j| j.as_str())
}

/// The event's row replaces the one the snapshot held.
#[test]
fn a_patch_replaces_one_row() {
    let mut v = snap();
    let ev = json(
        r#"{"patch": [{"at": ["groups", "glm", "actors", "a:1"], "value": {"state": "running"}}]}"#,
    );
    assert!(apply_patch(&mut v, &ev));
    assert_eq!(actor_state(&v), Some("running"));
}

/// An entry with no `value` removes the path.
#[test]
fn a_patch_with_no_value_removes_the_path() {
    let mut v = snap();
    let ev = json(r#"{"patch": [{"at": ["groups", "glm", "actors", "a:1"]}]}"#);
    assert!(apply_patch(&mut v, &ev));
    assert!(at(&v, &["groups", "glm", "actors", "a:1"]).is_none());
}

/// Applying reads `patch` alone, so an older router folds in a kind released
/// after it.
#[test]
fn an_unknown_event_kind_still_applies_its_patch() {
    let mut v = snap();
    let ev = json(
        r#"{"type": "something_from_a_later_minor", "patch": [
            {"at": ["groups", "glm", "actors", "a:1"], "value": {"state": "running"}}]}"#,
    );
    assert!(apply_patch(&mut v, &ev));
    assert_eq!(actor_state(&v), Some("running"));
}

/// The objects along the way are created.
#[test]
fn a_patch_creates_the_objects_it_walks_through() {
    let mut v = snap();
    let ev = json(
        r#"{"patch": [{"at": ["groups", "new", "agents", "g1"], "value": {"alive": true}}]}"#,
    );
    assert!(apply_patch(&mut v, &ev));
    assert_eq!(
        at(&v, &["groups", "new", "agents", "g1", "alive"]),
        Some(&Json::Bool(true))
    );
}

/// Every entry lands or none does.
#[test]
fn a_patch_that_cannot_finish_changes_nothing() {
    let mut v = snap();
    let before = v.copy();
    let ev = json(
        r#"{"patch": [{"at": ["islands"], "value": []},
                      {"at": ["node_id", "deeper"], "value": 1}]}"#,
    );
    assert!(!apply_patch(&mut v, &ev));
    assert_eq!(v, before);
}

#[test]
fn a_frame_with_no_patch_is_refused() {
    let mut v = snap();
    assert!(!apply_patch(&mut v, &json(r#"{"type": "actor_running"}"#)));
}

#[test]
fn an_old_daemon_reports_node_ip_alone() {
    let p = json(r#"{"node_ip": "192.168.1.11"}"#);
    assert_eq!(
        peer_addresses(&p, &subnets()).0.as_deref(),
        Some("192.168.1.11")
    );
    assert_eq!(peer_addresses(&json("{}"), &subnets()).0, None);
}

/// A daemon on this box reaches its peers from loopback, and the peer reports that
/// as the link address. Watching it would poll the local daemon under the peer's
/// name.
#[test]
fn a_loopback_link_address_is_not_the_peer() {
    let p = json(
        r#"{"node_ip": "192.168.1.77", "link_ip": "127.0.0.1",
            "addrs": ["10.100.0.2", "192.168.1.77"]}"#,
    );
    let (best, all) = peer_addresses(&p, &subnets());
    assert_eq!(best.as_deref(), Some("192.168.1.77"));
    assert_eq!(all.last().map(String::as_str), Some("127.0.0.1"), "{all:?}");
}

// ---------------------------------------------------------------------------
// Settings
// ---------------------------------------------------------------------------
fn unset() -> Settings {
    Settings {
        daemons: None,
        port: None,
        announce_port: None,
        allowed_sources: None,
        discover_peers: None,
        poll_interval: None,
        probe_interval: None,
        probe_timeout: None,
        probe_fresh: None,
        probe_promote: None,
        serving_timeout: None,
        model_wait: None,
        sse_keepalive: None,
        mcp_timeout: None,
        tools_ttl: None,
        model_ttl: None,
    }
}

fn router() -> Shared {
    let s = Settings {
        allowed_sources: Some("10.0.0.0/8,192.168.1.0/24".into()),
        ..unset()
    };
    Shared::new(Config::from_settings(&s), NOW)
}

#[test]
fn the_defaults_follow_from_each_other() {
    let c = Config::from_settings(&unset());
    assert_eq!(c.daemons, strings(&["127.0.0.1:6380"]));
    assert_eq!((c.port, c.announce_port), (6381, 6382));
    assert_eq!(c.probe_fresh, 18_000);
    assert_eq!(c.probe_promote, 30_000);
    assert!(c.discover_peers);
    assert!(c.allowed_sources.local);
    let c = Config::from_settings(&Settings {
        daemons: Some("".into()),
        port: Some("x".into()),
        probe_interval: Some(1_000),
        discover_peers: Some("0".into()),
        allowed_sources: Some("  ".into()),
        ..unset()
    });
    assert!(c.daemons.is_empty(), "set but empty means no seeds");
    assert_eq!(c.port, 6381);
    assert_eq!(c.probe_fresh, 6_000);
    assert!(!c.discover_peers);
    assert!(c.allowed_sources.local, "blank is unset");
}

// ---------------------------------------------------------------------------
// The table
// ---------------------------------------------------------------------------
const SNAP: &str = r#"{
    "node_id": "n1", "node_ip": "10.0.0.7", "addrs": ["10.0.0.7"], "peers": {}, "seq": 5,
    "groups": {"glm": {
        "agents": {
            "a1": {"alive": true, "node_ip": "10.0.0.7", "services": {
                "openai": {"port": 8000, "path": "/v1", "provider": "vllm", "note": "bound late"},
                "mcp": {"port": 9000, "path": "/mcp"}}},
            "a2": {"alive": false, "node_ip": "10.0.0.8", "services": {}}},
        "actors": {"x": {"state": "running"}, "y": {"state": "dead"}}}}}"#;

fn with_snapshot(text: &str) -> Shared {
    let mut sh = router();
    sh.daemons.insert(
        "10.0.0.7:6380".into(),
        DaemonView {
            status: Some(json(text)),
            seen: Some(NOW),
            error: None,
            node_id: Some("n1".into()),
            seed: true,
        },
    );
    sh
}

fn replied(models: &str) -> RoundResult {
    RoundResult::Replied {
        url: "http://10.0.0.7:8000/v1".into(),
        models: match json(models) {
            Json::Arr(a) => a,
            _ => Vec::new(),
        },
    }
}

#[test]
fn a_group_is_read_from_a_fresh_snapshot() {
    let sh = with_snapshot(SNAP);
    let t = announced_groups(&sh, NOW, &subnets());
    let g = t.get("glm").unwrap();
    assert_eq!((g.agents_alive, g.running, g.placed), (1, 1, true));
    assert_eq!(g.provider, "vllm");
    assert_eq!(
        g.openai.as_ref().unwrap().best(),
        Some("http://10.0.0.7:8000/v1")
    );
    assert_eq!(
        g.mcp.as_ref().unwrap().best(),
        Some("http://10.0.0.7:9000/mcp")
    );
    assert_eq!(g.daemon, "10.0.0.7:6380");
    // A view that was not heard for three polls describes nothing.
    assert_eq!(announced_groups(&sh, NOW + 30_000, &subnets()).len(), 1);
    assert_eq!(announced_groups(&sh, NOW + 30_001, &subnets()).len(), 0);
}

#[test]
fn the_daemon_with_more_running_actors_describes_a_group() {
    let mut sh = with_snapshot(SNAP);
    sh.daemons.insert(
        "10.0.0.1:6380".into(),
        DaemonView {
            status: Some(json(
                r#"{"node_ip": "10.0.0.1", "groups": {"glm": {"agents": {}, "actors": {}}}}"#,
            )),
            seen: Some(NOW),
            error: None,
            node_id: None,
            seed: true,
        },
    );
    let t = announced_groups(&sh, NOW, &subnets());
    assert_eq!(t.get("glm").unwrap().daemon, "10.0.0.7:6380");
}

#[test]
fn health_says_why_not() {
    let mut sh = with_snapshot(SNAP);
    let t = announced_groups(&sh, NOW, &subnets());
    let g = t.get("glm").unwrap();
    assert_eq!(health_of(&sh, g, NOW).unwrap_err(), "not probed yet");
    probe_landed(
        &mut sh,
        "glm",
        true,
        RoundResult::Failed {
            error: "refused".into(),
        },
        NOW,
    );
    assert_eq!(
        health_of(&sh, g, NOW).unwrap_err(),
        "endpoint probe failed: refused (agent reports: bound late)"
    );
    probe_landed(&mut sh, "glm", true, replied(r#"[{"id": "m"}]"#), NOW);
    assert_eq!(model_ids(&health_of(&sh, g, NOW).unwrap()), vec!["m"]);
    assert_eq!(
        health_of(&sh, g, NOW + 18_001).unwrap_err(),
        "endpoint probe stale"
    );
    let bare = with_snapshot(r#"{"groups": {"g": {"agents": {}, "actors": {}}}}"#);
    let t = announced_groups(&bare, NOW, &subnets());
    assert_eq!(
        health_of(&bare, t.get("g").unwrap(), NOW).unwrap_err(),
        "no announced OpenAI endpoint"
    );
    let down = with_snapshot(
        r#"{"groups": {"g": {"agents": {"a": {"alive": true, "node_ip": "10.0.0.7",
            "services": {"openai": {"port": 1, "path": ""}}}}, "actors": {"x": {"state": "dead"}}}}}"#,
    );
    let t = announced_groups(&down, NOW, &subnets());
    assert_eq!(
        health_of(&down, t.get("g").unwrap(), NOW).unwrap_err(),
        "no running actors"
    );
    let far = with_snapshot(
        r#"{"groups": {"g": {"agents": {"a": {"alive": true, "node_ip": "172.16.0.1",
            "services": {"openai": {"port": 1, "path": ""}}}}, "actors": {}}}}"#,
    );
    let t = announced_groups(&far, NOW, &subnets());
    assert_eq!(
        health_of(&far, t.get("g").unwrap(), NOW).unwrap_err(),
        "announced port 1 on node 172.16.0.1, and no address of that node passes ALLOWED_SOURCES"
    );
}

#[test]
fn healthy_models_are_routed_and_listed() {
    let mut sh = with_snapshot(SNAP);
    assert_eq!(
        not_ready(&sh, NOW, &subnets()).get("glm"),
        Some(&"not probed yet".to_string())
    );
    assert_eq!(model_table(&sh, NOW, &subnets()).len(), 0);
    probe_landed(
        &mut sh,
        "glm",
        true,
        replied(r#"[{"id": "m", "max_model_len": 7}, {"id": "m2"}]"#),
        NOW,
    );
    let t = model_table(&sh, NOW, &subnets());
    assert_eq!(t.len(), 2);
    let r = t.get("m").unwrap();
    assert_eq!(
        (r.group.as_str(), r.url.as_str()),
        ("glm", "http://10.0.0.7:8000/v1")
    );
    let list = model_objects(&sh, NOW, &subnets());
    assert_eq!(list.len(), 2);
    assert_eq!(list[0].text_at("owned_by"), Some("glm"));
    assert_eq!(list[0].uint_at("max_model_len"), Some(7));
    assert_eq!(not_ready(&sh, NOW, &subnets()).len(), 0);
}

#[test]
fn a_group_that_cannot_serve_leaves_the_table() {
    let mut sh = with_snapshot(SNAP);
    let t = announced_groups(&sh, NOW, &subnets());
    assert!(age_groups(&mut sh, &t, NOW).is_empty());
    assert_eq!(sh.live.len(), 1);
    let later = NOW + 3_600_001;
    let t = announced_groups(&with_snapshot(SNAP), NOW, &subnets());
    let told = age_groups(&mut sh, &t, later);
    assert_eq!(
        told,
        vec![("glm".to_string(), "not probed yet".to_string())]
    );
    if let Some(d) = sh.daemons.get_mut("10.0.0.7:6380") {
        d.seen = Some(later);
    }
    assert_eq!(group_table(&sh, later, &subnets()).len(), 0);
    assert_eq!(announced_groups(&sh, later, &subnets()).len(), 1);
    // A group nobody mentions any more keeps no clock.
    assert!(age_groups(&mut sh, &Dict::new(), later).is_empty());
    assert_eq!(sh.live.len(), 0);
}

#[test]
fn the_status_says_what_is_routed() {
    let mut sh = with_snapshot(SNAP);
    probe_landed(&mut sh, "glm", true, replied(r#"[{"id": "m"}]"#), NOW);
    let doc = status_view(&sh, NOW + 5_000, &subnets());
    assert_eq!(doc.uint_at("uptime_s"), Some(5));
    let g = at(&doc, &["groups", "glm"]).unwrap();
    assert!(g.true_at("healthy"));
    assert_eq!(g.text_at("openai"), Some("http://10.0.0.7:8000/v1"));
    assert_eq!(g.get("why_not"), Some(&Json::Null));
    assert_eq!(
        at(&doc, &["models", "m", "group"]).and_then(|j| j.as_str()),
        Some("glm")
    );
    let d = at(&doc, &["daemons", "10.0.0.7:6380"]).unwrap();
    assert_eq!(d.uint_at("age_s"), Some(5));
    assert!(d.true_at("seed"));
}

// ---------------------------------------------------------------------------
// Probes
// ---------------------------------------------------------------------------
#[test]
fn a_working_selection_is_tried_first() {
    let c = strings(&["http://a/v1", "http://b/v1/", "http://c/v1"]);
    let run = probe_start(&c, &Some("http://b/v1/".into()), false);
    assert_eq!(
        run.order,
        strings(&["http://b/v1/", "http://a/v1", "http://c/v1"])
    );
    assert!(!run.tried_top);
    assert_eq!(run.next().as_deref(), Some("http://b/v1/models"));
    let run = probe_start(&c, &Some("http://b/v1/".into()), true);
    assert_eq!(run.order, c);
    assert!(run.tried_top, "a promotion round starts from the top");
    let run = probe_start(&c, &Some("http://gone".into()), false);
    assert_eq!(run.order, c);
}

#[test]
fn a_round_falls_through_and_reports_every_candidate() {
    let c = strings(&["http://a", "http://b"]);
    let mut run = probe_start(&c, &None, true);
    assert_eq!(run.next().as_deref(), Some("http://a/models"));
    run.failed("refused");
    assert_eq!(run.next().as_deref(), Some("http://b/models"));
    run.failed("timeout");
    assert_eq!(run.next(), None);
    assert_eq!(run.error(), "http://a: refused; http://b: timeout");
}

#[test]
fn the_flag_says_whether_the_top_was_tried() {
    let c = strings(&["http://a/v1", "http://b/v1"]);
    let mut run = probe_start(&c, &Some("http://b/v1".into()), false);
    assert_eq!(run.next().as_deref(), Some("http://b/v1/models"));
    assert!(!run.replied(&json("{}")).0);
    run.failed("refused");
    assert_eq!(run.next().as_deref(), Some("http://a/v1/models"));
    let (top, got) = run.replied(&json(r#"{"data": [{"id": "m"}, {"object": "x"}]}"#));
    assert!(top, "the round came to it second");
    match got {
        RoundResult::Replied { url, models } => {
            assert_eq!(url, "http://a/v1");
            assert_eq!(models, vec![json(r#"{"id": "m"}"#)]);
        }
        other => panic!("{other:?}"),
    }
    run.failed("timeout");
    let (top, got) = run.exhausted();
    assert!(top);
    match got {
        RoundResult::Failed { error } => {
            assert_eq!(error, "http://b/v1: refused; http://a/v1: timeout")
        }
        other => panic!("{other:?}"),
    }
}

#[test]
fn an_address_the_node_ranks_behind_the_source_does_not_win() {
    let allowed = Allow::parse("local,172.");
    let src = "172.16.0.9";
    let behind = strings(&[src, "10.0.0.7"]);
    assert_eq!(announce_address(&behind, src, &allowed, &subnets()), src);
    let above = strings(&["10.0.0.7", src]);
    assert_eq!(announce_address(&above, src, &allowed, &subnets()), "10.0.0.7");
}

#[test]
fn a_peers_addresses_come_best_first() {
    let p = json(
        r#"{"node_ip": "10.100.0.1", "link_ip": "10.100.0.1",
            "addrs": ["10.100.0.1", "192.168.1.11"]}"#,
    );
    let (best, all) = peer_addresses(&p, &subnets());
    assert_eq!(best.as_deref(), Some("192.168.1.11"));
    assert_eq!(all, strings(&["192.168.1.11", "10.100.0.1"]));
}

#[test]
fn a_probe_settles_where_traffic_goes() {
    let mut sh = with_snapshot(SNAP);
    let t = announced_groups(&sh, NOW, &subnets());
    let g = t.get("glm").unwrap();
    assert!(probe_group(&sh, g, NOW).unwrap().tried_top);
    assert_eq!(
        endpoint_url(&sh, g).as_deref(),
        Some("http://10.0.0.7:8000/v1")
    );
    probe_landed(
        &mut sh,
        "glm",
        false,
        RoundResult::Replied {
            url: "http://10.9.9.9:8000/v1".into(),
            models: models_in(&json(r#"{"data": []}"#)),
        },
        NOW,
    );
    let p = sh.probes.get("glm").unwrap();
    assert_eq!(model_ids(&p.models), vec!["glm"], "the group's own name");
    assert_eq!(p.promoted_at, NOW);
    assert_eq!(
        endpoint_url(&sh, g).as_deref(),
        Some("http://10.9.9.9:8000/v1")
    );
    probe_landed(
        &mut sh,
        "glm",
        false,
        RoundResult::Failed { error: "x".into() },
        NOW + 9,
    );
    let p = sh.probes.get("glm").unwrap();
    assert_eq!(p.selected, None, "recovery starts from the top");
    assert_eq!(p.promoted_at, NOW);
    keep_probes(&mut sh, &Dict::new());
    assert_eq!(sh.probes.len(), 0);
}

#[test]
fn a_listing_without_names_names_nothing() {
    let m = models_in(&json(r#"{"data": [{"id": "a"}, {"id": 3}, 7]}"#));
    assert_eq!(model_ids(&m), vec!["a"]);
    assert_eq!(models_in(&json("[]")).len(), 0);
}

fn send_error(msg: &str, connect: bool, timeout: bool) -> SendError {
    SendError {
        msg: msg.into(),
        connect,
        timeout,
    }
}

#[test]
fn only_a_socket_that_lived_is_tried_again() {
    let stale = send_error("closed", false, false);
    assert!(matches!(after_first(&stale), AfterFirst::Retry));
    let refused = send_error("refused", true, false);
    match after_first(&refused) {
        AfterFirst::GiveUp { error } => assert_eq!(error, "refused"),
        other => panic!("{other:?}"),
    }
    assert!(matches!(
        after_first(&send_error("timeout", false, true)),
        AfterFirst::GiveUp { .. }
    ));
    assert_eq!(
        after_retry(&stale, &refused),
        "refused (first attempt: closed)"
    );
    assert_eq!(
        after_retry(&stale, &send_error("timeout", false, true)),
        "timeout"
    );
}

#[test]
fn requests_find_who_answers_them() {
    assert_eq!(handle("GET", "/", true), Page::Ui);
    assert_eq!(handle("GET", "", false), Page::Status);
    assert_eq!(handle("GET", "/status.json/", false), Page::Status);
    assert_eq!(handle("GET", "/stats.json", false), Page::Stats);
    assert_eq!(handle("GET", "/v1/models", false), Page::Models);
    assert_eq!(handle("GET", "/v1/chat/completions", false), Page::NotFound);
    assert_eq!(handle("POST", "/mcp", false), Page::Mcp);
    assert_eq!(
        handle("POST", "/v1/responses/input_tokens", false),
        Page::Tokens
    );
    assert_eq!(handle("POST", "/v1/chat/completions", false), Page::Forward);
    assert_eq!(handle("PUT", "/mcp", false), Page::NotFound);
}

// ---------------------------------------------------------------------------
// Watches
// ---------------------------------------------------------------------------
#[test]
fn a_node_is_watched_once() {
    let mut sh = router();
    assert!(ensure_watched(&mut sh, "10.0.0.7:6380"));
    assert!(!ensure_watched(&mut sh, "10.0.0.7:6380"));
    assert!(claim_node(&mut sh, "n1", "10.0.0.7:6380", NOW));
    assert!(claim_node(&mut sh, "n1", "10.0.0.7:6380", NOW));
    poll_replied(&mut sh, "10.0.0.7:6380", json(SNAP), NOW, &subnets());
    // The holder is fresh: another address becomes its alternate.
    assert!(!claim_node(&mut sh, "n1", "192.168.1.7:6380", NOW));
    assert!(!ensure_watched(&mut sh, "192.168.1.7:6380"));
    assert_eq!(
        try_alternates(&sh, "n1", "10.0.0.7:6380"),
        strings(&["192.168.1.7:6380"])
    );
    // Once it is stale, the one that replies takes over.
    assert!(claim_node(&mut sh, "n1", "192.168.1.7:6380", NOW + 40_000));
    assert!(sh.daemons.get("10.0.0.7:6380").is_none());
    assert_eq!(sh.nodes.get("n1").unwrap().addr, "192.168.1.7:6380");
    move_watch(&mut sh, "n1", "192.168.1.7:6380", "10.0.0.7:6380");
    assert_eq!(sh.nodes.get("n1").unwrap().addr, "10.0.0.7:6380");
    assert!(sh.nodes.get("n1").unwrap().alternates.contains("192.168.1.7:6380"));
    drop_watch(&mut sh, "10.0.0.7:6380");
    assert_eq!(sh.watched.len(), 0);
}

#[test]
fn loopback_is_the_last_alternate() {
    let mut sh = router();
    assert!(claim_node(&mut sh, "n1", "10.0.0.7:6380", NOW));
    if let Some(w) = sh.nodes.get_mut("n1") {
        for a in ["127.0.0.1:6380", "192.168.1.7:6380", "10.0.0.7:6380"] {
            w.alternates.insert(a.to_string(), ());
        }
    }
    assert_eq!(
        try_alternates(&sh, "n1", "10.0.0.7:6380"),
        strings(&["192.168.1.7:6380", "127.0.0.1:6380"])
    );
    assert!(try_alternates(&sh, "n2", "x").is_empty());
}

const PEERS: &str = r#"{"node_id": "n1", "seq": 3, "peers": {
    "n2": {"alive": true, "http_port": 6380, "node_ip": "10.0.0.8", "addrs": ["192.168.1.8"]},
    "n3": {"alive": false, "http_port": 6380, "node_ip": "10.0.0.9"}}}"#;

#[test]
fn one_seed_reveals_the_rest() {
    let mut sh = router();
    let mut w = watch_start(&mut sh, "10.0.0.7:6380", &strings(&["10.0.0.7:6380", "x:1"]));
    assert_eq!(w.untried, strings(&["x:1"]));
    let p = poll_replied(&mut sh, "10.0.0.7:6380", json(PEERS), NOW, &subnets());
    assert_eq!(p.node_id.as_deref(), Some("n1"));
    assert_eq!(p.asks.len(), 1);
    assert_eq!(p.asks[0].addr, "192.168.1.8:6380");
    assert_eq!(
        p.asks[0].others,
        strings(&["192.168.1.8:6380", "10.0.0.8:6380"])
    );
    assert!(watch_replied(&mut sh, &mut w, "n1", NOW));
    assert!(sh.nodes.get("n1").unwrap().alternates.contains("x:1"));
    assert_eq!(anchored_seq(&sh, "10.0.0.7:6380"), Some(3));
    // Asked again, nothing more is started.
    let p = poll_replied(&mut sh, "10.0.0.7:6380", json(PEERS), NOW, &subnets());
    assert!(p.asks.is_empty());
    assert!(published_alive(&sh, &Some("n2".into()), "zzz:1", NOW));
    assert!(published_alive(&sh, &None, "192.168.1.8:6380", NOW));
    assert!(!published_alive(&sh, &Some("n3".into()), "10.0.0.9:6380", NOW));
}

#[test]
fn a_watch_that_fails_moves_on() {
    let mut sh = router();
    let mut w = watch_start(&mut sh, "a:1", &strings(&["b:1"]));
    poll_failed(&mut sh, "a:1", "refused");
    assert_eq!(
        sh.daemons.get("a:1").unwrap().error.as_deref(),
        Some("refused")
    );
    match watch_failed(&mut sh, &mut w, NOW) {
        Fallback::Moved { from } => assert_eq!(from, "a:1"),
        other => panic!("{other:?}"),
    }
    assert_eq!(w.addr, "b:1");
    assert_eq!(w.untried, strings(&["a:1"]));
    assert!(sh.watched.contains("b:1"));
    assert!(watch_replied(&mut sh, &mut w, "n1", NOW));
    match watch_failed(&mut sh, &mut w, NOW) {
        Fallback::Alternates { list } => assert_eq!(list, strings(&["a:1"])),
        other => panic!("{other:?}"),
    }
    assert!(!watch_settled(&mut sh, &w, NOW));
    watch_found(&mut sh, &mut w, "a:1");
    assert_eq!((w.addr.as_str(), w.failing_since), ("a:1", None));
    match watch_failed(&mut sh, &mut w, NOW) {
        Fallback::Alternates { .. } => {}
        other => panic!("{other:?}"),
    }
    assert!(watch_settled(&mut sh, &w, NOW + 3_600_001), "nobody lists it");
    assert_eq!(sh.nodes.len(), 0);
}

#[test]
fn a_seed_is_never_given_up() {
    let mut sh = router();
    let mut w = watch_start(&mut sh, "127.0.0.1:6380", &vec![]);
    assert!(w.seed);
    assert!(matches!(
        watch_failed(&mut sh, &mut w, NOW),
        Fallback::Wait
    ));
    assert!(!watch_settled(&mut sh, &w, NOW + 999_999_999));
}

fn announce(seq: u64, boot: &str) -> Json {
    json(&format!(
        r#"{{"proto": "0.99", "t": 1000, "node_id": "n9", "boot_id": "{boot}", "seq": {seq},
             "http": "172.16.0.1:6380", "addrs": ["10.0.0.9", "192.168.1.9"]}}"#
    ))
}

#[test]
fn an_announcement_starts_one_watch() {
    let mut sh = router();
    let mut seen = Dict::new();
    let v = announce(1, "b1");
    match udp_listener(&mut sh, &mut seen, &v, "192.168.1.9", 1000, 30, &subnets()) {
        RouterHeard::Watch { ask } => {
            assert_eq!(ask.addr, "10.0.0.9:6380", "the best it offers that is local");
            assert_eq!(
                ask.others,
                strings(&["10.0.0.9:6380", "192.168.1.9:6380", "192.168.1.9:6380"])
            );
        }
        other => panic!("{other:?}"),
    }
    assert!(matches!(
        udp_listener(&mut sh, &mut seen, &v, "192.168.1.9", 1000, 30, &subnets()),
        RouterHeard::Dropped
    ));
    // A watched node learns the address.
    assert!(claim_node(&mut sh, "n9", "192.168.1.9:6380", NOW));
    let v = announce(0, "b2");
    assert!(matches!(
        udp_listener(&mut sh, &mut seen, &v, "192.168.1.9", 1000, 30, &subnets()),
        RouterHeard::Known
    ));
    assert!(sh.nodes.get("n9").unwrap().alternates.contains("10.0.0.9:6380"));
}

#[test]
fn an_announcement_is_acted_on_only_from_an_allowed_source() {
    let mut sh = router();
    let mut seen = Dict::new();
    assert!(matches!(
        udp_listener(&mut sh, &mut seen, &announce(1, "b"), "203.0.113.7", 1000, 30, &subnets()),
        RouterHeard::NotAllowed
    ));
    assert!(matches!(
        udp_listener(&mut sh, &mut seen, &announce(2, "b"), "10.0.0.9", 2000, 30, &subnets()),
        RouterHeard::Stale { t: 1000 }
    ));
    match udp_listener(
        &mut sh,
        &mut seen,
        &json(r#"{"proto": "9.0"}"#),
        "10.0.0.9",
        1000,
        30,
        &subnets(),
    ) {
        RouterHeard::WrongProto { offered } => assert_eq!(offered, "9.0"),
        other => panic!("{other:?}"),
    }
    assert_eq!(sh.watched.len(), 0);
    assert!(was_cut(1400));
    assert!(!was_cut(1399));
}

// ---------------------------------------------------------------------------
// Frames
// ---------------------------------------------------------------------------
#[test]
fn frames_are_folded_in_by_number() {
    let mut sh = with_snapshot(SNAP);
    let addr = "10.0.0.7:6380";
    let node = Some("n1".to_string());
    let mut last = None;
    let ev = |seq: u64| {
        json(&format!(
            r#"{{"node": "n1", "seq": {seq}, "patch": [{{"at": ["mark"], "value": {seq}}}]}}"#
        ))
    };
    assert_eq!(
        apply_frame(&mut sh, addr, &node, &ev(6), &mut last, NOW),
        Applied::Resync,
        "no snapshot yet"
    );
    let first = json(r#"{"type": "snapshot", "seq": 5, "data": {"node_id": "n1"}}"#);
    assert_eq!(
        apply_frame(&mut sh, addr, &node, &first, &mut last, NOW),
        Applied::Yes
    );
    assert_eq!(last, Some(5));
    assert_eq!(
        apply_frame(&mut sh, addr, &node, &ev(6), &mut last, NOW + 1),
        Applied::Yes
    );
    assert_eq!(
        apply_frame(&mut sh, addr, &node, &ev(6), &mut last, NOW + 2),
        Applied::Skip,
        "already in the view"
    );
    assert_eq!(
        apply_frame(&mut sh, addr, &node, &ev(8), &mut last, NOW + 2),
        Applied::Resync,
        "a gap"
    );
    let other = json(r#"{"node": "n2", "seq": 7, "patch": []}"#);
    assert_eq!(
        apply_frame(&mut sh, addr, &node, &other, &mut last, NOW + 2),
        Applied::Skip,
        "another node's event"
    );
    let bare = json(r#"{"node": "n1", "seq": 7, "type": "actor_running"}"#);
    assert_eq!(
        apply_frame(&mut sh, addr, &node, &bare, &mut last, NOW + 2),
        Applied::Resync,
        "no patch in it"
    );
    assert_eq!(last, Some(6), "and its number is still owed");
    let old = json(r#"{"node": "n1", "seq": 6, "type": "actor_running"}"#);
    assert_eq!(
        apply_frame(&mut sh, addr, &node, &old, &mut last, NOW + 2),
        Applied::Skip,
        "already in the view, patch or none"
    );
    assert_eq!(last, Some(6));
    let view = sh.daemons.get(addr).unwrap();
    assert_eq!(view.status.as_ref().unwrap().uint_at("mark"), Some(6));
    assert_eq!(view.seen, Some(NOW + 1));
    assert_eq!(
        apply_frame(&mut sh, "nobody", &node, &ev(9), &mut last, NOW),
        Applied::Skip
    );
}

#[test]
fn a_stream_that_cannot_be_opened_is_noted() {
    let mut sh = router();
    events_failed(&mut sh, "a:1", false, "refused");
    assert_eq!(
        sh.daemons.get("a:1").unwrap().error.as_deref(),
        Some("/events: refused")
    );
    assert!(full_read_due(&sh, NOW, NOW + 10_000));
    assert!(!full_read_due(&sh, NOW, NOW + 9_999));
}
