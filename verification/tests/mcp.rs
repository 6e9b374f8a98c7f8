use mentat::common::dict::Dict;
use mentat::common::json::{Json, Real};
use mentat::serve::dispatch::{
    dispatch, error_events, keep_answered, keep_next, keeps_alive, refusal, send_failed, too_large,
    Answer, Chunk, Keep, Refusal, Step,
};
use mentat::serve::mcp::{
    batch_reply, call, call_answered, fetch_done, group_tools, list_or_none, list_reply,
    list_request, mcp_groups, merge, native_reply, page_view, parse_error, rpc, store_tools,
    tool_err, tool_list, with_group_arg, CallPlan, GroupTools, Rpc,
};
use mentat::serve::net::Net;
use mentat::serve::probe::{probe_landed, RoundResult, SendError};
use mentat::serve::shared::{Config, DaemonView, Settings, Shared};

fn value(v: serde_json::Value) -> Json {
    match v {
        serde_json::Value::Null => Json::Null,
        serde_json::Value::Bool(b) => Json::Bool(b),
        serde_json::Value::Number(n) => match (n.as_u64(), n.as_i64()) {
            (Some(u), _) => Json::Uint(u),
            (None, Some(i)) => Json::Neg(i),
            _ => {
                let f = n.as_f64().unwrap();
                let up = f.ceil().max(0.0);
                Json::Real(Real {
                    text: n.to_string(),
                    up: up as u64,
                    whole: up == f,
                })
            }
        },
        serde_json::Value::String(s) => Json::Str(s),
        serde_json::Value::Array(a) => Json::Arr(a.into_iter().map(value).collect()),
        serde_json::Value::Object(m) => {
            let mut d: Dict<Json> = Dict::new();
            for (k, v) in m {
                d.insert(k, value(v));
            }
            Json::Obj(d)
        }
    }
}

fn json(text: &str) -> Json {
    value(serde_json::from_str(text).unwrap())
}

/// What stands at a path of names.
fn at<'a>(j: &'a Json, path: &[&str]) -> Option<&'a Json> {
    let mut cur = j;
    for k in path {
        cur = cur.get(k)?;
    }
    Some(cur)
}

const NOW: u64 = 1_000_000_000;

fn subnets() -> Vec<Net> {
    vec![Net::parse("10.0.0.0/24").unwrap()]
}

/// Two groups with a server of tools each, of which one serves a model.
fn router() -> Shared {
    let cfg = Config::from_settings(&Settings {
        daemons: Some("10.0.0.7:6380".into()),
        port: None,
        announce_port: None,
        allowed_sources: Some("10.0.0.0/8".into()),
        discover_peers: None,
        poll_interval: None,
        probe_interval: None,
        probe_timeout: None,
        probe_fresh: None,
        probe_promote: None,
        serving_timeout: Some(1_500),
        model_wait: None,
        sse_keepalive: None,
        mcp_timeout: None,
        tools_ttl: None,
        model_ttl: None,
    });
    let mut sh = Shared::new(cfg, NOW);
    sh.daemons.insert(
        "10.0.0.7:6380".into(),
        DaemonView {
            status: Some(json(
                r#"{"node_ip": "10.0.0.7", "addrs": ["10.0.0.7"], "groups": {
                    "ga": {"agents": {"a": {"alive": true, "node_ip": "10.0.0.7", "services": {
                        "openai": {"port": 8000, "path": "/v1"},
                        "mcp": {"port": 9000, "path": "/mcp"}}}}, "actors": {}},
                    "gb": {"agents": {"b": {"alive": true, "node_ip": "10.0.0.7", "services": {
                        "mcp": {"port": 9001, "path": "/mcp"}}}}, "actors": {}}}}"#,
            )),
            seen: Some(NOW),
            error: None,
            node_id: None,
            seed: true,
        },
    );
    probe_landed(
        &mut sh,
        "ga",
        true,
        RoundResult::Replied {
            url: "http://10.0.0.7:8000/v1".into(),
            models: vec![json(r#"{"id": "m"}"#)],
        },
        NOW,
    );
    sh
}

fn tools(group: &str, list: &str) -> GroupTools {
    GroupTools {
        group: group.into(),
        tools: match json(list) {
            Json::Arr(a) => a,
            _ => Vec::new(),
        },
    }
}

fn merged() -> Dict<mentat::serve::mcp::Merged> {
    merge(&vec![
        tools(
            "ga",
            r#"[{"name": "restart", "description": "first", "inputSchema":
                 {"properties": {"now": {"type": "boolean"}}, "required": ["now"]}},
                {"name": "only_a"}, {"name": "serve_status"}, {"no_name": 1}]"#,
        ),
        tools("gb", r#"[{"name": "restart", "description": "second"}]"#),
    ])
}

fn text_of(doc: &Json) -> (String, bool) {
    let res = at(doc, &["result"]).unwrap();
    (
        res.items_at("content").unwrap()[0]
            .text_at("text")
            .unwrap()
            .to_string(),
        res.true_at("isError"),
    )
}

#[test]
fn requests_are_told_apart() {
    match rpc(&json(r#"{"id": 1, "method": "initialize"}"#), "0.5.2") {
        Rpc::Reply { doc } => {
            assert_eq!(
                at(&doc, &["result", "protocolVersion"]).and_then(|j| j.as_str()),
                Some("2025-06-18")
            );
            assert_eq!(
                at(&doc, &["result", "serverInfo", "version"]).and_then(|j| j.as_str()),
                Some("0.5.2")
            );
            assert_eq!(doc.uint_at("id"), Some(1));
        }
        other => panic!("{other:?}"),
    }
    assert!(matches!(
        rpc(&json(r#"{"method": "notifications/initialized"}"#), "v"),
        Rpc::Silent
    ));
    match rpc(&json(r#"{"id": "x", "method": "ping"}"#), "v") {
        Rpc::Reply { doc } => assert_eq!(
            doc,
            json(r#"{"jsonrpc": "2.0", "id": "x", "result": {}}"#)
        ),
        other => panic!("{other:?}"),
    }
    assert!(matches!(
        rpc(&json(r#"{"id": 2, "method": "tools/list"}"#), "v"),
        Rpc::List { .. }
    ));
    match rpc(&json(r#"{"id": 2, "method": "tools/call", "params": {"name": "n"}}"#), "v") {
        Rpc::Call { params, .. } => assert_eq!(params.text_at("name"), Some("n")),
        other => panic!("{other:?}"),
    }
    match rpc(&json(r#"{"id": 3, "method": "no\"pe"}"#), "v") {
        Rpc::Reply { doc } => assert_eq!(
            doc,
            json(
                r#"{"jsonrpc": "2.0", "id": 3,
                    "error": {"code": -32601, "message": "no method \"no\\\"pe\""}}"#
            )
        ),
        other => panic!("{other:?}"),
    }
    assert_eq!(
        parse_error("eof"),
        json(
            r#"{"jsonrpc": "2.0", "id": null,
                "error": {"code": -32700, "message": "parse error: eof"}}"#
        )
    );
    assert_eq!(batch_reply(vec![]), None);
    assert_eq!(batch_reply(vec![Json::Null]), Some(json("[null]")));
}

#[test]
fn a_tool_of_several_groups_is_listed_once() {
    let m = merged();
    assert_eq!(m.len(), 2, "the native name and the nameless one are dropped");
    let r = m.get("restart").unwrap();
    assert_eq!(r.description, "first", "the first group's words stand");
    assert_eq!(r.groups, vec!["ga".to_string(), "gb".to_string()]);
    let schema = with_group_arg(r);
    assert_eq!(schema.text_at("type"), Some("object"));
    assert_eq!(
        at(&schema, &["properties", "__group", "enum"]),
        Some(&json(r#"["ga", "gb"]"#))
    );
    assert_eq!(
        at(&schema, &["properties", "__group", "description"]).and_then(|j| j.as_str()),
        Some("Which group runs this tool. Offered by: ga, gb.")
    );
    assert_eq!(schema.get("required"), Some(&json(r#"["now", "__group"]"#)));
    let one = with_group_arg(m.get("only_a").unwrap());
    assert!(one.get("required").is_none(), "nothing to choose");
    let list = tool_list(&m);
    let names: Vec<_> = list.iter().map(|t| t.text_at("name").unwrap()).collect();
    assert_eq!(names, vec!["serve_status", "only_a", "restart"]);
    let doc = list_reply(&Json::Uint(4), list);
    assert_eq!(
        at(&doc, &["result"]).unwrap().items_at("tools").unwrap().len(),
        3
    );
}

fn params(text: &str) -> Json {
    json(text)
}

#[test]
fn a_call_runs_in_the_group_it_names() {
    let sh = router();
    let m = merged();
    let rid = Json::Uint(1);
    let plan = |p: &str| call(&sh, &m, &rid, &params(p), NOW, &subnets());
    assert!(matches!(plan(r#"{"name": "serve_status"}"#), CallPlan::Native));
    match plan(r#"{"name": "restart", "arguments": {"__group": "gb", "now": true}}"#) {
        CallPlan::Forward { group, url, body } => {
            assert_eq!((group.as_str(), url.as_str()), ("gb", "http://10.0.0.7:9001/mcp"));
            assert_eq!(
                body,
                json(
                    r#"{"jsonrpc": "2.0", "id": 1, "method": "tools/call",
                        "params": {"name": "restart", "arguments": {"now": true}}}"#
                )
            );
        }
        other => panic!("{other:?}"),
    }
    match plan(r#"{"name": "only_a"}"#) {
        CallPlan::Forward { group, .. } => assert_eq!(group, "ga"),
        other => panic!("{other:?}"),
    }
    let said = |p: &str| match plan(p) {
        CallPlan::Reply { doc } => text_of(&doc).0,
        other => panic!("{other:?}"),
    };
    assert_eq!(
        said(r#"{"name": "restart"}"#),
        "\"restart\" runs in more than one group. Pass \"__group\": ga, gb"
    );
    assert_eq!(
        said(r#"{"name": "restart", "arguments": {"__group": "gc"}}"#),
        "group \"gc\" does not offer \"restart\". Groups that do: ga, gb"
    );
    assert_eq!(
        said(r#"{"name": "nope"}"#),
        "no tool \"nope\". Tools right now: serve_status, only_a, restart"
    );
    let gone = merge(&vec![tools("gz", r#"[{"name": "t"}]"#)]);
    match call(&sh, &gone, &rid, &params(r#"{"name": "t"}"#), NOW, &subnets()) {
        CallPlan::Reply { doc } => {
            assert_eq!(text_of(&doc).0, "group \"gz\" has no MCP endpoint")
        }
        other => panic!("{other:?}"),
    }
    assert_eq!(list_or_none(&vec![]), "none");
}

#[test]
fn a_reply_is_passed_on_or_explained() {
    let rid = Json::Uint(9);
    let v = json(r#"{"result": 1}"#);
    assert_eq!(call_answered(&rid, "ga", Ok(v.copy())), v);
    assert_eq!(
        text_of(&call_answered(&rid, "ga", Ok(json("{}")))),
        (
            "ga replied with neither result nor error: {}".to_string(),
            true
        )
    );
    let odd = json(r#"{"b": [1, -2, 0.5, null, "q\"\n"], "a": {"x": true, "y": []}}"#);
    assert_eq!(
        text_of(&call_answered(&rid, "ga", Ok(odd))).0,
        "ga replied with neither result nor error: \
         {\"a\":{\"x\":true,\"y\":[]},\"b\":[1,-2,0.5,null,\"q\\\"\\n\"]}"
    );
    assert_eq!(
        text_of(&call_answered(&rid, "ga", Err("timeout".into()))).0,
        "ga did not answer: timeout"
    );
    assert_eq!(text_of(&native_reply(&rid, "hi")), ("hi".to_string(), false));
    assert_eq!(text_of(&tool_err(&rid, "no")), ("no".to_string(), true));
}

#[test]
fn a_list_is_cached_while_it_holds_something() {
    let mut sh = router();
    assert_eq!(
        mcp_groups(&sh, NOW, &subnets()),
        vec![
            ("ga".to_string(), "http://10.0.0.7:9000/mcp".to_string()),
            ("gb".to_string(), "http://10.0.0.7:9001/mcp".to_string()),
        ]
    );
    let url = "http://10.0.0.7:9000/mcp";
    assert!(group_tools(&sh, "ga", url, NOW).is_none());
    let (rows, asks) = page_view(&mut sh, NOW, &subnets());
    assert_eq!(rows[0], json(r#"{"group": "ga", "tools": null, "error": null}"#));
    assert_eq!(asks.len(), 2);
    assert_eq!(page_view(&mut sh, NOW, &subnets()).1.len(), 0, "already being read");
    fetch_done(&mut sh, "gb", "http://10.0.0.7:9001/mcp");
    let got = store_tools(
        &mut sh,
        "ga",
        url,
        &Ok(json(r#"{"result": {"tools": [{"name": "t"}]}}"#)),
        NOW,
    );
    assert_eq!(got.len(), 1);
    assert_eq!(group_tools(&sh, "ga", url, NOW + 60_000).unwrap().len(), 1);
    assert!(group_tools(&sh, "ga", url, NOW + 60_001).is_none());
    store_tools(&mut sh, "gb", "http://10.0.0.7:9001/mcp", &Err("down".into()), NOW);
    let (rows, asks) = page_view(&mut sh, NOW, &subnets());
    assert_eq!(rows[0], json(r#"{"group": "ga", "tools": ["t"], "error": null}"#));
    assert_eq!(rows[1], json(r#"{"group": "gb", "tools": null, "error": "down"}"#));
    assert_eq!(asks.len(), 1, "a failed list counts as a miss");
    assert_eq!(list_request().text_at("method"), Some("tools/list"));
}

// ---------------------------------------------------------------------------
// Dispatch
// ---------------------------------------------------------------------------
#[test]
fn a_request_goes_where_its_model_is() {
    let sh = router();
    match dispatch(&sh, "m", "/v1/chat/completions", NOW, NOW, &subnets()) {
        Step::Send { group, url } => assert_eq!(
            (group.as_str(), url.as_str()),
            ("ga", "http://10.0.0.7:8000/v1/chat/completions")
        ),
        other => panic!("{other:?}"),
    }
    assert!(matches!(
        dispatch(&sh, "gb", "/v1/x", NOW + 1, NOW, &subnets()),
        Step::Wait
    ));
    match dispatch(&sh, "gb", "/v1/x", NOW, NOW, &subnets()) {
        Step::Refuse { refusal } => {
            assert_eq!(refusal.status, 503);
            assert_eq!(
                refusal.message(),
                "gb is not ready after 60s: no announced OpenAI endpoint"
            );
        }
        other => panic!("{other:?}"),
    }
    let r = refusal(&sh, "zz", NOW, &subnets());
    assert_eq!(r.status, 404);
    assert_eq!(
        r.to_json(),
        json(
            r#"{"error": "no group serves model \"zz\" after 60s", "available": ["m"],
                "not_ready": {"gb": "no announced OpenAI endpoint"}}"#
        )
    );
    assert_eq!(
        Refusal::new(502, "x".into()).to_json(),
        json(r#"{"error": "x"}"#)
    );
    assert_eq!(too_large(7).message(), "request body over 7 bytes");
    assert_eq!(too_large(7).status, 413);
}

#[test]
fn only_a_refused_connection_is_waited_out() {
    let sh = router();
    let err = |connect, timeout| SendError {
        msg: "why".into(),
        connect,
        timeout,
    };
    assert!(matches!(
        send_failed(&sh, "ga", &err(true, false), NOW + 1, NOW),
        Step::Wait
    ));
    let said = |e: SendError, deadline| match send_failed(&sh, "ga", &e, deadline, NOW) {
        Step::Refuse { refusal } => (refusal.status, refusal.message()),
        other => panic!("{other:?}"),
    };
    assert_eq!(
        said(err(true, false), NOW),
        (502, "ga did not answer: why".to_string())
    );
    assert_eq!(
        said(err(false, true), NOW + 9),
        (504, "ga gave no response within 2s".to_string())
    );
    assert_eq!(
        said(err(false, false), NOW + 9),
        (502, "ga did not answer: why".to_string())
    );
}

#[test]
fn a_stream_that_fails_late_ends_with_an_event() {
    let sh = router();
    assert!(keeps_alive(&sh, true));
    assert!(!keeps_alive(&sh, false));
    assert_eq!(
        error_events("a \"b\"\n"),
        vec![
            "data: {\"error\":{\"message\":\"a \\\"b\\\"\\n\",\"type\":\"upstream_error\"}}\n\n",
            "data: [DONE]\n\n"
        ]
    );
    let mut k = Keep::Waiting;
    assert!(matches!(keep_next(&mut k), Chunk::Tick));
    k = keep_answered(Answer::Replied {
        success: false,
        status: "500 Internal Server Error".into(),
    });
    match keep_next(&mut k) {
        Chunk::Data { text } => assert!(
            text.contains("upstream answered HTTP 500 Internal Server Error"),
            "{text}"
        ),
        other => panic!("{other:?}"),
    }
    assert!(matches!(keep_next(&mut k), Chunk::Data { .. }));
    assert!(matches!(keep_next(&mut k), Chunk::End));
    assert!(matches!(k, Keep::Done));
    let mut k = keep_answered(Answer::Replied {
        success: true,
        status: "200 OK".into(),
    });
    assert!(matches!(keep_next(&mut k), Chunk::Upstream));
    let mut k = keep_answered(Answer::Lost);
    match keep_next(&mut k) {
        Chunk::Data { text } => assert!(text.contains("the router dropped the request"), "{text}"),
        other => panic!("{other:?}"),
    }
    assert!(matches!(
        keep_answered(Answer::Refused {
            message: "no".into()
        }),
        Keep::Failing { .. }
    ));
}

#[test]
fn a_group_that_lists_a_tool_twice_is_one_group() {
    let twice = r#"[{"name": "restart"}, {"name": "other"}, {"name": "restart"}]"#;
    let m = merge(&vec![tools("a", twice)]);
    assert_eq!(m.get("restart").unwrap().groups, vec!["a".to_string()]);
    let m = merge(&vec![tools("a", twice), tools("b", twice)]);
    assert_eq!(
        m.get("restart").unwrap().groups,
        vec!["a".to_string(), "b".to_string()]
    );
}

#[test]
fn an_error_event_escapes_what_would_break_its_line() {
    let e = error_events("a\n\"b\"\u{1}\u{8}\t\\");
    assert_eq!(
        e[0],
        "data: {\"error\":{\"message\":\"a\\n\\\"b\\\"\\u0001\\b\\t\\\\\",\
         \"type\":\"upstream_error\"}}\n\n"
    );
}
