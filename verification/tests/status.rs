use mentat::common::dict::Dict;
use mentat::common::json::{Json, Real};
use mentat::common::logfmt::Program;
use mentat::daemon::render::render;

fn value(v: serde_json::Value) -> Json {
    match v {
        serde_json::Value::Null => Json::Null,
        serde_json::Value::Bool(b) => Json::Bool(b),
        serde_json::Value::Number(n) => match (n.as_u64(), n.as_i64()) {
            (Some(u), _) => Json::Uint(u),
            (None, Some(i)) => Json::Neg(i),
            _ => {
                let f = n.as_f64().unwrap();
                let up = f.ceil().max(0.0);
                Json::Real(Real {
                    text: n.to_string(),
                    up: up as u64,
                    whole: up == f,
                })
            }
        },
        serde_json::Value::String(s) => Json::Str(s),
        serde_json::Value::Array(a) => Json::Arr(a.into_iter().map(value).collect()),
        serde_json::Value::Object(m) => {
            let mut d: Dict<Json> = Dict::new();
            for (k, v) in m {
                d.insert(k, value(v));
            }
            Json::Obj(d)
        }
    }
}

fn json(text: &str) -> Json {
    value(serde_json::from_str(text).unwrap())
}

/// What stands at a path of names.
fn at<'a>(j: &'a Json, path: &[&str]) -> Option<&'a Json> {
    let mut cur = j;
    for k in path {
        cur = cur.get(k)?;
    }
    Some(cur)
}

/// The start-up script's pipeline:
///   grep -oE '[0-9.]+/[0-9.]+ GPU' | cut -d/ -f2 | cut -d. -f1
fn entrypoint_gpu_gate(status_output: &str) -> Option<u64> {
    let re_matches: Vec<&str> = status_output
        .lines()
        .filter(|l| find_gpu_pattern(l).is_some())
        .collect();
    assert!(
        re_matches.len() <= 1,
        "more than one line matches the GPU regex: {re_matches:?}"
    );
    let m = find_gpu_pattern(re_matches.first()?)?;
    let denom = m.split('/').nth(1)?;
    denom.split('.').next()?.parse().ok()
}

/// grep -oE '[0-9.]+/[0-9.]+ GPU', as far as this needs it.
fn find_gpu_pattern(line: &str) -> Option<String> {
    let gpu_at = line.find(" GPU")?;
    let before = &line[..gpu_at];
    let start = before
        .rfind(|c: char| !(c.is_ascii_digit() || c == '.' || c == '/'))
        .map(|i| i + 1)
        .unwrap_or(0);
    let cand = &before[start..];
    let mut parts = cand.split('/');
    let (a, b) = (parts.next()?, parts.next()?);
    if a.is_empty() || b.is_empty() || parts.next().is_some() {
        return None;
    }
    Some(cand.to_string())
}

/// A snapshot as text, with the sums of its groups' counts for the figures.
fn rendering(data: &Json, scoped: bool) -> String {
    let (used, total) = (figure(data, "gpus_used"), figure(data, "gpus_total"));
    render(data, scoped, &used, &total)
}

fn figure(data: &Json, field: &str) -> String {
    let mut sum = 0.0;
    if let Some(groups) = data.fields_at("groups") {
        for i in 0..groups.len() {
            sum += match groups.val_at(i).get(field) {
                Some(Json::Uint(n)) => *n as f64,
                Some(Json::Neg(n)) => *n as f64,
                Some(Json::Real(x)) => x.text.parse::<f64>().unwrap(),
                _ => 0.0,
            };
        }
    }
    format!("{sum:.1}")
}

#[test]
fn gpu_line_contract() {
    let data = json(
        r#"{"control_addr": "10.100.0.2:6379", "hostname": "gx10-n1",
            "groups": {"glm53": {
                "gpus_total": 2.0, "gpus_used": 2.0,
                "agents": [
                    {"id": "glm53@glm53", "node_ip": "10.100.0.2", "container": "glm53",
                     "gpus": 1, "gpus_free": 0, "gpu_vendor": "nvidia", "alive": true},
                    {"id": "glm53@glm53w", "node_ip": "10.100.0.1", "container": "glm53",
                     "gpus": 1, "gpus_free": 0, "gpu_vendor": "nvidia", "alive": true}
                ],
                "placement_groups": [{"id": "abc", "bundles": 2, "state": "CREATED"}],
                "actors": [{"id": "a1", "name": "vllm_Worker_1_TP0", "node_id": "aabbcc",
                            "pid": 100, "state": "running"}]}}}"#,
    );
    let text = rendering(&data, true);
    assert_eq!(entrypoint_gpu_gate(&text), Some(2));

    // TP=4-shaped totals must survive the same pipeline.
    let data4 = json(
        r#"{"control_addr": "x", "hostname": "y",
            "groups": {"g": {"gpus_total": 4.0, "gpus_used": 0.0,
                             "agents": [], "placement_groups": [], "actors": []}}}"#,
    );
    assert_eq!(entrypoint_gpu_gate(&rendering(&data4, true)), Some(4));

    // Unscoped output must not accidentally match the pipeline at all.
    assert_eq!(entrypoint_gpu_gate(&rendering(&data, false)), None);
}

#[test]
fn a_snapshot_renders_line_by_line() {
    let data = json(
        r#"{"control_addr": "10.0.0.1:6379", "hostname": "box", "node_id": "n1",
            "head_node_id": "abcdefghij",
            "peers": {"abcdefghij": {"node_ip": "10.0.0.2", "alive": true, "probes":
                {"10.0.0.1": {"10.0.0.2": {"ok": true, "rtt_ms": 3}, "10.0.0.3": {"ok": false}}}}},
            "islands": [{"nodes": ["n1", "6d656e7461743a31302e302e302e31", "zz"],
                         "addrs": {"n1": "10.9.0.1"}}],
            "groups": {"g": {"gpus_used": 1, "gpus_total": 2,
                "agents": {"a": {"node_ip": "10.0.0.1", "container": "c", "alive": true,
                    "degraded": true, "gpus_free": [1],
                    "machine": {"gpus": [{"vendor": "nvidia"}, {"vendor": "amd"}]}}},
                "placement_groups": {"p": {"bundles": [1, 1], "state": "CREATED"}},
                "actors": {"x": {"name": "w0", "node_id": "abcdefghij", "pid": 7,
                                 "state": "running"}}}}}"#,
    );
    assert_eq!(
        rendering(&data, true),
        "Resources: 1.0/2.0 GPU (1.0 reserved in placement groups)\n\
         mentat daemon: 10.0.0.1:6379 (box)\n\
         peer abcdefgh... 10.0.0.2 alive=true [head]\n\
         \x20 reach from 10.0.0.1: 10.0.0.2=ok/3ms 10.0.0.3=fail\n\
         fabric 0: 10.9.0.1 10.0.0.1 zz\n\
         group g: gpus=1/2\n\
         \x20 agent a node=10.0.0.1 container=c gpus=1/2 vendor=amd+nvidia alive=true degraded=true\n\
         \x20 pg p bundles=2 state=CREATED\n\
         \x20 actor w0 [x] node=abcdef... pid=7 state=running\n"
    );
    assert_eq!(rendering(&json("{}"), false), "mentat daemon: ? (?) [head]\n");
}

#[test]
fn a_log_line_quotes_what_needs_it() {
    let mut p = Program::new();
    let fields = vec![
        ("a".to_string(), "plain".to_string()),
        ("b".to_string(), "two words".to_string()),
        ("c".to_string(), "q\"q".to_string()),
    ];
    assert_eq!(
        p.line(12_007, "up", &fields),
        "mentat ts=12.007 event=up a=plain b=\"two words\" c=\"q\\\"q\""
    );
    p.set_program("mentatd");
    p.set_program("other");
    assert_eq!(p.line(1_000, "x", &vec![]), "mentatd ts=1.000 event=x");
    assert_eq!(p.line(123, "x", &vec![]), "mentatd ts=0.123 event=x");
    assert_eq!(p.line(45, "x", &vec![]), "mentatd ts=0.045 event=x");
}

#[test]
fn a_text_that_says_gpu_counts_as_well() {
    let data = json(r#"{"control_addr": "x", "hostname": "1/2 GPU"}"#);
    let text = rendering(&data, true);
    assert_eq!(
        text.lines().filter(|l| find_gpu_pattern(l).is_some()).count(),
        2
    );
}

#[test]
fn a_part_of_a_device_is_shown_in_the_totals() {
    let part = json(
        r#"{"groups": {"g": {"gpus_used": 1.5, "gpus_total": 2},
                       "h": {"gpus_used": -0.5, "gpus_total": 0.5}}}"#,
    );
    assert_eq!(
        rendering(&part, true),
        "Resources: 1.0/2.5 GPU (1.0 reserved in placement groups)\n\
         mentat daemon: ? (?) [head]\ngroup g: gpus=1/2\ngroup h: gpus=0/0\n"
    );
    assert_eq!(
        render(&part, false, "1.0", "2.5"),
        render(&part, false, "", "")
    );
}

#[test]
fn a_group_counts_as_doubles_do() {
    for n in [
        9_007_199_254_740_991u64,
        9_007_199_254_740_993,
        9_007_199_254_740_995,
        18_446_744_073_709_550_591,
        18_446_744_073_709_550_592,
        u64::MAX,
    ] {
        let data = json(&format!(r#"{{"groups": {{"g": {{"gpus_used": {n}}}}}}}"#));
        assert_eq!(
            render(&data, false, "", ""),
            format!(
                "mentat daemon: ? (?) [head]\ngroup g: gpus={}/0\n",
                n as f64 as u64
            )
        );
    }
}

#[test]
fn a_peer_shows_its_flag_as_it_is() {
    for (flag, shown) in [
        ("true", "true"),
        ("null", "null"),
        ("1", "1"),
        ("-3", "-3"),
        ("0.5", "0.5"),
        (r#""yes""#, r#""yes""#),
        (r#"[1, {"b": 2, "a": "x\ty"}]"#, r#"[1,{"a":"x\ty","b":2}]"#),
    ] {
        let data = json(&format!(r#"{{"node_id": 1, "peers": {{"p": {{"alive": {flag}}}}}}}"#));
        assert_eq!(
            render(&data, false, "", ""),
            format!("mentat daemon: ? (?)\npeer p... ? alive={shown}\n")
        );
    }
}

#[test]
fn a_log_line_is_one_line() {
    let p = Program::new();
    let fields = vec![
        ("k".to_string(), "a\nb".to_string()),
        ("t".to_string(), "a\tb".to_string()),
    ];
    let line = p.line(0, "e", &fields);
    assert_eq!(line, "mentat ts=0.000 event=e k=\"a\\nb\" t=a\tb");
    assert_eq!(line.lines().count(), 1);
}
