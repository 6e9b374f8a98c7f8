use mentat::common::dict::Dict;
use mentat::common::ifaces::{interface_rows, IfaceRow};
use mentat::common::json::Json;
use mentat::daemon::announce::{
    addrs_up, all_local_addrs, announce_port, announced_addrs, announced_override, announcement,
    broadcast_targets, extra_targets, glob_match, listen, local_addr_ifaces, local_addr_tags,
    local_addrs, match_spec, parse_spec, selected_ifaces, sendable, AnnounceOpts, Heard,
    DEFAULT_PORT,
};
use mentat::daemon::state::State;

/// Names as the fleet reports them: two ConnectX ports and a LAN port on the
/// pair, a differently-named LAN port on the third box.
fn names() -> Vec<&'static str> {
    vec!["enp1s0f0np0", "enp1s0f1np1", "eno1", "enP2p1s0", "docker0"]
}

fn ranked(spec: &str, names: &[&str]) -> Vec<(String, Vec<String>)> {
    let spec = parse_spec(spec);
    let mut out: Vec<(usize, String, Vec<String>)> = names
        .iter()
        .filter_map(|n| match_spec(&spec, n).map(|(rank, tags)| (rank, n.to_string(), tags)))
        .collect();
    out.sort_by_key(|(rank, _, _)| *rank);
    out.into_iter().map(|(_, n, t)| (n, t)).collect()
}

/// An entry with no wildcard must stay an exact name.
#[test]
fn a_plain_name_is_not_a_prefix() {
    assert!(glob_match("eno1", "eno1"));
    assert!(!glob_match("en", "eno1"));
    assert_eq!(
        ranked("eno1", &names()),
        vec![("eno1".to_string(), vec![])],
        "only the named interface is selected"
    );
}

#[test]
fn wildcards_match_fnmatch_style() {
    assert!(glob_match("en*", "eno1"));
    assert!(glob_match("en*f*np*", "enp1s0f0np0"));
    assert!(!glob_match("en*f*np*", "eno1"));
    assert!(glob_match("eno?", "eno1"));
    assert!(!glob_match("eno?", "eno10"));
    assert!(glob_match("*", "anything"));
    assert!(glob_match("**", "anything"));
    // A trailing star may match nothing at all.
    assert!(glob_match("eno1*", "eno1"));
    // Backtracking: the first star must give characters back so the literal tail
    // can land.
    assert!(glob_match("*np0", "enp1s0f0np0"));
    assert!(!glob_match("*np2", "enp1s0f0np0"));
}

/// One line for the whole fleet: the fabric ports rank above the LAN ports
/// whatever the box calls them.
#[test]
fn one_spec_ranks_and_tags_a_mixed_fleet() {
    assert_eq!(
        ranked("en*f*np*=connectx+rdma,en*=lan", &names()),
        vec![
            (
                "enp1s0f0np0".to_string(),
                vec!["connectx".to_string(), "rdma".to_string()]
            ),
            (
                "enp1s0f1np1".to_string(),
                vec!["connectx".to_string(), "rdma".to_string()]
            ),
            ("eno1".to_string(), vec!["lan".to_string()]),
            ("enP2p1s0".to_string(), vec!["lan".to_string()]),
        ],
    );
}

/// First match wins, so a later entry cannot re-tag or re-rank a name an earlier
/// one already claimed.
#[test]
fn the_first_matching_entry_decides() {
    assert_eq!(
        ranked("en*=lan,en*f*np*=connectx+rdma", &names()),
        vec![
            ("enp1s0f0np0".to_string(), vec!["lan".to_string()]),
            ("enp1s0f1np1".to_string(), vec!["lan".to_string()]),
            ("eno1".to_string(), vec!["lan".to_string()]),
            ("enP2p1s0".to_string(), vec!["lan".to_string()]),
        ],
        "the broad entry came first, so it swallowed the fabric ports",
    );
}

#[test]
fn an_unmatched_name_is_not_selected() {
    assert!(match_spec(&parse_spec("eno1,en*np*"), "docker0").is_none());
    assert!(match_spec(&parse_spec(""), "eno1").is_none());
}

/// A star in a name is a character like any other.
#[test]
fn a_star_stands_for_a_run_that_holds_a_star() {
    assert!(glob_match("*", "*a"));
    assert!(glob_match("a*b", "a**b"));
    assert!(!glob_match("?", "**"));
}

fn row(name: &str, addr: &str, up: bool, loopback: bool) -> IfaceRow {
    IfaceRow {
        name: name.into(),
        v4: !addr.contains(':'),
        addr: Some(addr.into()),
        mask: None,
        far: Some("10.0.0.255".into()),
        up,
        loopback,
        broadcasts: !loopback,
    }
}

fn rows() -> Vec<IfaceRow> {
    vec![
        row("lo", "127.0.0.1", true, true),
        row("eno1", "192.168.1.70", true, false),
        row("enp1s0f0np0", "10.100.0.1", true, false),
        row("enp1s0f0np0", "fe80::1", true, false),
        row("docker0", "172.17.0.1", true, false),
        row("eno2", "192.168.2.70", false, false),
    ]
}

#[test]
fn the_list_ranks_the_interfaces() {
    let sel = selected_ifaces("en*f*np*=rdma,eno*=lan", &rows());
    let got: Vec<&str> = sel.iter().map(|i| i.name.as_str()).collect();
    assert_eq!(got, vec!["enp1s0f0np0", "eno1"]);
    assert_eq!(sel[0].tags, vec!["rdma".to_string()]);
    assert_eq!(
        broadcast_targets(&sel, 6382),
        vec!["10.0.0.255:6382".to_string(), "10.0.0.255:6382".to_string()]
    );
}

#[test]
fn without_a_list_the_bridges_are_left_out() {
    let sel = selected_ifaces("", &rows());
    let got: Vec<&str> = sel.iter().map(|i| i.name.as_str()).collect();
    assert_eq!(got, vec!["eno1", "enp1s0f0np0"]);
    assert!(sel.iter().all(|i| i.tags.is_empty()));
}

fn opts(ifaces: &str, addrs: &str) -> AnnounceOpts {
    AnnounceOpts {
        ifaces: ifaces.into(),
        addrs: addrs.into(),
    }
}

#[test]
fn addresses_named_outright_replace_the_interfaces() {
    let (good, bad) = announced_override("192.168.1.11=lan,10.100.0.1=connectx+rdma,nonsense");
    assert_eq!(good.len(), 2);
    assert_eq!(bad, vec!["nonsense".to_string()]);
    let got = announced_addrs(&opts("en*", "192.168.1.11=lan,10.100.0.1"), &rows());
    assert_eq!(got.addrs, vec!["192.168.1.11".to_string(), "10.100.0.1".to_string()]);
    assert_eq!(got.addr_tags.get("192.168.1.11"), Some(&vec!["lan".to_string()]));
    assert!(got.addr_tags.get("10.100.0.1").is_none());
    assert_eq!(got.addr_ifaces.len(), 0);
    // With nothing but nonsense the interfaces decide.
    let got = announced_addrs(&opts("eno1=lan", "nonsense"), &rows());
    assert_eq!(got.addrs, vec!["192.168.1.70".to_string()]);
    assert_eq!(got.addr_ifaces.get("192.168.1.70"), Some(&"eno1".to_string()));
    assert_eq!(got.addr_tags.get("192.168.1.70"), Some(&vec!["lan".to_string()]));
}

#[test]
fn this_box_lists_its_own_addresses() {
    assert_eq!(all_local_addrs(), addrs_up(&interface_rows()));
    assert_eq!(
        addrs_up(&rows()),
        vec!["127.0.0.1", "192.168.1.70", "10.100.0.1", "172.17.0.1"]
    );
    let named = opts("", "10.1.2.3=lan");
    assert_eq!(local_addrs(&named), vec!["10.1.2.3".to_string()]);
    assert_eq!(local_addr_ifaces(&named).len(), 0);
    assert_eq!(local_addr_tags(&named).get("10.1.2.3"), Some(&vec!["lan".to_string()]));
    assert!(!local_addrs(&opts("", "")).contains(&"127.0.0.1".to_string()));
}

#[test]
fn the_settings_read() {
    assert_eq!(announce_port(&None), DEFAULT_PORT);
    assert_eq!(announce_port(&Some(" 7000 ".into())), 7000);
    assert_eq!(announce_port(&Some("0".into())), 0);
    assert_eq!(announce_port(&Some("70000".into())), DEFAULT_PORT);
    assert_eq!(
        extra_targets("a, b:9 ,,c", 6382),
        vec!["a:6382".to_string(), "b:9".to_string(), "c:6382".to_string()]
    );
    assert!(sendable(1400));
    assert!(!sendable(1401));
}

fn daemon() -> State {
    State::new("10.0.0.1", "box", "10.0.0.1:6379", 6380)
}

#[test]
fn an_announcement_is_dialled_once() {
    let st = daemon();
    let other = State::new("10.0.0.2", "box2", "10.0.0.2:6379", 6380);
    let local = announced_addrs(&opts("", "10.0.0.2"), &rows());
    let doc = announcement(&other, &local, "default", "boot1", 4, 1000);
    assert_eq!(doc.text_at("http"), Some("10.0.0.2:6380"));
    assert_eq!(doc.uint_at("seq"), Some(4));
    let mut seen = Dict::new();
    match listen(&st, &mut seen, &doc, 1010, 30) {
        Heard::Dial { control } => assert_eq!(control, "10.0.0.2:6379"),
        other => panic!("{other:?}"),
    }
    // The same one again, and an older one of the same boot.
    assert!(matches!(listen(&st, &mut seen, &doc, 1010, 30), Heard::Dropped));
    let old = announcement(&other, &local, "default", "boot1", 3, 1010);
    assert!(matches!(listen(&st, &mut seen, &old, 1010, 30), Heard::Dropped));
    // A restart numbers from the start again.
    let again = announcement(&other, &local, "default", "boot2", 0, 1010);
    assert!(matches!(listen(&st, &mut seen, &again, 1010, 30), Heard::Dial { .. }));
}

#[test]
fn what_says_nothing_new_is_dropped() {
    let st = daemon();
    let local = announced_addrs(&opts("", "10.0.0.2"), &rows());
    let mut seen = Dict::new();
    // Its own broadcast.
    let own = announcement(&st, &local, "default", "b", 1, 1000);
    assert!(matches!(listen(&st, &mut seen, &own, 1000, 30), Heard::Dropped));
    // A drifted clock.
    let other = State::new("10.0.0.2", "box2", "10.0.0.2:6379", 6380);
    let late = announcement(&other, &local, "default", "b", 1, 2000);
    assert!(matches!(listen(&st, &mut seen, &late, 1000, 30), Heard::Dropped));
    assert_eq!(seen.len(), 0);
    // Another protocol.
    let mut d: Dict<Json> = Json::object();
    d.insert("proto".into(), Json::str("7.0"));
    match listen(&st, &mut seen, &Json::Obj(d), 1000, 30) {
        Heard::WrongProto { offered } => assert_eq!(offered, "7.0"),
        other => panic!("{other:?}"),
    }
}
