use std::collections::BTreeSet;

use mentat::common::dict::Dict;
use mentat::daemon::claim::{solve, BetweenReq, Island, Link, Port, Request, SetReq, Topology};

fn port(addr: &str, iface: &str, tags: &[&str]) -> Port {
    Port {
        addr: addr.into(),
        iface: Some(iface.into()),
        tags: tags.iter().map(|t| t.to_string()).collect(),
    }
}

fn island(members: &[(&str, &str)]) -> Island {
    let mut addr: Dict<String> = Dict::new();
    for (n, a) in members {
        addr.insert(n.to_string(), a.to_string());
    }
    Island {
        nodes: members.iter().map(|(n, _)| n.to_string()).collect(),
        addr,
    }
}

/// Two cabled pairs on one LAN.
fn two_pairs() -> Topology {
    let mut t = Topology::new();
    let spec = [
        ("nA", "10.100.0.1", "192.168.1.70", "gx10-2353"),
        ("nB", "10.100.0.2", "192.168.1.77", "gx10-5818"),
        ("nC", "10.103.0.36", "192.168.1.36", "gx10-9722"),
        ("nD", "10.103.0.93", "192.168.1.93", "gx10-a7c3"),
    ];
    for (n, fab, lan, host) in spec {
        t.ports.insert(
            n.into(),
            vec![
                port(fab, "enp1s0f0np0", &["connectx", "rdma"]),
                port(lan, "eno1", &["lan"]),
            ],
        );
        t.free_gpus.insert(n.into(), 1);
        t.hosts.insert(n.into(), host.into());
    }
    // Fabric links inside each pair only.
    t.link("10.100.0.1".into(), "10.100.0.2".into(), 0);
    t.link("10.103.0.36".into(), "10.103.0.93".into(), 0);
    // The LAN reaches everything.
    let lan = [
        "192.168.1.70",
        "192.168.1.77",
        "192.168.1.36",
        "192.168.1.93",
    ];
    for a in lan {
        for b in lan {
            if a != b {
                t.link(a.into(), b.into(), 1);
            }
        }
    }
    t.islands = vec![
        island(&[("nA", "10.100.0.1"), ("nB", "10.100.0.2")]),
        island(&[("nC", "10.103.0.36"), ("nD", "10.103.0.93")]),
    ];
    t
}

fn req(sets: &[(&str, usize, Link)], between: &[(&str, &str, Link)]) -> Request {
    Request {
        sets: sets
            .iter()
            .map(|(n, k, l)| SetReq {
                name: n.to_string(),
                bundles: vec![1; *k],
                link: *l,
            })
            .collect(),
        between: between
            .iter()
            .map(|(f, t2, l)| BetweenReq {
                from: f.to_string(),
                to: t2.to_string(),
                link: *l,
            })
            .collect(),
    }
}

/// The request this exists for: two cabled pairs, IP between them.
#[test]
fn two_fabric_pairs_with_ip_between_them() {
    let t = two_pairs();
    let r = req(
        &[("tp0", 2, Link::Rdma), ("tp1", 2, Link::Rdma)],
        &[("tp0", "tp1", Link::Any)],
    );
    let s = solve(&t, &r).expect("should place");

    let nodes = |k: &str| {
        s.sets
            .get(k)
            .unwrap()
            .iter()
            .map(|m| m.node.clone())
            .collect::<BTreeSet<_>>()
    };
    assert_eq!(nodes("tp0"), ["nA", "nB"].map(String::from).into());
    assert_eq!(nodes("tp1"), ["nC", "nD"].map(String::from).into());

    // Each set binds its fabric, with the interface to bind it on.
    for m in s.sets.get("tp0").unwrap() {
        assert!(m.bind.tags.contains(&"rdma".to_string()), "{m:?}");
        assert_eq!(m.bind.iface.as_deref(), Some("enp1s0f0np0"));
    }
    // Between them, the LAN.
    assert_eq!(s.between.len(), 1);
    assert!(s.between[0].local.tags.contains(&"lan".to_string()));
    assert_eq!(s.between[0].local.iface.as_deref(), Some("eno1"));
}

/// Sets never share a node, or two ranks would collide on one box.
#[test]
fn sets_are_disjoint() {
    let t = two_pairs();
    let s = solve(&t, &req(&[("a", 2, Link::Rdma), ("b", 2, Link::Rdma)], &[])).unwrap();
    let a: BTreeSet<_> = s.sets.get("a").unwrap().iter().map(|m| &m.node).collect();
    let b: BTreeSet<_> = s.sets.get("b").unwrap().iter().map(|m| &m.node).collect();
    assert!(a.is_disjoint(&b));
}

/// A fabric requirement between two sets on separate fabrics cannot be met.
#[test]
fn a_fabric_between_separate_fabrics_is_refused() {
    let t = two_pairs();
    let r = req(
        &[("tp0", 2, Link::Rdma), ("tp1", 2, Link::Rdma)],
        &[("tp0", "tp1", Link::Rdma)],
    );
    assert!(solve(&t, &r).is_err());
}

/// Three nodes on one fabric when the biggest island holds two.
#[test]
fn a_set_larger_than_any_island_is_refused() {
    let t = two_pairs();
    let e = solve(&t, &req(&[("big", 3, Link::Rdma)], &[])).unwrap_err();
    assert!(e.contains("largest island has 2"), "{e}");
}

/// A node with its GPUs spoken for cannot take a rank, so the pair goes to the
/// other fabric rather than being placed short.
#[test]
fn a_full_node_sends_the_set_elsewhere() {
    let mut t = two_pairs();
    t.free_gpus.insert("nB".into(), 0);
    let s = solve(&t, &req(&[("tp0", 2, Link::Rdma)], &[])).unwrap();
    let got: BTreeSet<_> = s
        .sets
        .get("tp0")
        .unwrap()
        .iter()
        .map(|m| m.node.clone())
        .collect();
    assert_eq!(got, ["nC", "nD"].map(String::from).into());
}

/// A loose set placed first can take a node the cabled set needed, so the
/// constrained set goes first whatever order the caller wrote.
#[test]
fn a_constrained_set_is_placed_before_a_loose_one() {
    let mut t = two_pairs();
    for n in ["nC", "nD"] {
        t.free_gpus.remove(n);
        t.ports.remove(n);
    }
    t.islands.retain(|i| i.nodes.contains(&"nA".to_string()));
    t.ports
        .insert("n0".into(), vec![port("192.168.1.50", "eno1", &["lan"])]);
    t.free_gpus.insert("n0".into(), 1);
    t.hosts.insert("n0".into(), "gx10-spare".into());

    let s = solve(
        &t,
        &req(&[("loose", 1, Link::Any), ("cabled", 2, Link::Rdma)], &[]),
    )
    .expect("the cabled pair must not be broken up by the loose set");
    let cabled: BTreeSet<_> = s
        .sets
        .get("cabled")
        .unwrap()
        .iter()
        .map(|m| m.node.clone())
        .collect();
    assert_eq!(cabled, ["nA", "nB"].map(String::from).into());
    assert_eq!(s.sets.get("loose").unwrap()[0].node, "n0");
}

/// The same view answers the same way, or one name would mean two placements.
#[test]
fn the_answer_is_stable() {
    let t = two_pairs();
    let r = req(
        &[("tp0", 2, Link::Rdma), ("tp1", 2, Link::Rdma)],
        &[("tp0", "tp1", Link::Any)],
    );
    let first = solve(&t, &r).unwrap();
    for _ in 0..8 {
        assert_eq!(solve(&t, &r).unwrap(), first);
    }
}

#[test]
fn a_between_naming_no_set_is_refused() {
    let t = two_pairs();
    let r = req(&[("tp0", 2, Link::Rdma)], &[("tp0", "ghost", Link::Any)]);
    assert!(solve(&t, &r).unwrap_err().contains("ghost"));
}

#[test]
fn link_names() {
    assert_eq!(Link::parse("roce"), Ok(Link::Rdma));
    assert_eq!(Link::parse("rdma"), Ok(Link::Rdma));
    assert_eq!(Link::parse("ip"), Ok(Link::Any));
    assert!(Link::parse("carrier pigeon").is_err());
}

#[test]
fn sets_of_one_kind_are_placed_in_the_order_given() {
    let mut t = Topology::new();
    for (n, addr) in [("n1", "10.0.0.1"), ("n2", "10.0.0.2")] {
        t.ports.insert(
            n.into(),
            vec![Port {
                addr: addr.into(),
                iface: None,
                tags: Vec::new(),
            }],
        );
        t.free_gpus.insert(n.into(), 1);
    }
    let s = solve(&t, &req(&[("b", 1, Link::Any), ("a", 1, Link::Any)], &[])).unwrap();
    assert_eq!(s.sets.get("b").unwrap()[0].node, "n1");
    assert_eq!(s.sets.get("a").unwrap()[0].node, "n2");
}
