use mentat::daemon::mesh::same_box;

fn v(a: &[&str]) -> Vec<String> {
    a.iter().map(|s| s.to_string()).collect()
}

/// One box registered under one address and came back identifying by another.
/// Both entries carry the same address list, which is what says they are one
/// box.
#[test]
fn a_renumbered_node_matches_its_own_old_entry() {
    let arriving = v(&["192.168.1.93", "10.103.0.93"]);
    let old = v(&["192.168.1.93", "10.103.0.93"]);
    assert!(same_box(&arriving, &old));
}

#[test]
fn one_address_in_common_is_enough() {
    assert!(same_box(
        &v(&["192.168.1.93", "10.103.0.93"]),
        &v(&["192.168.1.93"])
    ));
}

#[test]
fn separate_boxes_do_not_match() {
    assert!(!same_box(
        &v(&["192.168.1.93", "10.103.0.93"]),
        &v(&["192.168.1.77", "10.100.0.2"])
    ));
}

/// Loopback is on every box, so two nodes that both list it are not thereby one
/// node.
#[test]
fn loopback_alone_identifies_nothing() {
    assert!(!same_box(
        &v(&["127.0.0.1", "10.103.0.93"]),
        &v(&["127.0.0.1"])
    ));
    assert!(!same_box(&v(&["::1"]), &v(&["::1", "10.100.0.2"])));
    // A real address alongside it still matches.
    assert!(same_box(
        &v(&["127.0.0.1", "10.103.0.93"]),
        &v(&["127.0.0.1", "10.103.0.93"])
    ));
}

#[test]
fn an_empty_list_matches_nothing() {
    assert!(!same_box(&v(&[]), &v(&["10.100.0.2"])));
    assert!(!same_box(&v(&["10.100.0.2"]), &v(&[])));
}
