use mentat::common::proto::{accepts, major_matches, proto, PROTO};
use mentat::daemon::proto as daemon_proto;

#[test]
fn a_major_mismatch_is_refused() {
    assert!(major_matches(PROTO));
    assert!(major_matches("0.1"));
    assert!(!major_matches("nonsense"));
    assert!(!major_matches("1"));
    assert!(!major_matches("0.1.2"), "three parts");
    assert!(!major_matches("0abc.1"), "a major that is not digits");
    assert!(!major_matches("0."), "an empty minor");
    assert!(major_matches("00.1"), "leading zeros are the same number");
    assert!(!major_matches("2.0"), "a major this build knows nothing of");
}

/// Every link checks both ways, so 0.99 has to read 1.0 for a cluster to upgrade
/// in any order.
#[test]
fn the_cutover_pair_reads_both_ways() {
    assert!(major_matches("1.0"), "0.99 reads a 1.0 peer");
    assert!(major_matches("1.7"), "and any 1.x");
    assert!(accepts("1.0", "0.99"), "1.0 reads a 0.99 peer");
    assert!(!accepts("2.0", "1.0"), "the pair covers 0 and 1 alone");
}

#[test]
fn proto_a_major_mismatch_is_refused() {
    assert!(daemon_proto::major_matches(daemon_proto::PROTO));
    assert!(daemon_proto::major_matches("0.1"));
    assert!(!daemon_proto::major_matches("1.0"));
    assert!(!daemon_proto::major_matches("nonsense"));
    assert!(!daemon_proto::major_matches("1"));
}

#[test]
fn the_version_is_a_message_field() {
    assert_eq!(proto(), PROTO);
    assert_eq!(daemon_proto::proto(), daemon_proto::PROTO);
}
