use mentat::common::ifaces::{interface_rows, IfaceRow};
use mentat::common::ip::{parse_ip, show_ip, Ip};
use mentat::serve::net::{local_nets, nets_of, on_local_net, Allow, Net};

fn net(s: &str) -> Net {
    Net::parse(s).unwrap()
}

fn ip(s: &str) -> Ip {
    parse_ip(s).unwrap()
}

/// 10.0.0.0/24 and 192.168.1.0/24, as a two-homed box would report them.
fn subnets() -> Vec<Net> {
    vec![net("10.0.0.0/24"), net("192.168.1.0/24")]
}

#[test]
fn a_prefix_length_masks_the_address() {
    let n = net("10.4.5.6/22");
    assert!(n.contains(ip("10.4.4.1")));
    assert!(n.contains(ip("10.4.7.255")));
    assert!(!n.contains(ip("10.4.8.1")));
    assert!(!n.contains(ip("10.5.4.1")));
}

#[test]
fn the_edge_prefix_lengths_hold() {
    assert!(net("0.0.0.0/0").contains(ip("203.0.113.7")));
    assert!(net("10.0.0.1").contains(ip("10.0.0.1")));
    assert!(!net("10.0.0.1").contains(ip("10.0.0.2")));
    assert!(net("::/0").contains(ip("2001:db8::1")));
    assert!(net("fd00::/8").contains(ip("fd12::9")));
    assert!(!net("fd00::/8").contains(ip("fe80::1")));
}

/// The two families share one integer width, so a v4 address must not fall inside
/// a v6 network that happens to hold the same low bits.
#[test]
fn a_network_matches_its_own_family_only() {
    assert!(!net("::/0").contains(ip("10.0.0.1")));
    assert!(!net("0.0.0.0/0").contains(ip("::1")));
}

/// The log line an operator reads back. A typo parses as a prefix, which matches
/// nothing, and reading it back says why.
#[test]
fn the_parse_reads_back() {
    assert_eq!(
        Allow::parse("local, 10.100.0.5/22, 172.").to_string(),
        "local,10.100.0.0/22,prefix:172."
    );
    assert_eq!(Allow::parse("lcoal").to_string(), "prefix:lcoal");
}

#[test]
fn nonsense_is_not_a_network() {
    assert!(Net::parse("10.0.0.0/33").is_err());
    assert!(Net::parse("10.0.0.0/x").is_err());
    assert!(Net::parse("10.0.0/22").is_err());
    assert!(Net::parse("not-an-ip").is_err());
}

/// The three forms mix.
#[test]
fn the_entry_forms_mix() {
    let a = Allow::parse("local, 10.100.0.0/22, 172.");
    let local = subnets();
    assert!(a.permits("10.0.0.7", &local), "local");
    assert!(a.permits("10.100.3.255", &local), "in the /22");
    assert!(!a.permits("10.100.4.1", &local), "past the /22");
    assert!(a.permits("172.17.0.2", &local), "text prefix");
    assert!(!a.permits("203.0.113.7", &local));
}

/// Without `local`, the interface list decides nothing.
#[test]
fn local_is_only_consulted_when_configured() {
    let a = Allow::parse("192.168.1.0/24");
    assert!(!a.permits("10.0.0.7", &subnets()));
    assert!(a.permits("192.168.1.13", &subnets()));
}

/// Loopback as the kernel lists it.
fn loopback_row() -> IfaceRow {
    IfaceRow {
        name: "lo".into(),
        v4: true,
        addr: Some("127.0.0.1".into()),
        mask: Some("255.0.0.0".into()),
        far: None,
        up: true,
        loopback: true,
        broadcasts: false,
    }
}

/// Whether this box has an address on loopback: an empty network namespace has
/// none.
fn has_loopback() -> bool {
    interface_rows()
        .iter()
        .any(|r| r.addr.as_deref() == Some("127.0.0.1"))
}

/// The default is `local` alone, so the interface list has to hold at least
/// loopback for a router to serve its own health check.
#[test]
fn the_default_allows_loopback() {
    let a = Allow::parse("local");
    let local = nets_of(&vec![loopback_row()]);
    assert!(a.permits("127.0.0.1", &local));
    assert!(!a.permits("203.0.113.7", &local));
    assert_eq!(a.permits_now("127.0.0.1"), has_loopback());
    assert!(!a.permits_now("203.0.113.7"));
}

/// `127.` is a prefix. Matching it as an address would allow nothing.
#[test]
fn a_text_prefix_still_matches_as_text() {
    let a = Allow::parse("127.,10.100.0.");
    assert!(a.permits("127.0.0.1", &vec![]));
    assert!(a.permits("10.100.0.2", &vec![]));
    assert!(!a.permits("10.100.1.2", &vec![]));
    // Only a prefix can match a name, and this one does not.
    assert!(!a.permits("some-host", &vec![]));
}

#[test]
fn subnet_membership() {
    let s = subnets();
    assert!(on_local_net("10.0.0.7", &s));
    assert!(on_local_net("192.168.1.13", &s));
    assert!(!on_local_net("10.100.0.1", &s));
    assert!(!on_local_net("not-an-ip", &s));
}

/// An advertised address is a claim. Without the allowlist check on the
/// candidates, an announcement naming any host would have this process connect
/// to it.
#[test]
fn an_advertised_address_is_still_a_claim() {
    let allowed = Allow::parse("127.0.0.0/8");
    assert!(allowed.permits("127.0.0.1", &vec![]));
    assert!(!allowed.permits("192.168.1.109", &vec![]));
    assert!(!allowed.permits("203.0.113.7", &vec![]));
}

#[test]
fn addresses_read_as_numbers() {
    assert_eq!(parse_ip("10.0.0.1"), Some(Ip::V4(0x0a00_0001)));
    assert_eq!(parse_ip("255.255.255.255"), Some(Ip::V4(0xffff_ffff)));
    assert_eq!(parse_ip("::1"), Some(Ip::V6(1)));
    assert_eq!(parse_ip("::"), Some(Ip::V6(0)));
    assert_eq!(
        parse_ip("1:2:3:4:5:6:7:8"),
        Some(Ip::V6(0x0001_0002_0003_0004_0005_0006_0007_0008))
    );
    assert_eq!(
        parse_ip("fe80::1.2.3.4"),
        Some(Ip::V6(0xfe80_0000_0000_0000_0000_0000_0102_0304))
    );
}

#[test]
fn what_is_no_address_does_not_read() {
    for s in [
        "", "1.2.3", "1.2.3.4.5", "256.0.0.1", "01.2.3.4", "1.2.3.4 ", "a.b.c.d", ":::", "1::2::3",
        "12345::", "1:2:3:4:5:6:7", "1:2:3:4:5:6:7:8:9", "1:2:3:4:5:6:7:8::", "g::1", ":1", "1:",
    ] {
        assert_eq!(parse_ip(s), None, "{s:?}");
    }
}

/// What was read is written back in its shortest form.
#[test]
fn addresses_are_written_in_their_shortest_form() {
    for (s, want) in [
        ("0.0.0.0", "0.0.0.0"),
        ("10.4.5.6", "10.4.5.6"),
        ("::", "::"),
        ("0:0::0", "::"),
        ("0:0:0:0:0:0:0:1", "::1"),
        ("fd00:0:0::", "fd00::"),
        ("2001:0db8::0001", "2001:db8::1"),
        ("1:0:0:2:0:0:0:3", "1:0:0:2::3"),
        ("1:0:0:2:3:0:0:4", "1::2:3:0:0:4"),
        ("1:0:2:3:4:5:6:7", "1:0:2:3:4:5:6:7"),
        ("::ffff:10.0.0.1", "::ffff:10.0.0.1"),
        ("::10.0.0.1", "::a00:1"),
        ("1:2:3:4:5:6:1.2.3.4", "1:2:3:4:5:6:102:304"),
        ("ABCD::ef", "abcd::ef"),
        ("1:2:3:4:5:6:7::", "1:2:3:4:5:6:7:0"),
        ("::2:3:4:5:6:7:8", "0:2:3:4:5:6:7:8"),
    ] {
        assert_eq!(show_ip(ip(s)), want, "{s}");
    }
}

#[test]
fn networks_read_back_with_their_length() {
    assert_eq!(net("10.4.5.6/22").to_string(), "10.4.4.0/22");
    assert_eq!(net("10.4.5.6").to_string(), "10.4.5.6/32");
    assert_eq!(net("0.0.0.0/0").to_string(), "0.0.0.0/0");
    assert_eq!(net("fd12:3456::9/16").to_string(), "fd12::/16");
    assert_eq!(net("::1").to_string(), "::1/128");
}

/// A network holds what shares its first bits.
#[test]
fn a_network_is_its_prefix() {
    let n = Net::new(ip("10.4.5.6"), 22);
    assert_eq!(n, net("10.4.4.0/22"));
    assert_eq!(Net::masked(ip("10.4.5.6"), ip("255.255.252.0")), n);
    assert_eq!(Net::new(ip("10.0.0.1"), 99), net("10.0.0.1/32"), "clamped");
}

#[test]
fn this_box_has_the_networks_of_its_interfaces() {
    let local = local_nets();
    assert_eq!(local, nets_of(&interface_rows()));
    assert_eq!(on_local_net("127.0.0.1", &local), has_loopback());
    assert!(!on_local_net("203.0.113.7", &local));
}

#[test]
fn a_row_without_a_mask_is_no_network() {
    let bare = IfaceRow {
        mask: None,
        ..loopback_row()
    };
    let mixed = IfaceRow {
        mask: Some("ffff::".into()),
        ..loopback_row()
    };
    assert!(nets_of(&vec![bare, mixed]).is_empty());
    assert_eq!(nets_of(&vec![loopback_row()]), vec![net("127.0.0.0/8")]);
}
