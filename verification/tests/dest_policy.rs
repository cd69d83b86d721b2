use swifttunnel_relay::addr::Ipv4Addr;
use swifttunnel_relay::dest_policy::{
    allowlist_path, built_in_roblox, default_tcp_ports, parse_allowlist, parse_ports, protocol_name,
    DestPolicy, Mode, Net, NetSet, SAMPLE_CAP, SNAPSHOT_TOP,
};

/// Roblox's main range for both protocols, and a CloudFront range for TCP.
const FILE: &str = "128.116.0.0/17\ntcp 13.32.0.0/15\n";

fn ip(a: u8, b: u8, c: u8, d: u8) -> Ipv4Addr {
    Ipv4Addr::new(a, b, c, d)
}

fn policy(mode: Mode, file: &str) -> DestPolicy {
    let mut policy = DestPolicy::build(
        mode,
        Some(("test".to_string(), Ok(file.to_string()))),
        default_tcp_ports(),
    );
    policy.sample_every = 1;
    policy
}

#[test]
fn prefixes_parse_and_nonsense_does_not() {
    let net = Net::parse("128.116.0.0/17").unwrap();
    assert_eq!(net.mask.count_ones(), 17);
    // Host bits are cleared rather than rejected.
    assert_eq!(Net::parse("128.116.9.9/17"), Some(net));
    for bad in [
        "128.116.0.0",
        "128.116.0.0/33",
        "abc/24",
        "1.2.3/24",
        "10.0.0.0/7",
        "0.0.0.0/0",
        "",
    ] {
        assert!(Net::parse(bad).is_none(), "{bad:?} should not parse");
    }
}

#[test]
fn addresses_in_prefixes_are_strict() {
    assert!(Net::parse("01.2.3.4/24").is_none());
    assert!(Net::parse("1.2.3.256/24").is_none());
    assert!(Net::parse("+1.2.3.4/24").is_none());
    assert!(Net::parse("1.2.3.4.5/24").is_none());
    assert!(Net::parse("1.2.3.4/").is_none());
    assert!(Net::parse("1.2.3.4/24/3").is_none());
    assert_eq!(
        Net::parse(" 1.2.3.4/+24\n"),
        Some(Net { base: 0x0102_0300, mask: 0xFFFF_FF00 })
    );
}

#[test]
fn every_built_in_prefix_parses() {
    for cidr in built_in_roblox() {
        assert!(Net::parse(cidr).is_some(), "{cidr}");
    }
    assert_eq!(built_in_roblox().len(), 13);
}

#[test]
fn covered_prefixes_collapse_and_edges_are_exact() {
    let set = NetSet::new(
        [
            "128.116.0.0/24",
            "128.116.0.0/17",
            "128.116.95.0/24",
            "204.13.168.0/24",
        ]
        .iter()
        .filter_map(|cidr| Net::parse(cidr))
        .collect(),
    );
    assert_eq!(set.len(), 2);
    assert!(set.contains(ip(128, 116, 0, 0)));
    assert!(set.contains(ip(128, 116, 127, 255)));
    assert!(!set.contains(ip(128, 116, 128, 0)));
    assert!(!set.contains(ip(128, 115, 255, 255)));
    assert!(set.contains(ip(204, 13, 168, 77)));
    assert!(!set.contains(ip(204, 13, 169, 0)));
    assert!(!NetSet::default().contains(ip(128, 116, 0, 1)));
}

#[test]
fn built_in_list_covers_roblox_and_nothing_else() {
    let policy = DestPolicy::build(Mode::Observe, None, default_tcp_ports());
    assert_eq!(policy.source, "built-in");
    assert!(policy.udp.contains(ip(128, 116, 50, 10)));
    assert!(policy.udp.contains(ip(204, 13, 170, 5)));
    assert!(policy.udp.contains(ip(103, 140, 29, 1)));
    assert!(!policy.udp.contains(ip(1, 1, 1, 1)));
    // The client still lists this, but nobody announces it.
    assert!(!policy.udp.contains(ip(209, 206, 40, 1)));
    assert!(policy.describe().contains("observe (built-in list"));
    assert_eq!(
        policy.describe(),
        "Destination policy: observe (built-in list, 13 UDP and 13 TCP networks, TCP ports [80, 443]; env RELAY_DEST_POLICY_MODE)"
    );
}

#[test]
fn observe_counts_unlisted_traffic_and_forwards_all_of_it() {
    let mut policy = policy(Mode::Observe, FILE);
    assert!(policy.permits(17, ip(1, 1, 1, 1), Some(5000)));
    assert!(policy.permits(6, ip(128, 116, 1, 1), Some(8080)));
    assert!(policy.permits(17, ip(128, 116, 1, 1), Some(55000)));

    let snapshot = policy.snapshot();
    assert_eq!(snapshot.mode, "observe");
    assert_eq!(snapshot.counters.udp_unlisted, 1);
    assert_eq!(snapshot.counters.tcp_unlisted_port, 1);
    assert_eq!(snapshot.counters.dropped, 0);
    assert_eq!(snapshot.networks[0].network, "1.1.1.0/24");
    assert_eq!(snapshot.ports[0].port, 8080);
}

#[test]
fn enforce_drops_what_observe_would_have_counted() {
    let mut policy = policy(Mode::Enforce, FILE);
    assert_eq!(policy.mode, Mode::Enforce);
    // Gameplay and the web front doors pass.
    assert!(policy.permits(17, ip(128, 116, 50, 10), Some(55000)));
    assert!(policy.permits(6, ip(128, 116, 50, 10), Some(443)));
    assert!(policy.permits(6, ip(13, 32, 1, 1), Some(443)));
    // A home connection does not, by either protocol.
    assert!(!policy.permits(17, ip(1, 1, 1, 1), Some(5000)));
    assert!(!policy.permits(6, ip(1, 1, 1, 1), Some(443)));
    // CloudFront is listed for TCP only.
    assert!(!policy.permits(17, ip(13, 32, 1, 1), Some(443)));
    // A listed network, but not a web port.
    assert!(!policy.permits(6, ip(128, 116, 50, 10), Some(22)));
    // Fragments carry no port, so the network decides.
    assert!(policy.permits(17, ip(128, 116, 50, 10), None));
    assert!(!policy.permits(17, ip(1, 1, 1, 1), None));
    assert_eq!(policy.snapshot().counters.dropped, 5);
}

#[test]
fn off_forwards_everything_and_records_nothing() {
    let mut policy = policy(Mode::Off, FILE);
    assert!(policy.permits(17, ip(1, 1, 1, 1), Some(5000)));
    assert_eq!(policy.snapshot().counters.udp_unlisted, 0);
}

#[test]
fn enforce_without_a_usable_file_observes_instead() {
    // The built-in list has no CloudFront, so enforcing it would cut Route
    // Assist. Asking for enforce without a file must not do that.
    let mut no_file = DestPolicy::build(Mode::Enforce, None, default_tcp_ports());
    assert_eq!(no_file.mode, Mode::Observe);
    assert!(no_file.enforce_refused.is_some());
    assert!(no_file.permits(17, ip(1, 1, 1, 1), Some(5000)));

    let unreadable = DestPolicy::build(
        Mode::Enforce,
        Some(("missing".to_string(), Err("entity not found".to_string()))),
        default_tcp_ports(),
    );
    assert_eq!(unreadable.mode, Mode::Observe);
    assert_eq!(unreadable.source, "built-in");
    assert_eq!(
        unreadable.notes,
        vec!["cannot read missing: entity not found; using the built-in list"]
    );

    // UDP prefixes alone would leave TCP with nothing and drop all of it.
    let one_sided = DestPolicy::build(
        Mode::Enforce,
        Some((
            "udp-only".to_string(),
            Ok("udp 128.116.0.0/17\n".to_string()),
        )),
        default_tcp_ports(),
    );
    assert_eq!(one_sided.mode, Mode::Observe);
    assert_eq!(one_sided.notes.len(), 1);
    assert_eq!(
        one_sided.notes[0],
        "udp-only needs prefixes for both UDP and TCP; using the built-in list"
    );
}

#[test]
fn unreadable_lines_are_noted() {
    let policy = DestPolicy::build(
        Mode::Enforce,
        Some(("list".to_string(), Ok("1.2.3.0/24\nnonsense\nudp x\n".to_string()))),
        default_tcp_ports(),
    );
    assert_eq!(policy.mode, Mode::Enforce);
    assert_eq!(policy.notes, vec!["list: skipped 2 unreadable lines"]);
    assert!(policy.enforce_refused.is_none());
    let snapshot = policy.snapshot();
    assert_eq!(snapshot.source, "list");
    assert_eq!(snapshot.udp_networks, 1);
    assert_eq!(snapshot.tcp_networks, 1);
    assert_eq!(snapshot.tcp_ports, vec![80, 443]);
    assert_eq!(snapshot.notes.len(), 1);
    assert_eq!(snapshot.sample_every, 16);
}

#[test]
fn allowlist_lines_choose_their_protocol() {
    let list = parse_allowlist(
        "# header\n128.116.0.0/17\nudp 103.140.28.0/23\ntcp 13.32.0.0/15  # CloudFront\n\nicmp 1.2.3.0/24\nnot a prefix\n",
    );
    assert_eq!(list.udp.len(), 2);
    assert_eq!(list.tcp.len(), 2);
    assert_eq!(list.invalid_lines, 2);
}

#[test]
fn allowlist_lines_may_end_in_carriage_returns() {
    let list = parse_allowlist("1.2.3.0/24\r\n\r\nudp 5.6.7.0/24\r\n#x\r");
    assert_eq!(list.udp.len(), 2);
    assert_eq!(list.tcp.len(), 1);
    assert_eq!(list.invalid_lines, 0);
}

#[test]
fn modes_and_ports_parse_conservatively() {
    assert_eq!(Mode::parse(None), Mode::Observe);
    assert_eq!(Mode::parse(Some(" Enforce ")), Mode::Enforce);
    assert_eq!(Mode::parse(Some("off")), Mode::Off);
    // A typo must never start dropping traffic.
    assert_eq!(Mode::parse(Some("enforced")), Mode::Observe);

    assert_eq!(parse_ports(None), vec![80, 443]);
    assert_eq!(parse_ports(Some("443, 8443")), vec![443, 8443]);
    assert_eq!(parse_ports(Some("nonsense,0")), vec![80, 443]);
}

#[test]
fn the_unlisted_sample_stays_bounded() {
    let mut policy = policy(Mode::Observe, FILE);
    let extra = 50u32;
    for n in 0..(SAMPLE_CAP as u32 + extra) {
        let dst = Ipv4Addr::from_bits(ip(1, 0, 0, 0).to_bits() + (n << 8));
        policy.permits(17, dst, Some(5000));
    }
    let snapshot = policy.snapshot();
    assert_eq!(
        snapshot.counters.udp_unlisted,
        SAMPLE_CAP as u64 + u64::from(extra)
    );
    assert_eq!(snapshot.overflow, u64::from(extra));
    assert_eq!(snapshot.networks.len(), SNAPSHOT_TOP);
}

#[test]
fn one_unlisted_packet_in_sixteen_is_sampled() {
    let mut policy = DestPolicy::build(
        Mode::Observe,
        Some(("test".to_string(), Ok(FILE.to_string()))),
        default_tcp_ports(),
    );
    for _ in 0..33 {
        policy.permits(6, ip(9, 9, 9, 9), Some(443));
    }
    let snapshot = policy.snapshot();
    assert_eq!(snapshot.counters.tcp_unlisted_network, 33);
    assert_eq!(snapshot.networks.len(), 1);
    assert_eq!(snapshot.networks[0].samples, 3);
    assert_eq!(snapshot.networks[0].protocol, 6);
}

#[test]
fn snapshots_list_the_busiest_first() {
    let mut policy = policy(Mode::Observe, FILE);
    for (last, times) in [(1u8, 2), (2, 5), (3, 2)] {
        for _ in 0..times {
            policy.permits(17, ip(9, 9, last, 200), None);
        }
    }
    let networks: Vec<String> = policy
        .snapshot()
        .networks
        .iter()
        .map(|n| n.network.clone())
        .collect();
    assert_eq!(networks, vec!["9.9.2.0/24", "9.9.3.0/24", "9.9.1.0/24"]);
}

#[test]
fn protocols_with_names_have_them() {
    assert_eq!(protocol_name(6), Some("tcp"));
    assert_eq!(protocol_name(17), Some("udp"));
    assert_eq!(protocol_name(1), None);
}

#[test]
fn allowlist_paths_are_trimmed() {
    assert_eq!(allowlist_path(Some("  /etc/list \n")), Some("/etc/list".to_string()));
    assert_eq!(allowlist_path(Some("   ")), None);
    assert_eq!(allowlist_path(None), None);
}
