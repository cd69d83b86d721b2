use swifttunnel_relay::addr::{IpAddr, Ipv4Addr};
use swifttunnel_relay::limits::SESSION_ID_LEN;
use swifttunnel_relay::resolve::{
    answer_ips, build_resolve_response, is_resolvable_roblox_host, parse_resolve_request,
    RESOLVE_MAX_HOSTS_PER_REQUEST, RESOLVE_REQUEST_FRAME_TYPE, RESOLVE_RESPONSE_FRAME_TYPE,
};

fn build_resolve_request_frame(
    session_id: &[u8; SESSION_ID_LEN],
    request_id: u16,
    hosts: &[&str],
) -> Vec<u8> {
    let mut f = Vec::new();
    f.extend_from_slice(session_id);
    f.push(RESOLVE_REQUEST_FRAME_TYPE);
    f.extend_from_slice(&request_id.to_be_bytes());
    f.push(hosts.len() as u8);
    for h in hosts {
        f.push(h.len() as u8);
        f.extend_from_slice(h.as_bytes());
    }
    f
}

#[test]
fn allowlist_only_accepts_roblox_hosts() {
    assert!(is_resolvable_roblox_host("roblox.com"));
    assert!(is_resolvable_roblox_host("clientsettings.roblox.com"));
    assert!(is_resolvable_roblox_host("c3.rbxcdn.com"));
    assert!(is_resolvable_roblox_host("roblox-api.arkoselabs.com"));
    assert!(is_resolvable_roblox_host("WWW.ROBLOX.COM"));
    assert!(!is_resolvable_roblox_host("evil.com"));
    assert!(!is_resolvable_roblox_host("roblox.com.evil.test"));
    assert!(!is_resolvable_roblox_host("notroblox.com"));
}

#[test]
fn parse_keeps_roblox_and_drops_others() {
    let sid = [9u8; SESSION_ID_LEN];
    let frame = build_resolve_request_frame(
        &sid,
        0x1234,
        &["clientsettings.roblox.com", "evil.com", "c0.rbxcdn.com"],
    );
    let (req_id, hosts) = parse_resolve_request(&frame, frame.len()).expect("valid frame");
    assert_eq!(req_id, 0x1234);
    assert_eq!(
        hosts,
        vec![
            "clientsettings.roblox.com".to_string(),
            "c0.rbxcdn.com".to_string()
        ]
    );
}

#[test]
fn parse_rejects_truncated_and_oversized() {
    let sid = [0u8; SESSION_ID_LEN];
    let mut frame = build_resolve_request_frame(&sid, 1, &["clientsettings.roblox.com"]);
    let truncated = &frame[..frame.len() - 5];
    assert!(parse_resolve_request(truncated, truncated.len()).is_none());
    frame[SESSION_ID_LEN + 3] = (RESOLVE_MAX_HOSTS_PER_REQUEST + 1) as u8;
    assert!(parse_resolve_request(&frame, frame.len()).is_none());
}

#[test]
fn build_response_lays_out_answers() {
    let sid = [3u8; SESSION_ID_LEN];
    let answers = vec![(
        "clientsettings.roblox.com".to_string(),
        vec![Ipv4Addr::new(1, 2, 3, 4), Ipv4Addr::new(5, 6, 7, 8)],
    )];
    let resp = build_resolve_response(&sid, 0xBEEF, &answers);
    assert_eq!(&resp[..SESSION_ID_LEN], &sid);
    assert_eq!(resp[SESSION_ID_LEN], RESOLVE_RESPONSE_FRAME_TYPE);
    assert_eq!(
        u16::from_be_bytes([resp[SESSION_ID_LEN + 1], resp[SESSION_ID_LEN + 2]]),
        0xBEEF
    );
    assert_eq!(resp[SESSION_ID_LEN + 3], 1, "answer count");
    let host_off = SESSION_ID_LEN + 4;
    let hlen = resp[host_off] as usize;
    assert_eq!(
        &resp[host_off + 1..host_off + 1 + hlen],
        b"clientsettings.roblox.com"
    );
    let ipc_off = host_off + 1 + hlen;
    assert_eq!(resp[ipc_off], 2, "ip count");
    assert_eq!(&resp[ipc_off + 1..ipc_off + 5], &[1, 2, 3, 4]);
    assert_eq!(&resp[ipc_off + 5..ipc_off + 9], &[5, 6, 7, 8]);
}

#[test]
fn host_names_keep_their_case() {
    let frame = build_resolve_request_frame(&[0; 8], 2, &["WWW.Roblox.COM"]);
    let parsed = parse_resolve_request(&frame, frame.len());
    assert_eq!(parsed, Some((2, vec!["WWW.Roblox.COM".to_string()])));
    assert!(!is_resolvable_roblox_host(""));
    assert!(!is_resolvable_roblox_host(".com"));
}

#[test]
fn requests_may_end_up_asking_for_nothing() {
    let frame = build_resolve_request_frame(&[0; 8], 2, &[]);
    assert_eq!(parse_resolve_request(&frame, frame.len()), Some((2, vec![])));
    let frame = build_resolve_request_frame(&[0; 8], 2, &["evil.com"]);
    assert_eq!(parse_resolve_request(&frame, frame.len()), Some((2, vec![])));
    assert_eq!(parse_resolve_request(&frame, 11), None);
    // A name that is not UTF-8, an empty one and one that is too long.
    let mut broken = build_resolve_request_frame(&[0; 8], 2, &["roblox.com"]);
    broken[13] = 0xFF;
    assert!(parse_resolve_request(&broken, broken.len()).is_none());
    let empty = build_resolve_request_frame(&[0; 8], 2, &[""]);
    assert!(parse_resolve_request(&empty, empty.len()).is_none());
    let name = "a".repeat(65);
    let long = build_resolve_request_frame(&[0; 8], 2, &[&name]);
    assert!(parse_resolve_request(&long, long.len()).is_none());
}

#[test]
fn answers_hold_four_addresses_without_repeats() {
    let found: Vec<IpAddr> = vec![
        IpAddr::V6(1),
        IpAddr::V4(Ipv4Addr::new(1, 1, 1, 1)),
        IpAddr::V6(3),
        IpAddr::V4(Ipv4Addr::new(1, 1, 1, 1)),
        IpAddr::V4(Ipv4Addr::new(2, 2, 2, 2)),
        IpAddr::V4(Ipv4Addr::new(3, 3, 3, 3)),
        IpAddr::V6(2),
        IpAddr::V4(Ipv4Addr::new(4, 4, 4, 4)),
        IpAddr::V4(Ipv4Addr::new(5, 5, 5, 5)),
    ];
    let kept = answer_ips(&found);
    assert_eq!(
        kept,
        vec![
            Ipv4Addr::new(1, 1, 1, 1),
            Ipv4Addr::new(2, 2, 2, 2),
            Ipv4Addr::new(3, 3, 3, 3),
            Ipv4Addr::new(4, 4, 4, 4),
        ]
    );
}

#[test]
fn requests_are_malformed_at_every_shorter_length() {
    let sid = [3u8; SESSION_ID_LEN];
    let frame =
        build_resolve_request_frame(&sid, 0xBEEF, &["Roblox.com.", "evil.com", "a.roblox.com"]);
    for len in 0..frame.len() {
        assert_eq!(parse_resolve_request(&frame, len), None);
    }
    assert_eq!(
        parse_resolve_request(&frame, frame.len()),
        Some((0xBEEF, vec!["Roblox.com.".to_string(), "a.roblox.com".to_string()]))
    );
}
