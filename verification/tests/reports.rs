use serde_json::Value;
use swifttunnel_relay::addr::{IpAddr, Ipv4Addr, SocketAddr};
use swifttunnel_relay::auth::{RelayAuthConfig, RelayAuthMode, SessionAuthState};
use swifttunnel_relay::config::{
    build_runtime_config, handle_cli_args, health_port, is_switched_on,
    parse_flow_channel_capacity, parse_port, usable_token, CliRequest, RelayDatapath,
    RelayRuntimeConfig, RelayV2Tuning, SocketBufferSizes, DEFAULT_FLOW_CHANNEL_CAPACITY,
    DEFAULT_HEALTH_PORT, DEFAULT_PORT, DEFAULT_STATS_PORT, MAX_FLOW_CHANNEL_CAPACITY,
    MIN_FLOW_CHANNEL_CAPACITY,
};
use swifttunnel_relay::connections::{
    empty_connections_payload, escape_json, render_connections_payload,
};
use swifttunnel_relay::endpoint::push_endpoint;
use swifttunnel_relay::flow_handler::{
    is_transient_recv_error, is_transient_send_error, IoErrorKind,
};
use swifttunnel_relay::http::{
    find_http_header_end, health_exchange, http_response, http_step, route, Answer, HttpStep,
    ReadEvent, MAX_HTTP_REQUEST_SIZE,
};
use swifttunnel_relay::session::{SessionEntry, SessionTable};
use swifttunnel_relay::stats::{record_session_ingress, DropReason, Stats, TrafficTable};
use swifttunnel_relay::stats_api::{stats_report, StatsRateWindow};

const SECOND: u64 = 1_000_000_000;
const NOW_UNIX: u64 = 1_739_790_000;

fn endpoint(a: u8, b: u8, c: u8, d: u8, port: u16) -> SocketAddr {
    SocketAddr { ip: IpAddr::V4(Ipv4Addr::new(a, b, c, d)), port }
}

fn session(user: &str, auth_state: SessionAuthState, client_addr: SocketAddr, at: u64) -> SessionEntry {
    SessionEntry {
        user_id: user.to_string(),
        auth_state,
        lease_expires_at_unix: None,
        client_addr,
        created_at_unix: at,
        last_activity: 0,
        last_activity_unix: at,
    }
}

fn connections(sessions: &SessionTable, traffic: &TrafficTable) -> Vec<Value> {
    let payload = render_connections_payload(sessions, traffic, NOW_UNIX);
    let parsed: Value = serde_json::from_str(&payload).unwrap();
    assert_eq!(parsed["timestamp"], NOW_UNIX);
    parsed["connections"].as_array().unwrap().clone()
}

fn test_runtime_config() -> RelayRuntimeConfig {
    let auth = RelayAuthConfig { mode: RelayAuthMode::Off, public_key: None, server_id: None };
    let buffers = SocketBufferSizes {
        requested_rcvbuf_bytes: 4 * 1024 * 1024,
        requested_sndbuf_bytes: 4 * 1024 * 1024,
        effective_rcvbuf_bytes: 4 * 1024 * 1024,
        effective_sndbuf_bytes: 4 * 1024 * 1024,
    };
    let tuning = RelayV2Tuning {
        shard_count: 1,
        pool_slots: 8192,
        shard_queue_cap: 4096,
        tx_queue_cap: 8192,
        socket_rcvbuf_bytes: 4 * 1024 * 1024,
        socket_sndbuf_bytes: 4 * 1024 * 1024,
        flow_rcvbuf_bytes: 2 * 1024 * 1024,
        flow_sndbuf_bytes: 2 * 1024 * 1024,
    };
    build_runtime_config(
        "1.2.3",
        RelayDatapath::V2,
        DEFAULT_PORT,
        DEFAULT_STATS_PORT,
        &auth,
        false,
        false,
        buffers,
        DEFAULT_FLOW_CHANNEL_CAPACITY,
        tuning,
    )
}

#[test]
fn test_transient_recv_would_block() {
    assert!(is_transient_recv_error(IoErrorKind::WouldBlock));
}

#[test]
fn test_transient_recv_timed_out() {
    assert!(is_transient_recv_error(IoErrorKind::TimedOut));
}

#[test]
fn test_transient_recv_interrupted() {
    assert!(is_transient_recv_error(IoErrorKind::Interrupted));
}

#[test]
fn test_transient_recv_connection_reset() {
    assert!(is_transient_recv_error(IoErrorKind::ConnectionReset));
}

#[test]
fn test_transient_recv_permission_denied_not_transient() {
    assert!(!is_transient_recv_error(IoErrorKind::PermissionDenied));
}

#[test]
fn test_transient_recv_other_not_transient() {
    assert!(!is_transient_recv_error(IoErrorKind::Other));
}

#[test]
fn test_transient_send_would_block() {
    assert!(is_transient_send_error(IoErrorKind::WouldBlock));
}

#[test]
fn test_transient_send_timed_out() {
    assert!(is_transient_send_error(IoErrorKind::TimedOut));
}

#[test]
fn test_transient_send_interrupted() {
    assert!(is_transient_send_error(IoErrorKind::Interrupted));
}

#[test]
fn test_transient_send_connection_reset_not_transient() {
    assert!(!is_transient_send_error(IoErrorKind::ConnectionReset));
}

#[test]
fn test_transient_send_other_not_transient() {
    assert!(!is_transient_send_error(IoErrorKind::Other));
}

#[test]
fn test_find_http_header_end_found() {
    let buf = b"GET / HTTP/1.1\r\n\r\n";
    assert_eq!(find_http_header_end(buf), Some(18));
}

#[test]
fn test_find_http_header_end_not_found() {
    let buf = b"GET / HTTP/1.1\r\n";
    assert_eq!(find_http_header_end(buf), None);
}

#[test]
fn test_find_http_header_end_empty() {
    let buf: &[u8] = b"";
    assert_eq!(find_http_header_end(buf), None);
}

#[test]
fn test_find_http_header_end_partial_crlf() {
    let buf = b"GET /\r\n";
    assert_eq!(find_http_header_end(buf), None);
}

#[test]
fn test_escape_json_quote() {
    assert_eq!(escape_json("he\"llo"), "he\\\"llo");
}

#[test]
fn test_escape_json_backslash() {
    assert_eq!(escape_json("he\\llo"), "he\\\\llo");
}

#[test]
fn test_escape_json_newline() {
    assert_eq!(escape_json("he\nllo"), "he\\nllo");
}

#[test]
fn test_escape_json_return() {
    assert_eq!(escape_json("he\rllo"), "he\\rllo");
}

#[test]
fn test_escape_json_tab() {
    assert_eq!(escape_json("he\tllo"), "he\\tllo");
}

#[test]
fn test_escape_json_normal_text() {
    assert_eq!(escape_json("hello world"), "hello world");
}

#[test]
fn test_escape_json_empty() {
    assert_eq!(escape_json(""), "");
}

#[test]
fn test_parse_flow_channel_capacity_defaults_and_clamps() {
    assert_eq!(
        parse_flow_channel_capacity(None),
        DEFAULT_FLOW_CHANNEL_CAPACITY
    );
    assert_eq!(
        parse_flow_channel_capacity(Some("2".to_string())),
        MIN_FLOW_CHANNEL_CAPACITY
    );
    assert_eq!(
        parse_flow_channel_capacity(Some("999999".to_string())),
        MAX_FLOW_CHANNEL_CAPACITY
    );
    assert_eq!(parse_flow_channel_capacity(Some("512".to_string())), 512);
}

#[test]
fn test_render_connections_empty() {
    assert!(connections(&SessionTable::new(), &TrafficTable::new()).is_empty());
    let parsed: Value = serde_json::from_str(&empty_connections_payload(NOW_UNIX)).unwrap();
    assert_eq!(parsed["connections"].as_array().unwrap().len(), 0);
}

#[test]
fn test_render_connections_single() {
    let mut sessions = SessionTable::new();
    sessions.put(
        42,
        session(
            "test-user",
            SessionAuthState::Authenticated,
            endpoint(1, 2, 3, 4, 5678),
            NOW_UNIX,
        ),
    );
    let mut traffic = TrafficTable::new();
    record_session_ingress(&mut traffic, 42, NOW_UNIX, 1000);
    traffic.record_egress(42, NOW_UNIX, 2000);
    traffic.record_rtt(42, 31_000);

    let conns = connections(&sessions, &traffic);
    assert_eq!(conns.len(), 1);
    assert_eq!(conns[0]["user_id"], "test-user");
    assert_eq!(conns[0]["auth_state"], "authenticated");
    assert_eq!(conns[0]["bytes_in"], 1000);
    assert_eq!(conns[0]["bytes_out"], 2000);
    assert_eq!(conns[0]["client_endpoint"], "1.2.3.4:5678");
}

#[test]
fn test_render_connections_sorted_by_last_activity_desc() {
    let mut sessions = SessionTable::new();
    sessions.put(
        1,
        session("older", SessionAuthState::Legacy, endpoint(1, 1, 1, 1, 1000), NOW_UNIX - 100),
    );
    sessions.put(
        2,
        session("newer", SessionAuthState::Legacy, endpoint(2, 2, 2, 2, 2000), NOW_UNIX),
    );
    let conns = connections(&sessions, &TrafficTable::new());
    assert_eq!(conns.len(), 2);
    // "newer" should come first (sorted by last_activity desc)
    assert_eq!(conns[0]["user_id"], "newer");
    assert_eq!(conns[1]["user_id"], "older");
}

#[test]
fn test_render_connections_json_escaping() {
    let mut sessions = SessionTable::new();
    sessions.put(
        1,
        session(
            "user\"with\\special\nchars",
            SessionAuthState::Legacy,
            endpoint(1, 1, 1, 1, 1000),
            NOW_UNIX,
        ),
    );
    let payload = render_connections_payload(&sessions, &TrafficTable::new(), NOW_UNIX);
    // The raw JSON string should have escaped characters
    assert!(payload.contains("user\\\"with\\\\special\\nchars"));
    // And it should be parseable as valid JSON
    let conns = connections(&sessions, &TrafficTable::new());
    assert_eq!(conns.len(), 1);
    assert_eq!(
        conns[0]["user_id"].as_str().unwrap(),
        "user\"with\\special\nchars"
    );
}

#[test]
fn test_render_stats_empty_sessions() {
    let report = stats_report(&Stats::new(), &StatsRateWindow::new(), 10, NOW_UNIX);
    assert_eq!(report.timestamp, NOW_UNIX);
    assert_eq!(report.active_users, 0);
    assert_eq!(report.active_sessions, 0);
}

#[test]
fn test_render_stats_with_sessions_uses_atomic_counts() {
    let mut stats = Stats::new();
    stats.active_sessions = 3;
    let report = stats_report(&stats, &StatsRateWindow::new(), 10, NOW_UNIX);
    // Users are not told apart here, so `active_users` mirrors sessions.
    assert_eq!(report.active_users, 3);
    assert_eq!(report.active_sessions, 3);
}

#[test]
fn rates_come_from_samples_at_least_a_second_apart() {
    let mut window = StatsRateWindow::new();
    assert!(window.sample(1_000, 2_000, SECOND).is_none());
    assert!(window.sample(4_000, 4_000, 2 * SECOND - 1).is_none());
    let sample = window.sample(5_000, 8_000, 3 * SECOND).unwrap();
    assert_eq!(sample.delta_in, 4_000);
    assert_eq!(sample.delta_out, 6_000);
    assert_eq!(sample.elapsed_ns, 2 * SECOND);
    window.set_rates(2_000, 3_000);
    let report = stats_report(&Stats::new(), &window, 10, NOW_UNIX);
    assert_eq!(report.inbound_bps, 2_000);
    assert_eq!(report.outbound_bps, 3_000);
    // Counters that ran backwards give no negative rate.
    let sample = window.sample(1, 9_000, 4 * SECOND).unwrap();
    assert_eq!((sample.delta_in, sample.delta_out), (0, 1_000));
}

#[test]
fn test_render_stats_includes_pool_exhausted_counter() {
    let report = stats_report(&Stats::new(), &StatsRateWindow::new(), 10, NOW_UNIX);
    assert_eq!(
        report.pool_exhausted, 0,
        "fresh context should report zero pool exhaustion events"
    );
}

#[test]
fn test_render_stats_pool_exhausted_reflects_counter_value() {
    let mut stats = Stats::new();
    stats.pool_exhausted = 17;
    let report = stats_report(&stats, &StatsRateWindow::new(), 10, NOW_UNIX);
    assert_eq!(report.pool_exhausted, 17);
}

#[test]
fn test_render_stats_includes_drop_reasons_and_config() {
    let mut stats = Stats::new();
    stats.drop_in(DropReason::Auth);
    stats.drop_in(DropReason::ForbiddenDst);
    stats.drop_in(DropReason::TcpDisabled);
    stats.drop_in(DropReason::StaleQueue);
    stats.drop_out(DropReason::TxQueue);

    let report = stats_report(&stats, &StatsRateWindow::new(), 2, NOW_UNIX);
    assert_eq!(report.dropped_in, 4);
    assert_eq!(report.dropped_out, 1);
    assert_eq!(report.dropped_pps, 2);
    assert_eq!(report.drops.auth, 1);
    assert_eq!(report.drops.forbidden_dst, 1);
    assert_eq!(report.drops.tcp_disabled, 1);
    assert_eq!(report.drops.stale_queue, 1);
    assert_eq!(report.drops.tx_queue, 1);
    assert_eq!(stats_report(&stats, &StatsRateWindow::new(), 0, NOW_UNIX).dropped_pps, 0);
    let config = test_runtime_config();
    assert_eq!(config.datapath, "v2");
    assert_eq!(config.version, "1.2.3");
}

#[test]
fn test_render_config_payload_includes_runtime_config() {
    let config = test_runtime_config();
    assert_eq!(config.auth_mode, "off");
    assert_eq!(config.v2.shard_count, 1);
    assert_eq!(config.v2.main_socket_rcvbuf_effective, 4_194_304);
    assert_eq!(config.flow_channel_capacity, 256);
}

fn first_step(request: &str) -> HttpStep {
    http_step(request.as_bytes(), ReadEvent::Data, "test-token")
}

fn answered(request: &str) -> Answer {
    match first_step(request) {
        HttpStep::Answer(answer) => answer,
        _ => panic!("no answer to {request:?}"),
    }
}

#[test]
fn reports_are_given_to_holders_of_the_token() {
    for (path, answer) in [
        ("/v1/stats", Answer::Stats),
        ("/v1/connections", Answer::Connections),
        ("/v1/config", Answer::Config),
        ("/v1/dest-policy", Answer::DestPolicy),
        ("/v1/unknown", Answer::NotFound),
    ] {
        let request =
            format!("GET {path} HTTP/1.1\r\nAuthorization: Bearer test-token\r\n\r\n");
        assert_eq!(answered(&request), answer);
    }
    assert_eq!(Answer::Stats.status(), (200, "OK"));
    assert_eq!(Answer::Stats.refusal(), None);
    assert_eq!(Answer::NotFound.status(), (404, "Not Found"));
}

#[test]
fn requests_without_the_token_are_refused() {
    for request in [
        "GET /v1/stats HTTP/1.1\r\n\r\n",
        "GET /v1/stats HTTP/1.1\r\nAuthorization: Bearer wrong-token\r\n\r\n",
        "GET /v1/stats HTTP/1.1\r\nAuthorization: bearer test-token\r\n\r\n",
        "GET /v1/unknown HTTP/1.1\r\nX-Authorization: Bearer test-token\r\n\r\n",
        "GET /v1/stats HTTP/1.1\r\nAuthorization: Bearer test-token\r\nauthorization: none\r\n\r\n",
    ] {
        assert_eq!(answered(request), Answer::Unauthorized);
    }
    assert_eq!(Answer::Unauthorized.status(), (401, "Unauthorized"));
    assert_eq!(Answer::Unauthorized.refusal(), Some("{\"error\":\"unauthorized\"}"));
    assert_eq!(
        route("GET /v1/stats HTTP/1.1\r\nAUTHORIZATION:   Bearer test-token \r\n\r\n", "test-token"),
        Answer::Stats
    );
}

#[test]
fn other_methods_and_broken_requests_are_refused() {
    assert_eq!(
        answered("POST /v1/stats HTTP/1.1\r\nAuthorization: Bearer test-token\r\n\r\n"),
        Answer::MethodNotAllowed
    );
    assert_eq!(Answer::MethodNotAllowed.status(), (405, "Method Not Allowed"));
    assert_eq!(answered("GET\r\n\r\n"), Answer::BadRequestLine);
    assert_eq!(Answer::BadRequestLine.status(), (400, "Bad Request"));
}

#[test]
fn requests_are_read_until_their_headers_end() {
    let token = "test-token";
    assert_eq!(http_step(b"", ReadEvent::Start, token), HttpStep::Read);
    assert_eq!(first_step("GET /v1/stats HTTP/1.1\r\n"), HttpStep::Read);
    // Nothing was asked, so nothing is answered.
    assert_eq!(http_step(b"", ReadEvent::End, token), HttpStep::Close);
    assert_eq!(
        http_step(b"GET /v1/stats", ReadEvent::End, token),
        HttpStep::Answer(Answer::IncompleteHeaders)
    );
    assert_eq!(
        http_step(b"GET /v1/stats", ReadEvent::TimedOut, token),
        HttpStep::Answer(Answer::Timeout)
    );
    let padding = vec![b'A'; MAX_HTTP_REQUEST_SIZE];
    assert_eq!(
        http_step(&padding, ReadEvent::Data, token),
        HttpStep::Answer(Answer::TooLarge)
    );
    assert_eq!(Answer::TooLarge.status(), (431, "Request Header Fields Too Large"));
    assert_eq!(Answer::Timeout.status(), (408, "Request Timeout"));
    assert_eq!(
        Answer::IncompleteHeaders.refusal(),
        Some("{\"error\":\"incomplete_request_headers\"}")
    );
}

#[test]
fn responses_carry_the_length_of_their_bodies() {
    assert_eq!(
        http_response(200, "OK", "{\"a\":\"\u{e9}\"}"),
        "HTTP/1.1 200 OK\r\nContent-Type: application/json\r\nContent-Length: 10\r\nConnection: close\r\n\r\n{\"a\":\"\u{e9}\"}"
    );
}

#[test]
fn health_requests_are_answered_with_the_server_name() {
    let ok = health_exchange(b"GET /health HTTP/1.1\r\n\r\n", Some("a\"b"), 12, "1.2.3");
    assert!(ok.starts_with("HTTP/1.1 200 OK\r\n"));
    assert!(ok.contains("Cache-Control: no-store"));
    assert!(ok.ends_with(
        "{\"status\":\"ok\",\"server_id\":\"a\\\"b\",\"uptime_seconds\":12,\"version\":\"1.2.3\"}"
    ));
    let named = health_exchange(b"GET /health", Some("\\\n\r\t\u{8}\u{c}\u{1}\u{1f}\u{7f}\u{e9}"), 0, "1");
    assert!(named
        .contains("\"server_id\":\"\\\\\\n\\r\\t\\b\\f\\u0001\\u001f\u{7f}\u{e9}\""));
    let no_name = health_exchange(b"GET /healthz", None, 0, "1.2.3");
    assert!(no_name.contains("\"server_id\":\"\""));
    // Bytes that are not UTF-8 are read as replacement characters.
    let broken = health_exchange(b"GET /heal\xFFth HTTP/1.1\r\n\r\n", None, 0, "1.2.3");
    assert!(broken.starts_with("HTTP/1.1 404 Not Found\r\n"));
    assert!(broken.ends_with("{\"error\":\"not found\"}"));
    let replaced = health_exchange(b"\xFF /health", None, 0, "1.2.3");
    assert!(replaced.starts_with("HTTP/1.1 200 OK\r\n"));
}

fn shown(addr: SocketAddr) -> String {
    let mut s = String::new();
    push_endpoint(&mut s, addr);
    s
}

#[test]
fn endpoints_are_written_as_usual() {
    assert_eq!(shown(endpoint(1, 20, 255, 0, 80)), "1.20.255.0:80");
    let six = |bits: u128| shown(SocketAddr { ip: IpAddr::V6(bits), port: 443 });
    assert_eq!(six(0), "[::]:443");
    assert_eq!(six(1), "[::1]:443");
    assert_eq!(six(0x2001_0db8_0000_0000_0000_0000_0000_0001), "[2001:db8::1]:443");
    assert_eq!(six(0x2001_0db8_0000_0001_0001_0001_0001_0001), "[2001:db8:0:1:1:1:1:1]:443");
    assert_eq!(six(0x0001_0000_0000_0002_0000_0000_0000_0003), "[1:0:0:2::3]:443");
    assert_eq!(six(0x0001_0000_0000_0002_0003_0000_0000_0004), "[1::2:3:0:0:4]:443");
    assert_eq!(six(0x0000_0000_0000_0000_0000_ffff_0102_0304), "[::ffff:1.2.3.4]:443");
    assert_eq!(six(u128::MAX), "[ffff:ffff:ffff:ffff:ffff:ffff:ffff:ffff]:443");
}

#[test]
fn other_settings_are_read() {
    assert_eq!(parse_port(None, 5), 5);
    assert_eq!(parse_port(Some("65535"), 5), 65535);
    assert_eq!(parse_port(Some("65536"), 5), 5);
    assert_eq!(parse_port(Some(""), 5), 5);
    assert_eq!(health_port(None), DEFAULT_HEALTH_PORT);
    assert_eq!(health_port(Some("0")), 0);
    assert!(is_switched_on(Some("TRUE")));
    assert!(is_switched_on(Some(" true\n")));
    assert!(!is_switched_on(Some("1")));
    assert!(!is_switched_on(Some("no")));
    assert!(!is_switched_on(None));
    assert_eq!(usable_token(None), None);
    assert_eq!(usable_token(Some("  ".to_string())), None);
    assert_eq!(usable_token(Some("abc".to_string())), Some("abc".to_string()));
    assert_eq!(handle_cli_args(None), CliRequest::Run);
    assert_eq!(handle_cli_args(Some("--version")), CliRequest::Version);
    assert_eq!(handle_cli_args(Some("-V")), CliRequest::Version);
    assert_eq!(handle_cli_args(Some("--help")), CliRequest::Help);
    assert_eq!(handle_cli_args(Some("-h")), CliRequest::Help);
    assert_eq!(handle_cli_args(Some("serve")), CliRequest::Unknown);
}
