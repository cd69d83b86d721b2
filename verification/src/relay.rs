//! What the relay does with a client's frame, from the socket to the decision.

use crate::addr::{session_key, Ipv4Addr, SocketAddr};
use crate::auth::{
    auth_ack, auth_ack_frame, hello_token, parse_auth_hello_token, shown_tickets_are_used_up, used_once,
    verifies,
    verify_relay_ticket_once, RelayAuthConfig, RelayAuthMode, RelayAuthVerifyError, RelayTicketClaims,
    RelayTicketReplayCache, ReplayView, SessionAuthState, TicketView, VerifiedRelayTicket,
    AUTH_ACK_AUTH_DISABLED, AUTH_ACK_OK, AUTH_ACK_OWNER_MISMATCH, AUTH_ACK_PROOF_REQUIRED,
};
use crate::bytes::{be32, be64};
use crate::config::RelayDatapath;
use crate::dest_policy::{dotted_text, push_dotted, DestPolicy, PolicyView};
use crate::frame::{
    classify, frames_are_told_by_length_and_type, kind_of, pong, pong_frame, reported_rtt, session_id_in,
    FrameKind,
};
use crate::limits::{MAX_SESSIONS_TOTAL, SESSION_ID_LEN};
use crate::num::{beyond, next};
use crate::packet::{
    forbidden_port, game_addr_of, is_forbidden_dst_port, malformed_packets_are_refused, packet_view,
    parse_ip_packet_full, OriginalPacketInfo, PacketView, ParsedPacket,
};
use crate::resolve::{parse_resolve_request, request_of};
use crate::rewrite::{IPPROTO_TCP, IPPROTO_UDP, IP_HEADER_MIN};
use crate::session::{
    authenticated_session_source_allowed, counts_match, default_user_id, derive_user_id,
    lemma_counts_close, lemma_counts_open, lemma_counts_rebind, room_for_session, session_auth_is_current, source_allowed,
    v1_session_capacity_available, SessionEntry, SessionTable, SessionView,
};
use crate::source::{
    count_in, decrement_source_session_count, increment_source_session_count, incremented, rebound,
    update_source_session_count_for_rebind,
    LimiterView, SourceLimitKind, SourceRateLimiter, SourceSessionCounts,
};
use crate::stats::{
    allow_source_event, egress, egress_counts_for_its_session, idle_egress, ingress,
    ingress_counts_for_its_session,
    record_session_ingress, rtt_reported, traffic_counts_packets_and_bytes, DropReason, SessionTraffic,
    Stats, TrafficTable,
};
use crate::text::texts;
use vstd::prelude::*;
use vstd::string::*;
use vstd::utf8::decode_utf8;

verus! {

/// The relay between its sockets.
pub struct Relay {
    pub auth: RelayAuthConfig,
    pub tcp_enabled: bool,
    pub tun_udp_enabled: bool,
    /// Only the first limits sessions in number, in all and per source, and resolves
    /// host names.
    pub datapath: RelayDatapath,
    pub sessions: SessionTable,
    pub source_counts: SourceSessionCounts,
    pub traffic: TrafficTable,
    pub limiter: SourceRateLimiter,
    pub replay: RelayTicketReplayCache,
    pub policy: DestPolicy,
    pub stats: Stats,
}

/// What the relay knows.
pub ghost struct RelayView {
    pub sessions: Map<u64, SessionView>,
    pub counts: Map<(u8, u128), u64>,
    pub traffic: Map<u64, SessionTraffic>,
    pub limiter: LimiterView,
    pub replay: ReplayView,
    pub policy: PolicyView,
    pub stats: Stats,
}

/// What is done about a frame.
pub enum Action {
    Nothing,
    /// Send this frame back to the client.
    Reply(Vec<u8>),
    /// Resolve these host names and answer the client.
    Resolve { request_id: u16, hosts: Vec<String> },
    /// Refresh the session's flows.
    Refresh,
    /// Hand this packet to the device.
    Tun { protocol: u8, packet: Vec<u8> },
    /// Send this payload to the game server through the session's flow.
    Forward { game_addr: SocketAddr, payload: Vec<u8>, original_info: OriginalPacketInfo },
}

/// The content of an [`Action`].
pub ghost enum ActionView {
    Nothing,
    Reply(Seq<u8>),
    Resolve { request_id: u16, hosts: Seq<Seq<char>> },
    Refresh,
    Tun { protocol: u8, packet: Seq<u8> },
    Forward { payload: Seq<u8>, original_info: OriginalPacketInfo },
}

impl Action {
    pub open spec fn view(self) -> ActionView {
        match self {
            Action::Nothing => ActionView::Nothing,
            Action::Reply(frame) => ActionView::Reply(frame@),
            Action::Resolve { request_id, hosts } => ActionView::Resolve {
                request_id,
                hosts: texts(hosts@),
            },
            Action::Refresh => ActionView::Refresh,
            Action::Tun { protocol, packet } => ActionView::Tun { protocol, packet: packet@ },
            Action::Forward { game_addr, payload, original_info } => ActionView::Forward {
                payload: payload@,
                original_info,
            },
        }
    }
}

/// What the relay knows after a step, and what is to be done.
pub ghost struct Step {
    pub relay: RelayView,
    pub action: ActionView,
}

/// A frame and its circumstances: who sent it, and when, by three clocks: a monotonic
/// one in nanoseconds, the calendar in seconds, and the relay's uptime in milliseconds.
#[derive(Clone, Copy)]
pub struct Arrival {
    pub client_addr: SocketAddr,
    pub now: u64,
    pub now_unix: u64,
    pub uptime_ms: u64,
}

/// What is switched on.
#[derive(Clone, Copy, PartialEq, Eq, Structural, Debug)]
pub struct Switches {
    pub auth_mode: RelayAuthMode,
    pub tcp_enabled: bool,
    pub tun_udp_enabled: bool,
    pub datapath: RelayDatapath,
}

impl RelayView {
    pub open spec fn with_drop(self, reason: DropReason) -> RelayView {
        RelayView { stats: self.stats.with_drop_in(reason), ..self }
    }

    /// With a new session.
    pub open spec fn with_session(self, key: u64, session: SessionView) -> RelayView {
        RelayView {
            sessions: self.sessions.insert(key, session),
            counts: incremented(self.counts, session.client_addr.ip),
            stats: self.stats.with_session(),
            ..self
        }
    }

    /// With a session that is there changed.
    pub open spec fn with_changed(self, key: u64, session: SessionView) -> RelayView {
        RelayView {
            sessions: self.sessions.insert(key, session),
            counts: rebound(self.counts, self.sessions[key].client_addr.ip, session.client_addr.ip),
            ..self
        }
    }

    /// With a frame of the session counted.
    pub open spec fn with_ingress(self, key: u64, now_unix: u64, len: int) -> RelayView {
        RelayView { traffic: ingress(self.traffic, key, now_unix, len), ..self }
    }

    /// Whether there is room for another session from the client. On the second datapath
    /// there always is.
    pub open spec fn has_room(self, on: Switches, a: Arrival) -> bool {
        on.datapath == RelayDatapath::V1 ==> room_for_session(self.sessions, self.counts, a.client_addr.ip)
    }

    /// Whether another session may be opened from the client.
    pub open spec fn may_open(self, on: Switches, a: Arrival) -> bool {
        self.has_room(on, a) && self.limiter.has_room(
            a.client_addr.ip,
            SourceLimitKind::NewSession,
            a.now,
        )
    }

    /// After it was asked whether another session may be opened.
    pub open spec fn asked_to_open(self, on: Switches, a: Arrival) -> RelayView {
        if !self.has_room(on, a) {
            self.with_drop(DropReason::Capacity)
        } else {
            RelayView {
                limiter: self.limiter.after(a.client_addr.ip, SourceLimitKind::NewSession, a.now),
                stats: if self.may_open(on, a) {
                    self.stats
                } else {
                    self.stats.throttled()
                },
                ..self
            }
        }
    }
}

/// A session of a client that has shown no ticket.
pub open spec fn legacy_session(key: u64, a: Arrival) -> SessionView {
    SessionView {
        user_id: default_user_id(key as nat),
        auth_state: SessionAuthState::Legacy,
        lease_expires_at_unix: None,
        client_addr: a.client_addr,
        created_at_unix: a.now_unix,
        last_activity: a.now,
        last_activity_unix: a.now_unix,
    }
}

/// Where no tickets are needed, any frame opens its session, within the limits, and
/// moves it to the endpoint that it comes from.
pub open spec fn admitted_openly(
    v: RelayView,
    on: Switches,
    key: u64,
    a: Arrival,
    len: int,
) -> (RelayView, bool) {
    if v.sessions.contains_key(key) {
        let s = v.sessions[key].at(a.client_addr).active(a.now, a.now_unix);
        (v.with_changed(key, s).with_ingress(key, a.now_unix, len), true)
    } else if v.may_open(on, a) {
        (
            v.asked_to_open(on, a).with_session(key, legacy_session(key, a)).with_ingress(
                key,
                a.now_unix,
                len,
            ),
            true,
        )
    } else {
        (v.asked_to_open(on, a), false)
    }
}

/// A session with a frame of it counted; one from its own endpoint is activity.
pub open spec fn noticed(v: RelayView, key: u64, a: Arrival, len: int) -> RelayView {
    let s = v.sessions[key];
    let t = if s.client_addr == a.client_addr {
        s.active(a.now, a.now_unix)
    } else {
        s
    };
    RelayView { sessions: v.sessions.insert(key, t), ..v }.with_ingress(key, a.now_unix, len)
}

/// What stops a frame, if anything does, where tickets are needed: a session has to
/// have shown one that holds, and its frames come from the endpoint that showed it. A
/// frame from another endpoint is answered with a request to show a ticket.
pub open spec fn admitted_with_ticket(
    v: RelayView,
    key: u64,
    id: Seq<u8>,
    kind: FrameKind,
    a: Arrival,
    len: int,
) -> (RelayView, Option<ActionView>) {
    if !v.sessions.contains_key(key) {
        if kind == FrameKind::Pong {
            (v, Some(ActionView::Nothing))
        } else {
            (v.with_drop(DropReason::Auth), Some(ActionView::Nothing))
        }
    } else {
        let s = v.sessions[key];
        let w = noticed(v, key, a, len);
        if s.current(a.now_unix) && s.client_addr != a.client_addr {
            (
                w.with_drop(DropReason::Auth),
                Some(ActionView::Reply(auth_ack(id, AUTH_ACK_PROOF_REQUIRED))),
            )
        } else if !source_allowed(s, true, a.client_addr, false) {
            (w.with_drop(DropReason::Auth), Some(ActionView::Nothing))
        } else if kind == FrameKind::Pong {
            (w, Some(ActionView::Nothing))
        } else if !s.current(a.now_unix) {
            (w.with_drop(DropReason::Auth), Some(ActionView::Nothing))
        } else {
            (w, None)
        }
    }
}

/// A session of a client that has shown a ticket.
pub open spec fn ticket_session(ticket: TicketView, created_at_unix: u64, a: Arrival) -> SessionView {
    SessionView {
        user_id: ticket.user_id,
        auth_state: SessionAuthState::Authenticated,
        lease_expires_at_unix: if ticket.lease {
            Some(ticket.exp)
        } else {
            None
        },
        client_addr: a.client_addr,
        created_at_unix,
        last_activity: a.now,
        last_activity_unix: a.now_unix,
    }
}

/// Whether the session belongs to somebody else than the ticket's user.
pub open spec fn owned_by_other(s: SessionView, ticket: TicketView) -> bool {
    s.auth_state == SessionAuthState::Authenticated && s.user_id != ticket.user_id
}

/// What a hello does, given what became of its ticket. A valid one opens the session,
/// or renews it at the endpoint that the hello came from, unless it is somebody else's.
/// Nothing else changes a session's owner or, where tickets are needed, its endpoint.
pub open spec fn greeted(
    v: RelayView,
    key: u64,
    id: Seq<u8>,
    a: Arrival,
    len: int,
    ticket: Result<TicketView, RelayAuthVerifyError>,
) -> Step {
    let known = v.sessions.contains_key(key);
    let w = if known {
        noticed(v, key, a, len)
    } else {
        v
    };
    match ticket {
        Err(error) => Step { relay: w, action: ActionView::Reply(auth_ack(id, error.status())) },
        Ok(t) => if !known {
            Step {
                relay: w.with_session(key, ticket_session(t, a.now_unix, a)).with_ingress(
                    key,
                    a.now_unix,
                    len,
                ),
                action: ActionView::Reply(auth_ack(id, AUTH_ACK_OK)),
            }
        } else if owned_by_other(v.sessions[key], t) {
            Step { relay: w, action: ActionView::Reply(auth_ack(id, AUTH_ACK_OWNER_MISMATCH)) }
        } else {
            Step {
                relay: w.with_changed(key, ticket_session(t, v.sessions[key].created_at_unix, a)),
                action: ActionView::Reply(auth_ack(id, AUTH_ACK_OK)),
            }
        },
    }
}

/// The relay with the session's user named by the source address of its packets, as
/// long as no ticket names one.
pub open spec fn named(v: RelayView, key: u64, src_ip: Ipv4Addr) -> RelayView {
    if v.sessions.contains_key(key) && v.sessions[key].auth_state != SessionAuthState::Authenticated {
        RelayView {
            sessions: v.sessions.insert(
                key,
                SessionView { user_id: dotted_text(src_ip), ..v.sessions[key] },
            ),
            ..v
        }
    } else {
        v
    }
}

/// Where a packet goes and what the policy has to judge it by.
pub ghost struct Destination {
    pub protocol: u8,
    pub src_ip: Ipv4Addr,
    pub dst_ip: Ipv4Addr,
    pub dst_port: Option<u16>,
}

pub open spec fn destination_of(p: PacketView) -> Destination {
    match p {
        PacketView::Udp { info, payload, raw } => Destination {
            protocol: IPPROTO_UDP,
            src_ip: info.src_ip,
            dst_ip: info.dst_ip,
            dst_port: Some(info.dst_port),
        },
        PacketView::Tcp { info, raw } => Destination {
            protocol: IPPROTO_TCP,
            src_ip: info.src_ip,
            dst_ip: info.dst_ip,
            dst_port: Some(info.dst_port),
        },
        PacketView::Fragment { protocol, src_ip, dst_ip, dst_port, raw } => Destination {
            protocol,
            src_ip,
            dst_ip,
            dst_port,
        },
        PacketView::ForbiddenDst => arbitrary(),
    }
}

/// Whether a packet is refused before the policy judges it: for its address, or, also
/// in a first fragment, for its UDP port.
pub open spec fn forbidden(p: PacketView) -> bool {
    match p {
        PacketView::ForbiddenDst => true,
        PacketView::Fragment { protocol, src_ip, dst_ip, dst_port, raw } => protocol == IPPROTO_UDP
            && dst_port is Some && forbidden_port(dst_port->Some_0),
        _ => false,
    }
}

/// What is done with a packet that may be forwarded. TCP goes to the device, UDP goes
/// there or to its flow, and a fragment can go nowhere else than to the device.
pub open spec fn routed(v: RelayView, on: Switches, p: PacketView) -> Step {
    match p {
        PacketView::Udp { info, payload, raw } => if on.tun_udp_enabled {
            Step { relay: v, action: ActionView::Tun { protocol: IPPROTO_UDP, packet: raw } }
        } else {
            Step { relay: v, action: ActionView::Forward { payload, original_info: info } }
        },
        PacketView::Tcp { info, raw } => if on.tcp_enabled {
            Step { relay: v, action: ActionView::Tun { protocol: IPPROTO_TCP, packet: raw } }
        } else {
            Step { relay: v.with_drop(DropReason::TcpDisabled), action: ActionView::Nothing }
        },
        PacketView::Fragment { protocol, src_ip, dst_ip, dst_port, raw } => if protocol == IPPROTO_UDP
            && on.tun_udp_enabled || protocol == IPPROTO_TCP && on.tcp_enabled {
            Step { relay: v, action: ActionView::Tun { protocol, packet: raw } }
        } else {
            Step { relay: v.with_drop(DropReason::Fragment), action: ActionView::Nothing }
        },
        PacketView::ForbiddenDst => Step { relay: v, action: ActionView::Nothing },
    }
}

/// What is done with an admitted frame that carries a packet.
pub open spec fn packet_step(v: RelayView, on: Switches, key: u64, frame: Seq<u8>) -> Step {
    if frame.len() < 28 {
        Step { relay: v.with_drop(DropReason::TooSmall), action: ActionView::Nothing }
    } else {
        match packet_view(frame.subrange(8, frame.len() as int)) {
            None => Step { relay: v.with_drop(DropReason::Parse), action: ActionView::Nothing },
            Some(p) => if forbidden(p) {
                Step { relay: v.with_drop(DropReason::ForbiddenDst), action: ActionView::Nothing }
            } else {
                let d = destination_of(p);
                let w = RelayView { policy: v.policy.after(d.protocol, d.dst_ip, d.dst_port), ..v };
                if !v.policy.lets_through(d.protocol, d.dst_ip, d.dst_port) {
                    Step { relay: w.with_drop(DropReason::ForbiddenDst), action: ActionView::Nothing }
                } else {
                    routed(named(w, key, d.src_ip), on, p)
                }
            },
        }
    }
}

/// What is done with an admitted frame. The second datapath takes a request to resolve
/// host names for a packet.
pub open spec fn dispatched(
    v: RelayView,
    on: Switches,
    key: u64,
    frame: Seq<u8>,
    a: Arrival,
) -> Step {
    match kind_of(frame) {
        FrameKind::Ping => Step { relay: v, action: ActionView::Reply(pong(frame, a.uptime_ms)) },
        FrameKind::RttReport => Step {
            relay: RelayView {
                traffic: rtt_reported(v.traffic, key, be32(frame, 9) as u64),
                ..v
            },
            action: ActionView::Nothing,
        },
        FrameKind::Resolve => if on.datapath == RelayDatapath::V1 {
            match request_of(frame, frame.len() as int) {
                Some(request) => Step {
                    relay: v,
                    action: ActionView::Resolve { request_id: request.id, hosts: request.hosts },
                },
                None => Step { relay: v, action: ActionView::Nothing },
            }
        } else {
            packet_step(v, on, key, frame)
        },
        FrameKind::Keepalive => Step { relay: v, action: ActionView::Refresh },
        FrameKind::Packet => packet_step(v, on, key, frame),
        _ => Step { relay: v, action: ActionView::Nothing },
    }
}

/// Whether a frame, counted and within its source's rate, is a hello whose ticket is
/// looked at.
pub open spec fn shows_ticket(v: RelayView, on: Switches, frame: Seq<u8>, a: Arrival) -> bool {
    let key = be64(frame.subrange(0, 8)) as u64;
    &&& kind_of(frame) == FrameKind::Hello
    &&& on.auth_mode != RelayAuthMode::Off
    &&& v.sessions.contains_key(key) || v.may_open(on, a)
}

/// What is done with a frame that is counted and within its source's rate; `ticket`
/// is what became of its ticket, if it is a hello whose ticket is looked at.
pub open spec fn handled(
    v: RelayView,
    on: Switches,
    frame: Seq<u8>,
    a: Arrival,
    ticket: Result<TicketView, RelayAuthVerifyError>,
) -> Step {
    let id = frame.subrange(0, 8);
    let key = be64(id) as u64;
    let len = frame.len() as int;
    let kind = kind_of(frame);
    if on.auth_mode == RelayAuthMode::Off {
        let (w, admitted) = admitted_openly(v, on, key, a, len);
        if !admitted {
            Step { relay: w, action: ActionView::Nothing }
        } else if kind == FrameKind::Hello {
            Step { relay: w, action: ActionView::Reply(auth_ack(id, AUTH_ACK_AUTH_DISABLED)) }
        } else {
            dispatched(w, on, key, frame, a)
        }
    } else if kind == FrameKind::Hello {
        if v.sessions.contains_key(key) {
            greeted(v, key, id, a, len, ticket)
        } else if v.may_open(on, a) {
            greeted(v.asked_to_open(on, a), key, id, a, len, ticket)
        } else {
            Step { relay: v.asked_to_open(on, a), action: ActionView::Nothing }
        }
    } else {
        let (w, stop) = admitted_with_ticket(v, key, id, kind, a, len);
        match stop {
            Some(action) => Step { relay: w, action },
            None => dispatched(w, on, key, frame, a),
        }
    }
}

/// What is done with a frame.
pub open spec fn received(
    v: RelayView,
    on: Switches,
    frame: Seq<u8>,
    a: Arrival,
    ticket: Result<TicketView, RelayAuthVerifyError>,
) -> Step {
    let w = v.counted(frame.len() as int);
    if kind_of(frame) == FrameKind::TooShort {
        Step { relay: w.with_drop(DropReason::TooSmall), action: ActionView::Nothing }
    } else if !w.limiter.has_room(a.client_addr.ip, SourceLimitKind::Packet, a.now) {
        Step {
            relay: RelayView { stats: w.stats.throttled(), ..w.rated(a) },
            action: ActionView::Nothing,
        }
    } else {
        handled(w.rated(a), on, frame, a, ticket)
    }
}

impl RelayView {
    /// With a frame counted.
    pub open spec fn counted(self, len: int) -> RelayView {
        RelayView { stats: self.stats.received(len), ..self }
    }

    /// With a frame counted against its source's rate.
    pub open spec fn rated(self, a: Arrival) -> RelayView {
        RelayView {
            limiter: self.limiter.after(a.client_addr.ip, SourceLimitKind::Packet, a.now),
            ..self
        }
    }
}

/// The result of a ticket without its owned strings.
pub open spec fn ticket_view(r: Result<VerifiedRelayTicket, RelayAuthVerifyError>) -> Result<
    TicketView,
    RelayAuthVerifyError,
> {
    match r {
        Ok(t) => Ok(t@),
        Err(e) => Err(e),
    }
}

/// Whether `ticket` is what becomes of the ticket in a hello, and `after` the tickets
/// that are known from then on.
pub open spec fn shown<F: Fn(&[u8]) -> Option<RelayTicketClaims>>(
    ticket: Result<VerifiedRelayTicket, RelayAuthVerifyError>,
    frame: Seq<u8>,
    auth: RelayAuthConfig,
    now_unix: u64,
    decode: F,
    before: ReplayView,
    after: ReplayView,
) -> bool {
    match hello_token(frame, frame.len() as int) {
        None => ticket == Err::<VerifiedRelayTicket, RelayAuthVerifyError>(
            RelayAuthVerifyError::BadFormat,
        ) && after == before,
        Some(bytes) => exists|first: Result<VerifiedRelayTicket, RelayAuthVerifyError>| #[trigger]
            verifies(
                first,
                decode_utf8(bytes),
                be64(frame.subrange(0, 8)),
                auth,
                now_unix,
                decode,
            ) && used_once(first, ticket, before, after, now_unix),
    }
}

impl Relay {
    pub open spec fn view(self) -> RelayView {
        RelayView {
            sessions: self.sessions@,
            counts: self.source_counts@,
            traffic: self.traffic@,
            limiter: self.limiter@,
            replay: self.replay@,
            policy: self.policy@,
            stats: self.stats,
        }
    }

    pub open spec fn switches(self) -> Switches {
        Switches {
            auth_mode: self.auth.mode,
            tcp_enabled: self.tcp_enabled,
            tun_udp_enabled: self.tun_udp_enabled,
            datapath: self.datapath,
        }
    }

    /// The sessions are within their number, if that is limited, counted as active, and
    /// counted for their sources.
    pub open spec fn wf(self) -> bool {
        &&& self.sessions@.dom().finite()
        &&& self.sessions@.dom().len() <= usize::MAX
        &&& self.datapath == RelayDatapath::V1 ==> self.sessions@.dom().len() <= MAX_SESSIONS_TOTAL
        &&& self.stats.active_sessions == self.sessions@.dom().len()
        &&& counts_match(self.sessions@, self.source_counts@)
        &&& self.policy.wf()
    }

    /// Whether the two differ in what the relay knows at most.
    pub open spec fn same_setup(self, other: Relay) -> bool {
        &&& self.auth == other.auth
        &&& self.tcp_enabled == other.tcp_enabled
        &&& self.tun_udp_enabled == other.tun_udp_enabled
        &&& self.datapath == other.datapath
        &&& self.policy.same_rules(other.policy)
    }

    pub fn new(
        auth: RelayAuthConfig,
        tcp_enabled: bool,
        tun_udp_enabled: bool,
        datapath: RelayDatapath,
        policy: DestPolicy,
        now: u64,
    ) -> (r: Relay)
        requires
            policy.wf(),
        ensures
            r.wf(),
            r.auth == auth,
            r.tcp_enabled == tcp_enabled,
            r.tun_udp_enabled == tun_udp_enabled,
            r.datapath == datapath,
            r.policy == policy,
            r@ == (RelayView {
                sessions: Map::empty(),
                counts: Map::empty(),
                traffic: Map::empty(),
                limiter: LimiterView { sources: Map::empty(), created_at: now, last_prune_ms: 0 },
                replay: ReplayView { seen: Map::empty(), last_prune_unix: 0 },
                policy: policy@,
                stats: Stats::zero(),
            }),
    {
        let r = Relay {
            auth,
            tcp_enabled,
            tun_udp_enabled,
            datapath,
            sessions: SessionTable::new(),
            source_counts: SourceSessionCounts::new(),
            traffic: TrafficTable::new(),
            limiter: SourceRateLimiter::new(now),
            replay: RelayTicketReplayCache::new(),
            policy,
            stats: Stats::new(),
        };
        proof {
            assert(r.sessions@.dom() =~= Set::<u64>::empty());
            assert forall|ip: crate::addr::IpAddr| #[trigger]
                count_in(r.source_counts@, ip) == crate::session::sessions_from(
                    r.sessions@,
                    ip,
                ).len() by {
                assert(crate::session::sessions_from(r.sessions@, ip) =~= Set::<u64>::empty());
            }
        }
        r
    }
}

/// Bytes of their own.
fn owned(bytes: &[u8]) -> (r: Vec<u8>)
    ensures
        r@ == bytes@,
{
    let mut r: Vec<u8> = Vec::with_capacity(bytes.len());
    r.extend_from_slice(bytes);
    assert(r@ =~= bytes@);
    r
}

impl Relay {
    /// Whether another session may be opened from the client; a refusal is counted.
    fn ask_to_open(&mut self, a: Arrival) -> (r: bool)
        requires
            old(self).wf(),
        ensures
            final(self).wf(),
            final(self).same_setup(*old(self)),
            final(self)@ == old(self)@.asked_to_open(old(self).switches(), a),
            r == old(self)@.may_open(old(self).switches(), a),
    {
        if self.datapath == RelayDatapath::V1 && !v1_session_capacity_available(
            &self.sessions,
            &self.source_counts,
            &mut self.stats,
            a.client_addr.ip,
        ) {
            return false;
        }
        allow_source_event(
            &mut self.limiter,
            &mut self.stats,
            a.client_addr,
            SourceLimitKind::NewSession,
            a.now,
        )
    }

    /// Puts a new session into the table.
    fn open_session(&mut self, key: u64, session: SessionEntry)
        requires
            old(self).wf(),
            !old(self).sessions@.contains_key(key),
            old(self).datapath == RelayDatapath::V1 ==> old(self).sessions@.dom().len() < MAX_SESSIONS_TOTAL,
        ensures
            final(self).wf(),
            final(self).same_setup(*old(self)),
            final(self)@ == old(self)@.with_session(key, session@),
    {
        let ghost before = self.sessions@;
        let ghost view = session@;
        let ip = session.client_addr.ip;
        self.sessions.put(key, session);
        let active: usize = self.sessions.len();
        proof {
            assert(self.sessions@.dom() =~= before.dom().insert(key));
            lemma_counts_open(before, self.source_counts@, key, view);
        }
        increment_source_session_count(&mut self.source_counts, ip);
        self.stats.active_sessions = active as u64;
    }

    /// Where no tickets are needed: opens the frame's session or moves it to its
    /// endpoint.
    fn admit_openly(&mut self, id: [u8; 8], a: Arrival, len: usize) -> (r: bool)
        requires
            old(self).wf(),
        ensures
            final(self).wf(),
            final(self).same_setup(*old(self)),
            ({
                let (v, admitted) = admitted_openly(
                    old(self)@,
                    old(self).switches(),
                    be64(id@) as u64,
                    a,
                    len as int,
                );
                final(self)@ == v && r == admitted
            }),
    {
        let key: u64 = session_key(&id);
        let ghost before = self.sessions@;
        let ghost counts = self.source_counts@;
        match self.sessions.take(key) {
            Some(session) => {
                let mut session: SessionEntry = session;
                let old_ip = session.client_addr.ip;
                session.client_addr = a.client_addr;
                session.last_activity = a.now;
                session.last_activity_unix = a.now_unix;
                proof {
                    lemma_counts_rebind(before, counts, key, session@);
                    assert(before.remove(key).insert(key, session@) =~= before.insert(key, session@));
                    assert(before.insert(key, session@).dom() =~= before.dom());
                }
                update_source_session_count_for_rebind(
                    &mut self.source_counts,
                    old_ip,
                    a.client_addr.ip,
                );
                self.sessions.put(key, session);
            },
            None => {
                if !self.ask_to_open(a) {
                    return false;
                }
                let session = SessionEntry {
                    user_id: derive_user_id(id),
                    auth_state: SessionAuthState::Legacy,
                    lease_expires_at_unix: None,
                    client_addr: a.client_addr,
                    created_at_unix: a.now_unix,
                    last_activity: a.now,
                    last_activity_unix: a.now_unix,
                };
                self.open_session(key, session);
            },
        }
        record_session_ingress(&mut self.traffic, key, a.now_unix, len);
        true
    }

    /// Counts a frame of a session that is there.
    fn notice(&mut self, key: u64, a: Arrival, len: usize) -> (r: SessionEntry)
        requires
            old(self).wf(),
            old(self).sessions@.contains_key(key),
        ensures
            final(self).wf(),
            final(self).same_setup(*old(self)),
            final(self)@ == noticed(old(self)@, key, a, len as int),
            r@ == old(self).sessions@[key],
    {
        let ghost before = self.sessions@;
        let ghost counts = self.source_counts@;
        let r: SessionEntry = match self.sessions.take(key) {
            Some(session) => {
                let found: SessionEntry = session.copy();
                let mut session: SessionEntry = session;
                if session.client_addr == a.client_addr {
                    session.last_activity = a.now;
                    session.last_activity_unix = a.now_unix;
                }
                proof {
                    lemma_counts_rebind(before, counts, key, session@);
                    assert(before.remove(key).insert(key, session@) =~= before.insert(key, session@));
                    assert(before.insert(key, session@).dom() =~= before.dom());
                }
                self.sessions.put(key, session);
                found
            },
            None => SessionEntry {
                user_id: String::new(),
                auth_state: SessionAuthState::Legacy,
                lease_expires_at_unix: None,
                client_addr: a.client_addr,
                created_at_unix: 0,
                last_activity: 0,
                last_activity_unix: 0,
            },
        };
        record_session_ingress(&mut self.traffic, key, a.now_unix, len);
        r
    }

    /// Where tickets are needed: what stops the frame, if anything does.
    fn admit_with_ticket(&mut self, id: [u8; 8], kind: FrameKind, a: Arrival, len: usize) -> (r: Option<
        Action,
    >)
        requires
            old(self).wf(),
        ensures
            final(self).wf(),
            final(self).same_setup(*old(self)),
            ({
                let (v, stop) = admitted_with_ticket(
                    old(self)@,
                    be64(id@) as u64,
                    id@,
                    kind,
                    a,
                    len as int,
                );
                &&& final(self)@ == v
                &&& match r {
                    Some(action) => stop == Some(action@),
                    None => stop is None,
                }
            }),
    {
        let key: u64 = session_key(&id);
        if !self.sessions.contains(key) {
            if kind != FrameKind::Pong {
                self.stats.drop_in(DropReason::Auth);
            }
            return Some(Action::Nothing);
        }
        let session: SessionEntry = self.notice(key, a, len);
        let current: bool = session_auth_is_current(&session, a.now_unix);
        if current && session.client_addr != a.client_addr {
            self.stats.drop_in(DropReason::Auth);
            return Some(Action::Reply(auth_ack_frame(&id, AUTH_ACK_PROOF_REQUIRED)));
        }
        if !authenticated_session_source_allowed(&session, true, a.client_addr, false) {
            self.stats.drop_in(DropReason::Auth);
            return Some(Action::Nothing);
        }
        if kind == FrameKind::Pong {
            return Some(Action::Nothing);
        }
        if !current {
            self.stats.drop_in(DropReason::Auth);
            return Some(Action::Nothing);
        }
        None
    }

    /// Takes up a hello, given what became of its ticket.
    pub fn greet(
        &mut self,
        id: [u8; 8],
        a: Arrival,
        len: usize,
        ticket: Result<VerifiedRelayTicket, RelayAuthVerifyError>,
    ) -> (r: Action)
        requires
            old(self).wf(),
            old(self).datapath == RelayDatapath::V1 && !old(self).sessions@.contains_key(be64(id@) as u64)
                ==> old(self).sessions@.dom().len() < MAX_SESSIONS_TOTAL,
        ensures
            final(self).wf(),
            final(self).same_setup(*old(self)),
            ({
                let step = greeted(
                    old(self)@,
                    be64(id@) as u64,
                    id@,
                    a,
                    len as int,
                    ticket_view(ticket),
                );
                final(self)@ == step.relay && r@ == step.action
            }),
    {
        let key: u64 = session_key(&id);
        let known: Option<SessionEntry> = if self.sessions.contains(key) {
            Some(self.notice(key, a, len))
        } else {
            None
        };
        let ticket: VerifiedRelayTicket = match ticket {
            Ok(ticket) => ticket,
            Err(error) => {
                return Action::Reply(auth_ack_frame(&id, error.ack_status()));
            },
        };
        let lease: Option<u64> = if ticket.lease {
            Some(ticket.exp)
        } else {
            None
        };
        match known {
            None => {
                let session = SessionEntry {
                    user_id: ticket.user_id,
                    auth_state: SessionAuthState::Authenticated,
                    lease_expires_at_unix: lease,
                    client_addr: a.client_addr,
                    created_at_unix: a.now_unix,
                    last_activity: a.now,
                    last_activity_unix: a.now_unix,
                };
                self.open_session(key, session);
                record_session_ingress(&mut self.traffic, key, a.now_unix, len);
            },
            Some(found) => {
                if found.auth_state == SessionAuthState::Authenticated && found.user_id
                    != ticket.user_id {
                    return Action::Reply(auth_ack_frame(&id, AUTH_ACK_OWNER_MISMATCH));
                }
                let ghost before = self.sessions@;
                let ghost counts = self.source_counts@;
                let session = SessionEntry {
                    user_id: ticket.user_id,
                    auth_state: SessionAuthState::Authenticated,
                    lease_expires_at_unix: lease,
                    client_addr: a.client_addr,
                    created_at_unix: found.created_at_unix,
                    last_activity: a.now,
                    last_activity_unix: a.now_unix,
                };
                proof {
                    lemma_counts_rebind(before, counts, key, session@);
                    assert(before.insert(key, session@).dom() =~= before.dom());
                }
                update_source_session_count_for_rebind(
                    &mut self.source_counts,
                    found.client_addr.ip,
                    a.client_addr.ip,
                );
                self.sessions.put(key, session);
            },
        }
        Action::Reply(auth_ack_frame(&id, AUTH_ACK_OK))
    }

    /// Names the session's user by the source address of its packets, as long as no
    /// ticket names one.
    fn name_user(&mut self, key: u64, src_ip: Ipv4Addr)
        requires
            old(self).wf(),
        ensures
            final(self).wf(),
            final(self).same_setup(*old(self)),
            final(self)@ == named(old(self)@, key, src_ip),
    {
        let ghost before = self.sessions@;
        let ghost counts = self.source_counts@;
        if let Some(session) = self.sessions.take(key) {
            let mut session: SessionEntry = session;
            if session.auth_state != SessionAuthState::Authenticated {
                let mut name = String::new();
                push_dotted(&mut name, src_ip);
                assert(name@ =~= dotted_text(src_ip));
                session.user_id = name;
            }
            proof {
                lemma_counts_rebind(before, counts, key, session@);
                assert(before.remove(key).insert(key, session@) =~= before.insert(key, session@));
                assert(before.insert(key, session@).dom() =~= before.dom());
                if before[key].auth_state == SessionAuthState::Authenticated {
                    assert(before.insert(key, session@) =~= before);
                }
            }
            self.sessions.put(key, session);
        }
    }

    /// Has the policy judge a packet; a refusal is counted, otherwise its user is named.
    fn judge(
        &mut self,
        key: u64,
        protocol: u8,
        src_ip: Ipv4Addr,
        dst_ip: Ipv4Addr,
        dst_port: Option<u16>,
    ) -> (r: bool)
        requires
            old(self).wf(),
        ensures
            final(self).wf(),
            final(self).same_setup(*old(self)),
            r == old(self)@.policy.lets_through(protocol, dst_ip, dst_port),
            ({
                let w = RelayView {
                    policy: old(self)@.policy.after(protocol, dst_ip, dst_port),
                    ..old(self)@
                };
                final(self)@ == if r {
                    named(w, key, src_ip)
                } else {
                    w.with_drop(DropReason::ForbiddenDst)
                }
            }),
    {
        if !self.policy.permits(protocol, dst_ip, dst_port) {
            self.stats.drop_in(DropReason::ForbiddenDst);
            return false;
        }
        self.name_user(key, src_ip);
        true
    }

    /// Decides about an admitted frame that carries a packet.
    #[verifier::rlimit(30)]
    fn take_packet(&mut self, key: u64, frame: &[u8]) -> (r: Action)
        requires
            old(self).wf(),
        ensures
            final(self).wf(),
            final(self).same_setup(*old(self)),
            ({
                let step = packet_step(old(self)@, old(self).switches(), key, frame@);
                final(self)@ == step.relay && r@ == step.action
            }),
            r matches Action::Forward { game_addr, payload, original_info } ==> game_addr
                == game_addr_of(original_info),
    {
        let len: usize = frame.len();
        if len < SESSION_ID_LEN + IP_HEADER_MIN {
            self.stats.drop_in(DropReason::TooSmall);
            return Action::Nothing;
        }
        match parse_ip_packet_full(&frame[SESSION_ID_LEN..len]) {
            None => {
                self.stats.drop_in(DropReason::Parse);
                Action::Nothing
            },
            Some(ParsedPacket::ForbiddenDst) => {
                self.stats.drop_in(DropReason::ForbiddenDst);
                Action::Nothing
            },
            Some(ParsedPacket::Fragment { protocol, src_ip, dst_ip, dst_port, raw_ip_packet }) => {
                let refused: bool = protocol == IPPROTO_UDP && match dst_port {
                    Some(port) => is_forbidden_dst_port(port),
                    None => false,
                };
                if refused {
                    self.stats.drop_in(DropReason::ForbiddenDst);
                    return Action::Nothing;
                }
                if !self.judge(key, protocol, src_ip, dst_ip, dst_port) {
                    return Action::Nothing;
                }
                if (protocol == IPPROTO_UDP && self.tun_udp_enabled) || (protocol == IPPROTO_TCP
                    && self.tcp_enabled) {
                    Action::Tun { protocol, packet: owned(raw_ip_packet) }
                } else {
                    self.stats.drop_in(DropReason::Fragment);
                    Action::Nothing
                }
            },
            Some(ParsedPacket::Tcp { original_info, raw_ip_packet }) => {
                if !self.judge(
                    key,
                    IPPROTO_TCP,
                    original_info.src_ip,
                    original_info.dst_ip,
                    Some(original_info.dst_port),
                ) {
                    return Action::Nothing;
                }
                if self.tcp_enabled {
                    Action::Tun { protocol: IPPROTO_TCP, packet: owned(raw_ip_packet) }
                } else {
                    self.stats.drop_in(DropReason::TcpDisabled);
                    Action::Nothing
                }
            },
            Some(ParsedPacket::Udp { game_addr, payload, original_info, raw_ip_packet }) => {
                if !self.judge(
                    key,
                    IPPROTO_UDP,
                    original_info.src_ip,
                    original_info.dst_ip,
                    Some(original_info.dst_port),
                ) {
                    return Action::Nothing;
                }
                if self.tun_udp_enabled {
                    Action::Tun { protocol: IPPROTO_UDP, packet: owned(raw_ip_packet) }
                } else {
                    Action::Forward { game_addr, payload: owned(payload), original_info }
                }
            },
        }
    }

    /// Decides about an admitted frame.
    fn dispatch(&mut self, key: u64, frame: &[u8], kind: FrameKind, a: Arrival) -> (r: Action)
        requires
            old(self).wf(),
            kind == kind_of(frame@),
        ensures
            final(self).wf(),
            final(self).same_setup(*old(self)),
            ({
                let step = dispatched(old(self)@, old(self).switches(), key, frame@, a);
                final(self)@ == step.relay && r@ == step.action
            }),
            r matches Action::Forward { game_addr, payload, original_info } ==> game_addr
                == game_addr_of(original_info),
    {
        match kind {
            FrameKind::Ping => Action::Reply(pong_frame(frame, a.uptime_ms)),
            FrameKind::RttReport => {
                self.traffic.record_rtt(key, reported_rtt(frame));
                Action::Nothing
            },
            FrameKind::Resolve => {
                if self.datapath == RelayDatapath::V2 {
                    return self.take_packet(key, frame);
                }
                match parse_resolve_request(frame, frame.len()) {
                    Some((request_id, hosts)) => Action::Resolve { request_id, hosts },
                    None => Action::Nothing,
                }
            },
            FrameKind::Keepalive => Action::Refresh,
            FrameKind::Packet => self.take_packet(key, frame),
            _ => Action::Nothing,
        }
    }

    /// Decides about a frame that came from a client; `decode` reads the claims of a
    /// ticket.
    pub fn receive<F: Fn(&[u8]) -> Option<RelayTicketClaims>>(
        &mut self,
        frame: &[u8],
        a: Arrival,
        decode: F,
    ) -> (r: Action)
        requires
            old(self).wf(),
            forall|bytes: &[u8]| call_requires(decode, (bytes,)),
        ensures
            final(self).wf(),
            final(self).same_setup(*old(self)),
            decided(*old(self), *final(self), frame@, a, decode, r@),
            r matches Action::Forward { game_addr, payload, original_info } ==> game_addr
                == game_addr_of(original_info),
    {
        let ghost start = *self;
        let ghost none: Result<VerifiedRelayTicket, RelayAuthVerifyError> = Err(
            RelayAuthVerifyError::BadFormat,
        );
        self.stats.receive(frame.len());
        let kind: FrameKind = classify(frame);
        if kind == FrameKind::TooShort {
            self.stats.drop_in(DropReason::TooSmall);
            proof {
                lemma_decided(start, *self, frame@, a, decode, ActionView::Nothing, none);
            }
            return Action::Nothing;
        }
        if !allow_source_event(
            &mut self.limiter,
            &mut self.stats,
            a.client_addr,
            SourceLimitKind::Packet,
            a.now,
        ) {
            proof {
                lemma_decided(start, *self, frame@, a, decode, ActionView::Nothing, none);
            }
            return Action::Nothing;
        }
        let (r, Ghost(ticket)) = self.handle(frame, kind, a, decode);
        proof {
            lemma_decided(start, *self, frame@, a, decode, r@, ticket);
        }
        r
    }

    /// Decides about a frame that is counted and within its source's rate. The ghost
    /// result is what became of its ticket, if that was looked at.
    fn handle<F: Fn(&[u8]) -> Option<RelayTicketClaims>>(
        &mut self,
        frame: &[u8],
        kind: FrameKind,
        a: Arrival,
        decode: F,
    ) -> (r: (Action, Ghost<Result<VerifiedRelayTicket, RelayAuthVerifyError>>))
        requires
            old(self).wf(),
            kind == kind_of(frame@),
            kind != FrameKind::TooShort,
            forall|bytes: &[u8]| call_requires(decode, (bytes,)),
        ensures
            final(self).wf(),
            final(self).same_setup(*old(self)),
            handled_by(*old(self), *final(self), frame@, a, decode, r.0@, r.1@),
            r.0 matches Action::Forward { game_addr, payload, original_info } ==> game_addr
                == game_addr_of(original_info),
    {
        let ghost none: Result<VerifiedRelayTicket, RelayAuthVerifyError> = Err(
            RelayAuthVerifyError::BadFormat,
        );
        let id: [u8; 8] = session_id_in(frame);
        if self.auth.mode == RelayAuthMode::Off {
            (self.handle_openly(frame, id, kind, a), Ghost(none))
        } else if kind != FrameKind::Hello {
            (self.handle_with_ticket(frame, id, kind, a), Ghost(none))
        } else {
            self.take_hello(frame, id, a, decode)
        }
    }

    /// Decides about a frame, where no tickets are needed.
    fn handle_openly(&mut self, frame: &[u8], id: [u8; 8], kind: FrameKind, a: Arrival) -> (r: Action)
        requires
            old(self).wf(),
            kind == kind_of(frame@),
            old(self).auth.mode == RelayAuthMode::Off,
            id@ == frame@.subrange(0, 8),
        ensures
            final(self).wf(),
            final(self).same_setup(*old(self)),
            ({
                let (v, admitted) = admitted_openly(
                    old(self)@,
                    old(self).switches(),
                    be64(id@) as u64,
                    a,
                    frame@.len() as int,
                );
                let step = if !admitted {
                    Step { relay: v, action: ActionView::Nothing }
                } else if kind == FrameKind::Hello {
                    Step {
                        relay: v,
                        action: ActionView::Reply(auth_ack(id@, AUTH_ACK_AUTH_DISABLED)),
                    }
                } else {
                    dispatched(v, old(self).switches(), be64(id@) as u64, frame@, a)
                };
                final(self)@ == step.relay && r@ == step.action
            }),
            final(self)@.replay == old(self)@.replay,
            r matches Action::Forward { game_addr, payload, original_info } ==> game_addr
                == game_addr_of(original_info),
    {
        if !self.admit_openly(id, a, frame.len()) {
            return Action::Nothing;
        }
        if kind == FrameKind::Hello {
            return Action::Reply(auth_ack_frame(&id, AUTH_ACK_AUTH_DISABLED));
        }
        self.dispatch(session_key(&id), frame, kind, a)
    }

    /// Decides about a frame that is no hello, where tickets are needed.
    #[verifier::rlimit(30)]
    fn handle_with_ticket(&mut self, frame: &[u8], id: [u8; 8], kind: FrameKind, a: Arrival) -> (r:
        Action)
        requires
            old(self).wf(),
            kind == kind_of(frame@),
            id@ == frame@.subrange(0, 8),
        ensures
            final(self).wf(),
            final(self).same_setup(*old(self)),
            ({
                let (v, stop) = admitted_with_ticket(
                    old(self)@,
                    be64(id@) as u64,
                    id@,
                    kind,
                    a,
                    frame@.len() as int,
                );
                let step = match stop {
                    Some(action) => Step { relay: v, action },
                    None => dispatched(v, old(self).switches(), be64(id@) as u64, frame@, a),
                };
                final(self)@ == step.relay && r@ == step.action
            }),
            final(self)@.replay == old(self)@.replay,
            r matches Action::Forward { game_addr, payload, original_info } ==> game_addr
                == game_addr_of(original_info),
    {
        match self.admit_with_ticket(id, kind, a, frame.len()) {
            Some(action) => action,
            None => self.dispatch(session_key(&id), frame, kind, a),
        }
    }

    /// Decides about a hello, where tickets are needed.
    #[verifier::rlimit(30)]
    fn take_hello<F: Fn(&[u8]) -> Option<RelayTicketClaims>>(
        &mut self,
        frame: &[u8],
        id: [u8; 8],
        a: Arrival,
        decode: F,
    ) -> (r: (Action, Ghost<Result<VerifiedRelayTicket, RelayAuthVerifyError>>))
        requires
            old(self).wf(),
            kind_of(frame@) == FrameKind::Hello,
            old(self).auth.mode != RelayAuthMode::Off,
            id@ == frame@.subrange(0, 8),
            forall|bytes: &[u8]| call_requires(decode, (bytes,)),
        ensures
            final(self).wf(),
            final(self).same_setup(*old(self)),
            handled_by(*old(self), *final(self), frame@, a, decode, r.0@, r.1@),
            !(r.0 is Forward),
    {
        let ghost start = *self;
        let len: usize = frame.len();
        let key: u64 = session_key(&id);
        if !self.sessions.contains(key) {
            if !self.ask_to_open(a) {
                return (Action::Nothing, Ghost(Err(RelayAuthVerifyError::BadFormat)));
            }
        }
        let ghost gate = self@;
        let ticket: Result<VerifiedRelayTicket, RelayAuthVerifyError> = match parse_auth_hello_token(
            frame,
            len,
        ) {
            Err(error) => Err(error),
            Ok(token) => {
                proof {
                    vstd::utf8::encode_utf8_decode_utf8(token@);
                }
                verify_relay_ticket_once(token, id, &self.auth, a.now_unix, &mut self.replay, decode)
            },
        };
        let ghost told = ticket;
        assert(shown(told, frame@, start.auth, a.now_unix, decode, gate.replay, self@.replay));
        (self.greet(id, a, len, ticket), Ghost(told))
    }
}

/// Whether `after` and `action` are what the relay makes of a frame that is counted
/// and within its source's rate, with `ticket` as what became of its ticket.
pub open spec fn handled_by<F: Fn(&[u8]) -> Option<RelayTicketClaims>>(
    before: Relay,
    after: Relay,
    frame: Seq<u8>,
    a: Arrival,
    decode: F,
    action: ActionView,
    ticket: Result<VerifiedRelayTicket, RelayAuthVerifyError>,
) -> bool {
    let step = handled(before@, before.switches(), frame, a, ticket_view(ticket));
    &&& after@ == (RelayView { replay: after@.replay, ..step.relay })
    &&& action == step.action
    &&& if shows_ticket(before@, before.switches(), frame, a) {
        shown(ticket, frame, before.auth, a.now_unix, decode, before@.replay, after@.replay)
    } else {
        after@.replay == before@.replay
    }
}

/// Whether a frame is a hello whose ticket is looked at.
pub open spec fn ticket_looked_at(before: Relay, frame: Seq<u8>, a: Arrival) -> bool {
    &&& kind_of(frame) != FrameKind::TooShort
    &&& before@.limiter.has_room(a.client_addr.ip, SourceLimitKind::Packet, a.now)
    &&& shows_ticket(
        before@.counted(frame.len() as int).rated(a),
        before.switches(),
        frame,
        a,
    )
}

/// Whether `after` and `action` are what the relay makes of a frame, with `ticket` as
/// what became of its ticket.
pub open spec fn decided_by<F: Fn(&[u8]) -> Option<RelayTicketClaims>>(
    before: Relay,
    after: Relay,
    frame: Seq<u8>,
    a: Arrival,
    decode: F,
    action: ActionView,
    ticket: Result<VerifiedRelayTicket, RelayAuthVerifyError>,
) -> bool {
    let step = received(before@, before.switches(), frame, a, ticket_view(ticket));
    &&& after@ == (RelayView { replay: after@.replay, ..step.relay })
    &&& action == step.action
    &&& if ticket_looked_at(before, frame, a) {
        shown(ticket, frame, before.auth, a.now_unix, decode, before@.replay, after@.replay)
    } else {
        after@.replay == before@.replay
    }
}

/// Whether `after` and `action` are what the relay makes of a frame.
pub open spec fn decided<F: Fn(&[u8]) -> Option<RelayTicketClaims>>(
    before: Relay,
    after: Relay,
    frame: Seq<u8>,
    a: Arrival,
    decode: F,
    action: ActionView,
) -> bool {
    exists|ticket: Result<VerifiedRelayTicket, RelayAuthVerifyError>| #[trigger]
        decided_by(before, after, frame, a, decode, action, ticket)
}

proof fn lemma_decided<F: Fn(&[u8]) -> Option<RelayTicketClaims>>(
    before: Relay,
    after: Relay,
    frame: Seq<u8>,
    a: Arrival,
    decode: F,
    action: ActionView,
    ticket: Result<VerifiedRelayTicket, RelayAuthVerifyError>,
)
    requires
        decided_by(before, after, frame, a, decode, action, ticket),
    ensures
        decided(before, after, frame, a, decode, action),
{
}

/// Where tickets are needed, traffic that shows none opens no session and takes no
/// room from any source.
pub proof fn unsigned_traffic_opens_no_session(
    v: RelayView,
    on: Switches,
    frame: Seq<u8>,
    a: Arrival,
    ticket: Result<TicketView, RelayAuthVerifyError>,
)
    requires
        on.auth_mode != RelayAuthMode::Off,
        kind_of(frame) != FrameKind::Hello || ticket is Err,
    ensures
        ({
            let after = received(v, on, frame, a, ticket).relay;
            &&& after.sessions.dom() == v.sessions.dom()
            &&& after.counts == v.counts
            &&& after.stats.active_sessions == v.stats.active_sessions
        }),
{
    let after = received(v, on, frame, a, ticket).relay;
    assert(after.sessions.dom() =~= v.sessions.dom());
}

/// Where tickets are needed, a session that has shown one keeps its owner for as long
/// as it lives, and moves to another endpoint only by a valid ticket of that owner,
/// shown from there.
#[verifier::rlimit(30)]
pub proof fn only_the_owner_moves_a_session(
    v: RelayView,
    on: Switches,
    frame: Seq<u8>,
    a: Arrival,
    ticket: Result<TicketView, RelayAuthVerifyError>,
    key: u64,
)
    requires
        on.auth_mode != RelayAuthMode::Off,
        v.sessions.contains_key(key),
        v.sessions[key].auth_state == SessionAuthState::Authenticated,
    ensures
        ({
            let before = v.sessions[key];
            let after = received(v, on, frame, a, ticket).relay.sessions;
            &&& after.contains_key(key)
            &&& after[key].user_id == before.user_id
            &&& after[key].auth_state == SessionAuthState::Authenticated
            &&& after[key].client_addr != before.client_addr ==> {
                &&& kind_of(frame) == FrameKind::Hello
                &&& key == be64(frame.subrange(0, 8))
                &&& ticket is Ok
                &&& ticket->Ok_0.user_id == before.user_id
                &&& after[key].client_addr == a.client_addr
            }
        }),
{
}

/// Where tickets are needed, nothing is done for a session unless its ticket holds and
/// the frame comes from its own endpoint; all that another sender gets is an answer to
/// a hello or a request for a ticket.
pub proof fn service_needs_a_ticket(
    v: RelayView,
    on: Switches,
    frame: Seq<u8>,
    a: Arrival,
    ticket: Result<TicketView, RelayAuthVerifyError>,
)
    requires
        on.auth_mode != RelayAuthMode::Off,
    ensures
        ({
            let id = frame.subrange(0, 8);
            let key = be64(id) as u64;
            let action = received(v, on, frame, a, ticket).action;
            let served = v.sessions.contains_key(key) && v.sessions[key].current(a.now_unix)
                && v.sessions[key].client_addr == a.client_addr;
            !served ==> action is Nothing || exists|status: u8|
                action == ActionView::Reply(#[trigger] auth_ack(id, status))
        }),
{
}

/// A frame of a live session from another endpoint is answered with a request for a
/// ticket, whatever the frame is, unless it is a hello, and changes nothing of the
/// session.
pub proof fn a_new_endpoint_is_asked_for_a_ticket(
    v: RelayView,
    on: Switches,
    frame: Seq<u8>,
    a: Arrival,
    ticket: Result<TicketView, RelayAuthVerifyError>,
)
    requires
        on.auth_mode != RelayAuthMode::Off,
        kind_of(frame) != FrameKind::TooShort,
        kind_of(frame) != FrameKind::Hello,
        v.limiter.has_room(a.client_addr.ip, SourceLimitKind::Packet, a.now),
        ({
            let key = be64(frame.subrange(0, 8)) as u64;
            &&& v.sessions.contains_key(key)
            &&& v.sessions[key].current(a.now_unix)
            &&& v.sessions[key].client_addr != a.client_addr
        }),
    ensures
        received(v, on, frame, a, ticket).action == ActionView::Reply(
            auth_ack(frame.subrange(0, 8), AUTH_ACK_PROOF_REQUIRED),
        ),
        received(v, on, frame, a, ticket).relay.sessions == v.sessions,
{
    assert(received(v, on, frame, a, ticket).relay.sessions =~= v.sessions);
}

/// A valid ticket of somebody else is answered as such, and all that it can do for the
/// session is to count as activity, if it comes from the session's own endpoint.
pub proof fn a_strangers_ticket_moves_nothing(
    v: RelayView,
    on: Switches,
    frame: Seq<u8>,
    a: Arrival,
    t: TicketView,
)
    requires
        on.auth_mode != RelayAuthMode::Off,
        kind_of(frame) == FrameKind::Hello,
        v.limiter.has_room(a.client_addr.ip, SourceLimitKind::Packet, a.now),
        ({
            let key = be64(frame.subrange(0, 8)) as u64;
            v.sessions.contains_key(key) && owned_by_other(v.sessions[key], t)
        }),
    ensures
        ({
            let id = frame.subrange(0, 8);
            let key = be64(id) as u64;
            let step = received(v, on, frame, a, Ok(t));
            let s = v.sessions[key];
            &&& step.action == ActionView::Reply(auth_ack(id, AUTH_ACK_OWNER_MISMATCH))
            &&& step.relay.sessions == v.sessions.insert(
                key,
                if s.client_addr == a.client_addr {
                    s.active(a.now, a.now_unix)
                } else {
                    s
                },
            )
        }),
{
}

/// A valid ticket of a session's owner renews the session at the endpoint that it was
/// shown from.
pub proof fn the_owners_ticket_moves_the_session(
    v: RelayView,
    on: Switches,
    frame: Seq<u8>,
    a: Arrival,
    t: TicketView,
)
    requires
        on.auth_mode != RelayAuthMode::Off,
        kind_of(frame) == FrameKind::Hello,
        v.limiter.has_room(a.client_addr.ip, SourceLimitKind::Packet, a.now),
        ({
            let key = be64(frame.subrange(0, 8)) as u64;
            v.sessions.contains_key(key) && !owned_by_other(v.sessions[key], t)
        }),
    ensures
        ({
            let id = frame.subrange(0, 8);
            let key = be64(id) as u64;
            let step = received(v, on, frame, a, Ok(t));
            &&& step.action == ActionView::Reply(auth_ack(id, AUTH_ACK_OK))
            &&& step.relay.sessions == v.sessions.insert(
                key,
                ticket_session(t, v.sessions[key].created_at_unix, a),
            )
        }),
{
    let key = be64(frame.subrange(0, 8)) as u64;
    let s = ticket_session(t, v.sessions[key].created_at_unix, a);
    assert(received(v, on, frame, a, Ok(t)).relay.sessions =~= v.sessions.insert(key, s));
}

/// A ping from a session's own endpoint is answered, while its ticket holds.
pub proof fn pings_from_the_endpoint_are_answered(
    v: RelayView,
    on: Switches,
    frame: Seq<u8>,
    a: Arrival,
    ticket: Result<TicketView, RelayAuthVerifyError>,
)
    requires
        on.auth_mode != RelayAuthMode::Off,
        kind_of(frame) == FrameKind::Ping,
        v.limiter.has_room(a.client_addr.ip, SourceLimitKind::Packet, a.now),
        ({
            let key = be64(frame.subrange(0, 8)) as u64;
            &&& v.sessions.contains_key(key)
            &&& v.sessions[key].current(a.now_unix)
            &&& v.sessions[key].client_addr == a.client_addr
        }),
    ensures
        received(v, on, frame, a, ticket).action == ActionView::Reply(pong(frame, a.uptime_ms)),
{
}

/// A frame that the relay has received, and what came of it.
pub ghost struct Exchange {
    pub before: Relay,
    pub frame: Seq<u8>,
    pub at: Arrival,
    pub ticket: Result<VerifiedRelayTicket, RelayAuthVerifyError>,
    pub action: ActionView,
    pub after: Relay,
}

impl Exchange {
    /// Whether it is what [`Relay::receive`] does, with `ticket` as what became of the
    /// frame's ticket.
    #[verifier::opaque]
    pub open spec fn took_place<F: Fn(&[u8]) -> Option<RelayTicketClaims>>(self, decode: F) -> bool {
        &&& self.after.same_setup(self.before)
        &&& decided_by(
            self.before,
            self.after,
            self.frame,
            self.at,
            decode,
            self.action,
            self.ticket,
        )
    }

    /// Whether it is about the session and within its source's rate.
    pub open spec fn concerns(self, id: Seq<u8>) -> bool {
        &&& kind_of(self.frame) != FrameKind::TooShort
        &&& self.frame.subrange(0, 8) == id
        &&& self.before@.limiter.has_room(
            self.at.client_addr.ip,
            SourceLimitKind::Packet,
            self.at.now,
        )
    }
}

/// One exchange: the setup stays, and sessions and action are those of the frame.
proof fn lemma_exchange<F: Fn(&[u8]) -> Option<RelayTicketClaims>>(x: Exchange, decode: F)
    requires
        x.took_place(decode),
    ensures
        x.after.auth.mode == x.before.auth.mode,
        ({
            let step = received(x.before@, x.before.switches(), x.frame, x.at, ticket_view(x.ticket));
            x.after@.sessions == step.relay.sessions && x.action == step.action
        }),
{
    reveal(Exchange::took_place);
}

/// [`a_new_endpoint_is_asked_for_a_ticket`] of an exchange.
proof fn lemma_asked<F: Fn(&[u8]) -> Option<RelayTicketClaims>>(x: Exchange, id: Seq<u8>, decode: F)
    requires
        x.took_place(decode),
        x.concerns(id),
        x.before.auth.mode != RelayAuthMode::Off,
        kind_of(x.frame) == FrameKind::Ping,
        ({
            let s = x.before@.sessions;
            let key = be64(id) as u64;
            s.contains_key(key) && s[key].current(x.at.now_unix) && s[key].client_addr
                != x.at.client_addr
        }),
    ensures
        x.after.auth.mode == x.before.auth.mode,
        x.action == ActionView::Reply(auth_ack(id, AUTH_ACK_PROOF_REQUIRED)),
        x.after@.sessions == x.before@.sessions,
{
    lemma_exchange(x, decode);
    a_new_endpoint_is_asked_for_a_ticket(
        x.before@,
        x.before.switches(),
        x.frame,
        x.at,
        ticket_view(x.ticket),
    );
}

/// [`a_strangers_ticket_moves_nothing`] of an exchange from another endpoint.
proof fn lemma_refused<F: Fn(&[u8]) -> Option<RelayTicketClaims>>(x: Exchange, id: Seq<u8>, decode: F)
    requires
        x.took_place(decode),
        x.concerns(id),
        x.before.auth.mode != RelayAuthMode::Off,
        kind_of(x.frame) == FrameKind::Hello,
        x.ticket is Ok,
        ({
            let s = x.before@.sessions;
            let key = be64(id) as u64;
            s.contains_key(key) && owned_by_other(s[key], x.ticket->Ok_0@) && s[key].client_addr
                != x.at.client_addr
        }),
    ensures
        x.after.auth.mode == x.before.auth.mode,
        x.action == ActionView::Reply(auth_ack(id, AUTH_ACK_OWNER_MISMATCH)),
        x.after@.sessions == x.before@.sessions,
{
    lemma_exchange(x, decode);
    a_strangers_ticket_moves_nothing(
        x.before@,
        x.before.switches(),
        x.frame,
        x.at,
        x.ticket->Ok_0@,
    );
    let key = be64(id) as u64;
    assert(x.before@.sessions.insert(key, x.before@.sessions[key]) =~= x.before@.sessions);
}

/// [`the_owners_ticket_moves_the_session`] of an exchange.
proof fn lemma_renewed<F: Fn(&[u8]) -> Option<RelayTicketClaims>>(x: Exchange, id: Seq<u8>, decode: F)
    requires
        x.took_place(decode),
        x.concerns(id),
        x.before.auth.mode != RelayAuthMode::Off,
        kind_of(x.frame) == FrameKind::Hello,
        x.ticket is Ok,
        ({
            let s = x.before@.sessions;
            let key = be64(id) as u64;
            s.contains_key(key) && !owned_by_other(s[key], x.ticket->Ok_0@)
        }),
    ensures
        x.after.auth.mode == x.before.auth.mode,
        x.action == ActionView::Reply(auth_ack(id, AUTH_ACK_OK)),
        ({
            let s = x.before@.sessions;
            let key = be64(id) as u64;
            x.after@.sessions == s.insert(
                key,
                ticket_session(x.ticket->Ok_0@, s[key].created_at_unix, x.at),
            )
        }),
{
    lemma_exchange(x, decode);
    the_owners_ticket_moves_the_session(
        x.before@,
        x.before.switches(),
        x.frame,
        x.at,
        x.ticket->Ok_0@,
    );
}

/// [`pings_from_the_endpoint_are_answered`] of an exchange.
proof fn lemma_answered<F: Fn(&[u8]) -> Option<RelayTicketClaims>>(x: Exchange, id: Seq<u8>, decode: F)
    requires
        x.took_place(decode),
        x.concerns(id),
        x.before.auth.mode != RelayAuthMode::Off,
        kind_of(x.frame) == FrameKind::Ping,
        ({
            let s = x.before@.sessions;
            let key = be64(id) as u64;
            s.contains_key(key) && s[key].current(x.at.now_unix) && s[key].client_addr
                == x.at.client_addr
        }),
    ensures
        x.action == ActionView::Reply(pong(x.frame, x.at.uptime_ms)),
{
    lemma_exchange(x, decode);
    pings_from_the_endpoint_are_answered(
        x.before@,
        x.before.switches(),
        x.frame,
        x.at,
        ticket_view(x.ticket),
    );
}

/// Where tickets are needed, a session with the endpoint A changes it to B like this: a
/// ping from B is answered with a request for a ticket; somebody else's valid ticket
/// from B is refused and A stays the endpoint; the owner's valid ticket from B is
/// accepted and makes B the endpoint. From then on a ping from A is answered with a
/// request for a ticket, and one from B by a pong. Each step is within its source's
/// rate, and the ticket that the session rests on holds when a ping comes.
pub proof fn the_endpoint_follows_the_owners_ticket<F: Fn(&[u8]) -> Option<RelayTicketClaims>>(
    steps: Seq<Exchange>,
    id: Seq<u8>,
    b: SocketAddr,
    decode: F,
)
    requires
        steps.len() == 5,
        forall|i: int| 0 <= i < 5 ==> (#[trigger] steps[i]).took_place(decode) && steps[i].concerns(id),
        forall|i: int| 0 < i < 5 ==> (#[trigger] steps[i]).before == steps[i - 1].after,
        steps[0].before.auth.mode != RelayAuthMode::Off,
        ({
            let key = be64(id) as u64;
            let start = steps[0].before@.sessions;
            let s = start[key];
            &&& start.contains_key(key)
            &&& s.current(steps[0].at.now_unix)
            &&& s.client_addr != b
            &&& kind_of(steps[0].frame) == FrameKind::Ping
            &&& steps[0].at.client_addr == b
            &&& kind_of(steps[1].frame) == FrameKind::Hello
            &&& steps[1].at.client_addr == b
            &&& steps[1].ticket is Ok && steps[1].ticket->Ok_0@.user_id != s.user_id
            &&& kind_of(steps[2].frame) == FrameKind::Hello
            &&& steps[2].at.client_addr == b
            &&& steps[2].ticket is Ok && steps[2].ticket->Ok_0@.user_id == s.user_id
            &&& kind_of(steps[3].frame) == FrameKind::Ping
            &&& steps[3].at.client_addr == s.client_addr
            &&& kind_of(steps[4].frame) == FrameKind::Ping
            &&& steps[4].at.client_addr == b
            &&& forall|i: int|
                3 <= i < 5 ==> ticket_session(
                    steps[2].ticket->Ok_0@,
                    s.created_at_unix,
                    steps[2].at,
                ).current((#[trigger] steps[i]).at.now_unix)
        }),
    ensures
        ({
            let key = be64(id) as u64;
            let ack = |status: u8| ActionView::Reply(auth_ack(id, status));
            &&& steps[0].action == ack(AUTH_ACK_PROOF_REQUIRED)
            &&& steps[0].after@.sessions == steps[0].before@.sessions
            &&& steps[1].action == ack(AUTH_ACK_OWNER_MISMATCH)
            &&& steps[1].after@.sessions == steps[0].before@.sessions
            &&& steps[2].action == ack(AUTH_ACK_OK)
            &&& steps[2].after@.sessions.contains_key(key)
            &&& steps[2].after@.sessions[key].client_addr == b
            &&& steps[3].action == ack(AUTH_ACK_PROOF_REQUIRED)
            &&& steps[3].after@.sessions == steps[2].after@.sessions
            &&& steps[4].action == ActionView::Reply(pong(steps[4].frame, steps[4].at.uptime_ms))
        }),
{
    lemma_asked(steps[0], id, decode);
    assert(steps[1].before == steps[0].after);
    lemma_refused(steps[1], id, decode);
    assert(steps[2].before == steps[1].after);
    lemma_renewed(steps[2], id, decode);
    assert(steps[3].before == steps[2].after);
    lemma_asked(steps[3], id, decode);
    assert(steps[4].before == steps[3].after);
    lemma_answered(steps[4], id, decode);
}

/// Nothing is forwarded to a forbidden address or, over UDP, to a forbidden port, and
/// an enforced policy has nothing forwarded that is not on its list.
pub proof fn refused_destinations_are_never_forwarded(
    v: RelayView,
    on: Switches,
    frame: Seq<u8>,
    a: Arrival,
    ticket: Result<TicketView, RelayAuthVerifyError>,
)
    ensures
        ({
            let action = received(v, on, frame, a, ticket).action;
            let p = packet_view(frame.subrange(8, frame.len() as int));
            action is Forward || action is Tun ==> {
                let d = destination_of(p->Some_0);
                &&& p is Some
                &&& !crate::packet::forbidden_ip(d.dst_ip)
                &&& d.protocol == IPPROTO_UDP && d.dst_port is Some ==> !forbidden_port(
                    d.dst_port->Some_0,
                )
                &&& v.policy.lets_through(d.protocol, d.dst_ip, d.dst_port)
            }
        }),
{
}

/// Every frame is counted, with all of its bytes.
pub proof fn every_frame_is_counted(
    v: RelayView,
    on: Switches,
    frame: Seq<u8>,
    a: Arrival,
    ticket: Result<TicketView, RelayAuthVerifyError>,
)
    ensures
        ({
            let after = received(v, on, frame, a, ticket).relay.stats;
            &&& after.packets_in == v.stats.received(frame.len() as int).packets_in
            &&& after.bytes_in == v.stats.received(frame.len() as int).bytes_in
        }),
{
}

/// How long a session may be idle, in nanoseconds.
pub const SESSION_IDLE_LIMIT_NS: u64 = 210_000_000_000;

/// Whether a session has been idle for too long.
pub open spec fn expired(s: SessionView, now: u64) -> bool {
    beyond(now, s.last_activity) >= SESSION_IDLE_LIMIT_NS
}

/// The sessions that are not expired.
pub open spec fn unexpired_sessions(m: Map<u64, SessionView>, now: u64) -> Map<u64, SessionView> {
    m.restrict(Set::new(|key: u64| m.contains_key(key) && !expired(m[key], now)))
}

/// The sessions that are expired.
pub open spec fn expired_sessions(m: Map<u64, SessionView>, now: u64) -> Set<u64> {
    Set::new(|key: u64| m.contains_key(key) && expired(m[key], now))
}

/// Whether `after` is `before` without the sessions that are expired, which are `gone`,
/// and without their traffic.
pub open spec fn sessions_expired(before: RelayView, after: RelayView, now: u64, gone: Seq<u64>) -> bool {
    &&& gone.no_duplicates()
    &&& forall|key: u64| gone.contains(key) <==> expired_sessions(before.sessions, now).contains(key)
    &&& after == (RelayView {
        sessions: unexpired_sessions(before.sessions, now),
        counts: after.counts,
        traffic: before.traffic.remove_keys(expired_sessions(before.sessions, now)),
        stats: Stats {
            active_sessions: unexpired_sessions(before.sessions, now).dom().len() as u64,
            ..before.stats
        },
        ..before
    })
}

impl RelayView {
    /// With activity of a session from its game server.
    pub open spec fn with_activity(self, key: u64, now: u64, now_unix: u64) -> RelayView {
        RelayView {
            sessions: if self.sessions.contains_key(key) {
                self.sessions.insert(key, self.sessions[key].active(now, now_unix))
            } else {
                self.sessions
            },
            ..self
        }
    }

    /// With a packet that was handed to the device, or was not.
    pub open spec fn handed(self, protocol: u8, accepted: bool) -> RelayView {
        RelayView {
            stats: if !accepted {
                self.stats.with_drop_in(DropReason::TunQueue)
            } else if protocol == IPPROTO_TCP {
                Stats { tcp_forwarded: next(self.stats.tcp_forwarded), ..self.stats }
            } else {
                Stats { tun_udp_forwarded: next(self.stats.tun_udp_forwarded), ..self.stats }
            },
            ..self
        }
    }

    /// With a frame sent to the client of a session.
    pub open spec fn with_frame_sent(self, key: u64, len: int, now_unix: u64) -> RelayView {
        RelayView {
            stats: self.stats.sent(len),
            traffic: egress(self.traffic, key, now_unix, len),
            ..self
        }
    }

    /// With a frame sent to the client of a session that is no activity.
    pub open spec fn with_reply_sent(self, key: u64, len: int) -> RelayView {
        RelayView { stats: self.stats.sent(len), traffic: idle_egress(self.traffic, key, len), ..self }
    }
}

impl Relay {
    /// Notes that a session has activity from its game server.
    pub fn mark_active(&mut self, key: u64, now: u64, now_unix: u64)
        requires
            old(self).wf(),
        ensures
            final(self).wf(),
            final(self).same_setup(*old(self)),
            final(self)@ == old(self)@.with_activity(key, now, now_unix),
    {
        let ghost before = self.sessions@;
        let ghost counts = self.source_counts@;
        if let Some(session) = self.sessions.take(key) {
            let mut session: SessionEntry = session;
            session.last_activity = now;
            session.last_activity_unix = now_unix;
            proof {
                lemma_counts_rebind(before, counts, key, session@);
                assert(before.remove(key).insert(key, session@) =~= before.insert(key, session@));
                assert(before.insert(key, session@).dom() =~= before.dom());
            }
            self.sessions.put(key, session);
        }
    }

    /// Notes whether a packet was handed to the device.
    pub fn tun_handed(&mut self, protocol: u8, accepted: bool)
        requires
            old(self).wf(),
        ensures
            final(self).wf(),
            final(self).same_setup(*old(self)),
            final(self)@ == old(self)@.handed(protocol, accepted),
    {
        if !accepted {
            self.stats.drop_in(DropReason::TunQueue);
        } else if protocol == IPPROTO_TCP {
            self.stats.tcp_forwarded = self.stats.tcp_forwarded.wrapping_add(1);
        } else {
            self.stats.tun_udp_forwarded = self.stats.tun_udp_forwarded.wrapping_add(1);
        }
    }

    /// Notes that a frame with a flow's response, or one of the send queue, was sent to
    /// the client of a session.
    pub fn frame_sent(&mut self, key: u64, len: usize, now_unix: u64)
        requires
            old(self).wf(),
        ensures
            final(self).wf(),
            final(self).same_setup(*old(self)),
            final(self)@ == old(self)@.with_frame_sent(key, len as int, now_unix),
    {
        self.stats.send(len);
        self.traffic.record_egress(key, now_unix, len);
    }

    /// Notes that a pong, or a packet out of the device, was sent to the client of a
    /// session. That is traffic, but no activity of the session.
    pub fn reply_sent(&mut self, key: u64, len: usize)
        requires
            old(self).wf(),
        ensures
            final(self).wf(),
            final(self).same_setup(*old(self)),
            final(self)@ == old(self)@.with_reply_sent(key, len as int),
    {
        self.stats.send(len);
        self.traffic.record_idle_egress(key, len);
    }

    /// Forgets the sessions that are expired, with their traffic; returns them.
    pub fn expire_sessions(&mut self, now: u64) -> (r: Vec<u64>)
        requires
            old(self).wf(),
        ensures
            final(self).wf(),
            final(self).same_setup(*old(self)),
            sessions_expired(old(self)@, final(self)@, now, r@),
    {
        let ghost start = *self;
        let ghost m = self@.sessions;
        let keys = self.sessions.keys();
        let mut gone: Vec<u64> = Vec::new();
        let mut i: usize = 0;
        assert forall|j: int| 0 <= j < keys@.len() implies m.contains_key(#[trigger] keys@[j]) by {
            assert(keys@.contains(keys@[j]));
        }
        assert(self@.traffic =~= start@.traffic.remove_keys(gone@.to_set()));
        while i < keys.len()
            invariant
                i <= keys@.len(),
                keys@.no_duplicates(),
                m == start@.sessions,
                forall|key: u64| keys@.contains(key) <==> m.contains_key(key),
                forall|j: int| 0 <= j < keys@.len() ==> m.contains_key(#[trigger] keys@[j]),
                self.wf(),
                self.same_setup(start),
                self@.limiter == start@.limiter,
                self@.replay == start@.replay,
                self@.policy == start@.policy,
                self.stats == (Stats { active_sessions: self.stats.active_sessions, ..start.stats }),
                self@.traffic == start@.traffic.remove_keys(gone@.to_set()),
                gone@.no_duplicates(),
                forall|j: int| 0 <= j < gone@.len() ==> keys@.take(i as int).contains(#[trigger] gone@[j]),
                forall|j: int|
                    0 <= j < i ==> gone@.contains(#[trigger] keys@[j]) == expired(m[keys@[j]], now),
                forall|key: u64| #[trigger]
                    self@.sessions.contains_key(key) <==> m.contains_key(key) && !gone@.contains(key),
                forall|key: u64| #[trigger]
                    self@.sessions.contains_key(key) ==> self@.sessions[key] == m[key],
            decreases keys.len() - i,
        {
            let key: u64 = keys[i];
            let ghost done = gone@;
            let ghost before = self@.sessions;
            let ghost counts = self.source_counts@;
            let ghost traffic = self@.traffic;
            proof {
                assert(keys@.contains(keys@[i as int]));
                if done.contains(key) {
                    let j = choose|j: int| 0 <= j < done.len() && done[j] == key;
                    assert(keys@.take(i as int).contains(done[j]));
                    let k = choose|k: int| 0 <= k < i && keys@.take(i as int)[k] == key;
                    assert(keys@[k] == keys@[i as int]);
                }
                assert(self@.sessions.contains_key(key));
            }
            if let Some(session) = self.sessions.get(key) {
                let idle: bool = now >= session.last_activity && now - session.last_activity
                    >= SESSION_IDLE_LIMIT_NS;
                if idle {
                    proof {
                        lemma_counts_close(before, counts, key);
                    }
                    let _ = self.sessions.take(key);
                    self.traffic.remove(key);
                    decrement_source_session_count(&mut self.source_counts, session.client_addr.ip);
                    self.stats.active_sessions = self.stats.active_sessions.wrapping_sub(1);
                    gone.push(key);
                    proof {
                        assert(gone@ =~= done.push(key));
                        assert(gone@.to_set() =~= done.to_set().insert(key)) by {
                            assert forall|x: u64| gone@.to_set().contains(x) == done.to_set().insert(
                                key,
                            ).contains(x) by {
                                if done.contains(x) {
                                    let j = choose|j: int| 0 <= j < done.len() && done[j] == x;
                                    assert(gone@[j] == x);
                                }
                                if gone@.contains(x) {
                                    let j = choose|j: int| 0 <= j < gone@.len() && gone@[j] == x;
                                    if j < done.len() {
                                        assert(done[j] == x);
                                    }
                                }
                                assert(gone@[done.len() as int] == key);
                            }
                        }
                        assert(self@.traffic =~= start@.traffic.remove_keys(gone@.to_set()));
                        assert(gone@[done.len() as int] == key);
                    }
                }
            }
            proof {
                lemma_gone(keys@, done, gone@, i as int, key, m, now);
                assert forall|x: u64| #[trigger]
                    self@.sessions.contains_key(x) <==> m.contains_key(x) && !gone@.contains(x) by {
                    lemma_pushed(done, gone@, key, x);
                }
            }
            i = i + 1;
        }
        proof {
            let dead = expired_sessions(m, now);
            assert forall|key: u64| gone@.contains(key) <==> dead.contains(key) by {
                if gone@.contains(key) {
                    let j = choose|j: int| 0 <= j < gone@.len() && gone@[j] == key;
                    assert(keys@.take(i as int).contains(gone@[j]));
                    let k = choose|k: int| 0 <= k < i && keys@.take(i as int)[k] == key;
                    assert(keys@[k] == key);
                    assert(gone@.contains(keys@[k]) == expired(m[keys@[k]], now));
                }
                if dead.contains(key) {
                    assert(keys@.contains(key));
                    let k = choose|k: int| 0 <= k < keys@.len() && keys@[k] == key;
                    assert(gone@.contains(keys@[k]) == expired(m[keys@[k]], now));
                }
            }
            assert(gone@.to_set() =~= dead);
            assert(self@.sessions =~= unexpired_sessions(m, now));
        }
        gone
    }
}

/// Membership after an optional push.
proof fn lemma_pushed(done: Seq<u64>, gone: Seq<u64>, key: u64, x: u64)
    requires
        gone == done || gone == done.push(key),
    ensures
        gone.contains(x) <==> done.contains(x) || gone != done && x == key,
{
    if gone != done {
        if done.contains(x) {
            let j = choose|j: int| 0 <= j < done.len() && done[j] == x;
            assert(gone[j] == x);
        }
        if gone.contains(x) {
            let j = choose|j: int| 0 <= j < gone.len() && gone[j] == x;
            if j < done.len() {
                assert(done[j] == x);
            }
        }
        assert(gone[done.len() as int] == key);
    }
}

/// One key further through the sessions.
proof fn lemma_gone(
    keys: Seq<u64>,
    done: Seq<u64>,
    gone: Seq<u64>,
    i: int,
    key: u64,
    m: Map<u64, SessionView>,
    now: u64,
)
    requires
        0 <= i < keys.len(),
        keys.no_duplicates(),
        key == keys[i],
        done.no_duplicates(),
        !done.contains(key),
        gone == if expired(m[key], now) {
            done.push(key)
        } else {
            done
        },
        forall|j: int| 0 <= j < done.len() ==> keys.take(i).contains(#[trigger] done[j]),
        forall|j: int| 0 <= j < i ==> done.contains(#[trigger] keys[j]) == expired(m[keys[j]], now),
    ensures
        gone.no_duplicates(),
        forall|j: int| 0 <= j < gone.len() ==> keys.take(i + 1).contains(#[trigger] gone[j]),
        forall|j: int| 0 <= j < i + 1 ==> gone.contains(#[trigger] keys[j]) == expired(m[keys[j]], now),
{
    assert forall|j: int| 0 <= j < gone.len() implies keys.take(i + 1).contains(#[trigger] gone[j]) by {
        if j < done.len() {
            assert(gone[j] == done[j]);
            let k = choose|k: int| 0 <= k < i && keys.take(i)[k] == done[j];
            assert(keys.take(i + 1)[k] == gone[j]);
        } else {
            assert(keys.take(i + 1)[i] == gone[j]);
        }
    }
    assert forall|j: int| 0 <= j < i + 1 implies gone.contains(#[trigger] keys[j]) == expired(
        m[keys[j]],
        now,
    ) by {
        lemma_pushed(done, gone, key, keys[j]);
        if j < i {
            assert(keys[j] != keys[i]);
        }
    }
}

/// Where the answers to a session's packets go, while it may have them.
pub open spec fn return_address(m: Map<u64, SessionView>, key: u64, auth_required: bool, now_unix: u64) -> Option<
    SocketAddr,
> {
    if m.contains_key(key) && (!auth_required || m[key].current(now_unix)) {
        Some(m[key].client_addr)
    } else {
        None
    }
}

pub fn forwarding_addr(sessions: &SessionTable, key: u64, auth_required: bool, now_unix: u64) -> (r: Option<
    SocketAddr,
>)
    ensures
        r == return_address(sessions@, key, auth_required, now_unix),
{
    match sessions.get(key) {
        None => None,
        Some(session) => {
            if !auth_required || session_auth_is_current(&session, now_unix) {
                Some(session.client_addr)
            } else {
                None
            }
        },
    }
}

/// Where tickets are needed, every frame that is no hello, be it a keepalive, a ping, a
/// packet or any other, from a session's own endpoint and within its source's rate, is
/// activity of the session now. So the session is not forgotten until it has been idle
/// for 210 seconds from then on. Nothing else of the session changes, except that a
/// session without a ticket is named by its packets.
pub proof fn frames_from_the_endpoint_are_activity(
    v: RelayView,
    on: Switches,
    frame: Seq<u8>,
    a: Arrival,
    ticket: Result<TicketView, RelayAuthVerifyError>,
    later: u64,
)
    requires
        on.auth_mode != RelayAuthMode::Off,
        frame.len() >= 8,
        !(frame.len() >= 11 && frame[8] == 0xA1),
        v.limiter.has_room(a.client_addr.ip, SourceLimitKind::Packet, a.now),
        v.sessions.contains_key(be64(frame.subrange(0, 8)) as u64),
        v.sessions[be64(frame.subrange(0, 8)) as u64].client_addr == a.client_addr,
    ensures
        ({
            let key = be64(frame.subrange(0, 8)) as u64;
            let after = received(v, on, frame, a, ticket).relay.sessions;
            let s = v.sessions[key];
            &&& after.contains_key(key)
            &&& after[key].last_activity == a.now
            &&& after[key].last_activity_unix == a.now_unix
            &&& after[key].client_addr == s.client_addr
            &&& after[key].auth_state == s.auth_state
            &&& after[key].lease_expires_at_unix == s.lease_expires_at_unix
            &&& after[key].created_at_unix == s.created_at_unix
            &&& s.auth_state == SessionAuthState::Authenticated ==> after[key].user_id == s.user_id
            &&& later < a.now + 210_000_000_000 ==> unexpired_sessions(after, later).contains_key(key)
                && !expired_sessions(after, later).contains(key)
        }),
{
    let key = be64(frame.subrange(0, 8)) as u64;
    lemma_activity(v, on, frame, a, ticket);
    let after = received(v, on, frame, a, ticket).relay.sessions;
    assert(after.contains_key(key));
}

/// The session of a frame from its own endpoint.
#[verifier::rlimit(30)]
proof fn lemma_activity(
    v: RelayView,
    on: Switches,
    frame: Seq<u8>,
    a: Arrival,
    ticket: Result<TicketView, RelayAuthVerifyError>,
)
    requires
        on.auth_mode != RelayAuthMode::Off,
        kind_of(frame) != FrameKind::TooShort,
        kind_of(frame) != FrameKind::Hello,
        v.limiter.has_room(a.client_addr.ip, SourceLimitKind::Packet, a.now),
        v.sessions.contains_key(be64(frame.subrange(0, 8)) as u64),
        v.sessions[be64(frame.subrange(0, 8)) as u64].client_addr == a.client_addr,
    ensures
        ({
            let key = be64(frame.subrange(0, 8)) as u64;
            let after = received(v, on, frame, a, ticket).relay.sessions;
            let s = v.sessions[key].active(a.now, a.now_unix);
            &&& after.contains_key(key)
            &&& after[key] == s || s.auth_state != SessionAuthState::Authenticated && after[key]
                == (SessionView { user_id: after[key].user_id, ..s })
        }),
{
}

/// Where tickets are needed, no frame but a hello from another endpoint is activity of a
/// session: it leaves the session, its endpoint and its times as they are.
pub proof fn frames_from_elsewhere_are_no_activity(
    v: RelayView,
    on: Switches,
    frame: Seq<u8>,
    a: Arrival,
    ticket: Result<TicketView, RelayAuthVerifyError>,
)
    requires
        on.auth_mode != RelayAuthMode::Off,
        frame.len() >= 8,
        !(frame.len() >= 11 && frame[8] == 0xA1),
        v.sessions.contains_key(be64(frame.subrange(0, 8)) as u64),
        v.sessions[be64(frame.subrange(0, 8)) as u64].client_addr != a.client_addr,
        v.sessions[be64(frame.subrange(0, 8)) as u64].auth_state == SessionAuthState::Authenticated,
    ensures
        received(v, on, frame, a, ticket).relay.sessions == v.sessions,
        received(v, on, frame, a, ticket).action is Nothing || received(v, on, frame, a, ticket).action
            is Reply,
{
    assert(received(v, on, frame, a, ticket).relay.sessions =~= v.sessions);
}

/// A session is forgotten when it has been idle for 210 seconds, and not before; the
/// others stay as they are.
pub proof fn sessions_are_forgotten_after_210_seconds(m: Map<u64, SessionView>, now: u64, key: u64)
    requires
        m.contains_key(key),
    ensures
        expired_sessions(m, now).contains(key) <==> now >= m[key].last_activity + 210_000_000_000,
        unexpired_sessions(m, now).contains_key(key) <==> now < m[key].last_activity + 210_000_000_000,
        unexpired_sessions(m, now).contains_key(key) ==> unexpired_sessions(m, now)[key] == m[key],
        unexpired_sessions(m, now).dom().subset_of(m.dom()),
{
}

/// Where no tickets are needed, a frame within its source's rate has its session open at
/// the endpoint that it came from, active now, whoever it is from; a session that is new
/// begins now, without a ticket, and only within the limits.
pub proof fn open_relays_take_everybody(
    v: RelayView,
    on: Switches,
    frame: Seq<u8>,
    a: Arrival,
    ticket: Result<TicketView, RelayAuthVerifyError>,
)
    requires
        on.auth_mode == RelayAuthMode::Off,
        frame.len() >= 8,
        v.limiter.has_room(a.client_addr.ip, SourceLimitKind::Packet, a.now),
    ensures
        ({
            let key = be64(frame.subrange(0, 8)) as u64;
            let step = received(v, on, frame, a, ticket);
            let after = step.relay.sessions;
            let w = v.counted(frame.len() as int).rated(a);
            let known = v.sessions.contains_key(key);
            &&& known || w.may_open(on, a) ==> {
                &&& after.contains_key(key)
                &&& after[key].client_addr == a.client_addr
                &&& after[key].last_activity == a.now
                &&& after[key].last_activity_unix == a.now_unix
                &&& known ==> after[key].auth_state == v.sessions[key].auth_state
                    && after[key].created_at_unix == v.sessions[key].created_at_unix
                    && after[key].lease_expires_at_unix == v.sessions[key].lease_expires_at_unix
                &&& !known ==> after[key].auth_state == SessionAuthState::Legacy
                    && after[key].created_at_unix == a.now_unix && after[key].lease_expires_at_unix is None
            }
            &&& !known && !w.may_open(on, a) ==> step.action is Nothing && after == v.sessions
        }),
{
    lemma_open_relay(v, on, frame, a, ticket);
}

#[verifier::rlimit(30)]
proof fn lemma_open_relay(
    v: RelayView,
    on: Switches,
    frame: Seq<u8>,
    a: Arrival,
    ticket: Result<TicketView, RelayAuthVerifyError>,
)
    requires
        on.auth_mode == RelayAuthMode::Off,
        kind_of(frame) != FrameKind::TooShort,
        v.limiter.has_room(a.client_addr.ip, SourceLimitKind::Packet, a.now),
    ensures
        ({
            let key = be64(frame.subrange(0, 8)) as u64;
            let step = received(v, on, frame, a, ticket);
            let after = step.relay.sessions;
            let w = v.counted(frame.len() as int).rated(a);
            let s = if v.sessions.contains_key(key) {
                v.sessions[key].at(a.client_addr).active(a.now, a.now_unix)
            } else {
                legacy_session(key, a)
            };
            &&& v.sessions.contains_key(key) || w.may_open(on, a) ==> after.contains_key(key) && after[key]
                == (SessionView { user_id: after[key].user_id, ..s })
            &&& !v.sessions.contains_key(key) && !w.may_open(on, a) ==> step.action is Nothing && after
                == v.sessions
        }),
{
}

/// Where tickets are needed, a valid ticket opens its session: for the ticket's user, at
/// the endpoint of the hello, from now on, and until the ticket ends if it is a lease. The
/// answer is the session id, 0xA2 and 0. A ticket that is refused opens nothing, and the
/// answer has the refusal's number in place of 0.
pub proof fn a_valid_ticket_opens_its_session(
    v: RelayView,
    on: Switches,
    frame: Seq<u8>,
    a: Arrival,
    ticket: Result<TicketView, RelayAuthVerifyError>,
)
    requires
        on.auth_mode != RelayAuthMode::Off,
        frame.len() >= 11 && frame[8] == 0xA1,
        v.limiter.has_room(a.client_addr.ip, SourceLimitKind::Packet, a.now),
        !v.sessions.contains_key(be64(frame.subrange(0, 8)) as u64),
        v.counted(frame.len() as int).rated(a).may_open(on, a),
    ensures
        ({
            let key = be64(frame.subrange(0, 8)) as u64;
            let step = received(v, on, frame, a, ticket);
            let after = step.relay.sessions;
            &&& step.action is Reply
            &&& step.action->Reply_0.len() == 10
            &&& step.action->Reply_0.subrange(0, 8) == frame.subrange(0, 8)
            &&& step.action->Reply_0[8] == 0xA2
            &&& match ticket {
                Ok(t) => {
                    &&& step.action->Reply_0[9] == 0
                    &&& after.dom() == v.sessions.dom().insert(key)
                    &&& after[key].user_id == t.user_id
                    &&& after[key].auth_state == SessionAuthState::Authenticated
                    &&& after[key].client_addr == a.client_addr
                    &&& after[key].created_at_unix == a.now_unix
                    &&& after[key].last_activity == a.now
                    &&& after[key].last_activity_unix == a.now_unix
                    &&& t.lease ==> after[key].lease_expires_at_unix == Some(t.exp)
                    &&& !t.lease ==> after[key].lease_expires_at_unix is None
                    &&& after[key].current(a.now_unix) || t.lease && t.exp <= a.now_unix
                },
                Err(error) => {
                    &&& after == v.sessions
                    &&& step.action->Reply_0[9] == match error {
                        RelayAuthVerifyError::BadFormat => 1u8,
                        RelayAuthVerifyError::BadSignature => 2,
                        RelayAuthVerifyError::Expired => 3,
                        RelayAuthVerifyError::SidMismatch => 4,
                        RelayAuthVerifyError::ServerMismatch => 5,
                        RelayAuthVerifyError::Replay => 7,
                        RelayAuthVerifyError::OwnerMismatch => 8,
                    }
                },
            }
        }),
{
    let key = be64(frame.subrange(0, 8)) as u64;
    let id = frame.subrange(0, 8);
    let step = received(v, on, frame, a, ticket);
    assert(auth_ack(id, AUTH_ACK_OK).subrange(0, 8) =~= id);
    if ticket is Ok {
        assert(step.relay.sessions.dom() =~= v.sessions.dom().insert(key));
    } else {
        assert(auth_ack(id, ticket->Err_0.status()).subrange(0, 8) =~= id);
    }
}

/// A valid ticket of its owner renews a session that is there: its lease is that of the
/// new ticket, it is active now and at the endpoint of the hello, and keeps its beginning.
/// A session without a ticket becomes that of the ticket's user.
pub proof fn a_valid_ticket_renews_its_session(
    v: RelayView,
    on: Switches,
    frame: Seq<u8>,
    a: Arrival,
    t: TicketView,
)
    requires
        on.auth_mode != RelayAuthMode::Off,
        frame.len() >= 11 && frame[8] == 0xA1,
        v.limiter.has_room(a.client_addr.ip, SourceLimitKind::Packet, a.now),
        ({
            let key = be64(frame.subrange(0, 8)) as u64;
            &&& v.sessions.contains_key(key)
            &&& v.sessions[key].auth_state == SessionAuthState::Legacy || v.sessions[key].user_id
                == t.user_id
        }),
    ensures
        ({
            let key = be64(frame.subrange(0, 8)) as u64;
            let step = received(v, on, frame, a, Ok(t));
            let after = step.relay.sessions;
            &&& step.action is Reply
            &&& step.action->Reply_0.len() == 10
            &&& step.action->Reply_0[8] == 0xA2 && step.action->Reply_0[9] == 0
            &&& after.contains_key(key)
            &&& after[key].user_id == t.user_id
            &&& after[key].auth_state == SessionAuthState::Authenticated
            &&& after[key].client_addr == a.client_addr
            &&& after[key].created_at_unix == v.sessions[key].created_at_unix
            &&& after[key].last_activity == a.now
            &&& after[key].last_activity_unix == a.now_unix
            &&& t.lease ==> after[key].lease_expires_at_unix == Some(t.exp)
            &&& !t.lease ==> after[key].lease_expires_at_unix is None
        }),
{
    the_owners_ticket_moves_the_session(v, on, frame, a, t);
}

/// Whoever is served, what is done for a frame follows from what it is: a ping is
/// answered by its pong, a keepalive refreshes the session's flows, a report of a round
/// trip is noted, a pong is ignored, and the first datapath resolves what is asked for.
/// Here a session is served: no tickets are needed and it is open, or its ticket holds
/// and the frame comes from its endpoint.
pub proof fn served_frames_are_answered(
    v: RelayView,
    on: Switches,
    frame: Seq<u8>,
    a: Arrival,
    ticket: Result<TicketView, RelayAuthVerifyError>,
)
    requires
        frame.len() >= 8,
        v.limiter.has_room(a.client_addr.ip, SourceLimitKind::Packet, a.now),
        ({
            let key = be64(frame.subrange(0, 8)) as u64;
            &&& v.sessions.contains_key(key)
            &&& on.auth_mode == RelayAuthMode::Off || v.sessions[key].current(a.now_unix)
                && v.sessions[key].client_addr == a.client_addr
        }),
    ensures
        ({
            let key = be64(frame.subrange(0, 8)) as u64;
            let step = received(v, on, frame, a, ticket);
            let t = step.relay.traffic;
            &&& frame.len() == 8 ==> step.action is Refresh
            &&& frame.len() == 21 && frame[8] == 0xA3 ==> step.action == ActionView::Reply(
                pong(frame, a.uptime_ms),
            )
            &&& frame.len() == 29 && frame[8] == 0xA4 ==> step.action is Nothing
            &&& frame.len() == 13 && frame[8] == 0xA5 ==> step.action is Nothing && t.contains_key(key)
                && t[key].last_rtt_us == ((frame[9] * 256 + frame[10]) * 256 + frame[11]) * 256
                + frame[12]
            &&& frame.len() > 8 && frame[8] == 0xA6 && on.datapath == RelayDatapath::V1
                ==> step.action == match request_of(frame, frame.len() as int) {
                Some(request) => ActionView::Resolve { request_id: request.id, hosts: request.hosts },
                None => ActionView::Nothing,
            }
            &&& t.contains_key(key)
            &&& t[key].last_activity_unix == a.now_unix
            &&& v.traffic.contains_key(key) ==> t[key].packets_in == next(v.traffic[key].packets_in)
        }),
{
    lemma_served(v, on, frame, a, ticket);
}

#[verifier::rlimit(60)]
proof fn lemma_served(
    v: RelayView,
    on: Switches,
    frame: Seq<u8>,
    a: Arrival,
    ticket: Result<TicketView, RelayAuthVerifyError>,
)
    requires
        kind_of(frame) != FrameKind::TooShort,
        v.limiter.has_room(a.client_addr.ip, SourceLimitKind::Packet, a.now),
        ({
            let key = be64(frame.subrange(0, 8)) as u64;
            &&& v.sessions.contains_key(key)
            &&& on.auth_mode == RelayAuthMode::Off || v.sessions[key].current(a.now_unix)
                && v.sessions[key].client_addr == a.client_addr
        }),
    ensures
        ({
            let key = be64(frame.subrange(0, 8)) as u64;
            let step = received(v, on, frame, a, ticket);
            let t = step.relay.traffic;
            let want = ingress(v.traffic, key, a.now_unix, frame.len() as int);
            &&& kind_of(frame) is Keepalive ==> step.action is Refresh
            &&& kind_of(frame) is Ping ==> step.action == ActionView::Reply(pong(frame, a.uptime_ms))
            &&& kind_of(frame) is Pong ==> step.action is Nothing
            &&& kind_of(frame) is RttReport ==> step.action is Nothing && t == rtt_reported(
                want,
                key,
                be32(frame, 9) as u64,
            )
            &&& !(kind_of(frame) is RttReport) ==> t == want
            &&& kind_of(frame) is Resolve && on.datapath == RelayDatapath::V1 ==> step.action
                == match request_of(frame, frame.len() as int) {
                Some(request) => ActionView::Resolve { request_id: request.id, hosts: request.hosts },
                None => ActionView::Nothing,
            }
        }),
{
}

/// Where a served client's packet goes follows from what it is, as long as its
/// destination is allowed: UDP goes to the game server, its payload alone, or with UDP
/// through the device as a whole to the device; TCP goes to the device where that is on,
/// and so do the fragments of either. What goes nowhere is dropped, and counted.
pub proof fn served_packets_are_forwarded(
    v: RelayView,
    on: Switches,
    frame: Seq<u8>,
    a: Arrival,
    ticket: Result<TicketView, RelayAuthVerifyError>,
)
    requires
        frame.len() >= 28,
        frame[8] / 16 == 4,
        v.limiter.has_room(a.client_addr.ip, SourceLimitKind::Packet, a.now),
        ({
            let key = be64(frame.subrange(0, 8)) as u64;
            &&& v.sessions.contains_key(key)
            &&& on.auth_mode == RelayAuthMode::Off || v.sessions[key].current(a.now_unix)
                && v.sessions[key].client_addr == a.client_addr
        }),
    ensures
        ({
            let step = received(v, on, frame, a, ticket);
            let reasons = step.relay.stats.drop_reasons;
            let before = v.stats.drop_reasons;
            match packet_view(frame.subrange(8, frame.len() as int)) {
                None => step.action is Nothing && reasons.parse == next(before.parse),
                Some(PacketView::ForbiddenDst) => step.action is Nothing && reasons.forbidden_dst == next(
                    before.forbidden_dst,
                ),
                Some(PacketView::Udp { info, payload, raw }) => if !v.policy.lets_through(
                    17,
                    info.dst_ip,
                    Some(info.dst_port),
                ) {
                    step.action is Nothing && reasons.forbidden_dst == next(before.forbidden_dst)
                } else if on.tun_udp_enabled {
                    step.action == (ActionView::Tun { protocol: 17, packet: raw })
                } else {
                    step.action == (ActionView::Forward { payload, original_info: info })
                },
                Some(PacketView::Tcp { info, raw }) => if !v.policy.lets_through(
                    6,
                    info.dst_ip,
                    Some(info.dst_port),
                ) {
                    step.action is Nothing && reasons.forbidden_dst == next(before.forbidden_dst)
                } else if on.tcp_enabled {
                    step.action == (ActionView::Tun { protocol: 6, packet: raw })
                } else {
                    step.action is Nothing && reasons.tcp_disabled == next(before.tcp_disabled)
                },
                Some(PacketView::Fragment { protocol, src_ip, dst_ip, dst_port, raw }) => if protocol == 17
                    && dst_port is Some && forbidden_port(dst_port->Some_0) || !v.policy.lets_through(
                    protocol,
                    dst_ip,
                    dst_port,
                ) {
                    step.action is Nothing && reasons.forbidden_dst == next(before.forbidden_dst)
                } else if protocol == 17 && on.tun_udp_enabled || protocol == 6 && on.tcp_enabled {
                    step.action == (ActionView::Tun { protocol, packet: raw })
                } else {
                    step.action is Nothing && reasons.fragment == next(before.fragment)
                },
            }
        }),
{
    lemma_served_packet(v, on, frame, a, ticket);
}

/// A served packet is stepped from a state with the same counters and policy.
#[verifier::rlimit(60)]
proof fn lemma_served_packet(
    v: RelayView,
    on: Switches,
    frame: Seq<u8>,
    a: Arrival,
    ticket: Result<TicketView, RelayAuthVerifyError>,
)
    requires
        kind_of(frame) == FrameKind::Packet,
        v.limiter.has_room(a.client_addr.ip, SourceLimitKind::Packet, a.now),
        ({
            let key = be64(frame.subrange(0, 8)) as u64;
            &&& v.sessions.contains_key(key)
            &&& on.auth_mode == RelayAuthMode::Off || v.sessions[key].current(a.now_unix)
                && v.sessions[key].client_addr == a.client_addr
        }),
    ensures
        exists|w: RelayView|
            w.policy == v.policy && w.stats.drop_reasons == v.stats.drop_reasons && received(
                v,
                on,
                frame,
                a,
                ticket,
            ) == #[trigger] packet_step(w, on, be64(frame.subrange(0, 8)) as u64, frame),
{
    let key = be64(frame.subrange(0, 8)) as u64;
    let len = frame.len() as int;
    let u = v.counted(len).rated(a);
    let w = if on.auth_mode == RelayAuthMode::Off {
        admitted_openly(u, on, key, a, len).0
    } else {
        admitted_with_ticket(u, key, frame.subrange(0, 8), kind_of(frame), a, len).0
    };
    assert(received(v, on, frame, a, ticket) == packet_step(w, on, key, frame));
}

/// What an action holds is what its content shows.
pub proof fn actions_show_their_fields(x: Action)
    ensures
        x matches Action::Reply(frame) ==> x@ == ActionView::Reply(frame@),
        x matches Action::Tun { protocol, packet } ==> x@ == (ActionView::Tun {
            protocol,
            packet: packet@,
        }),
        x matches Action::Forward { game_addr, payload, original_info } ==> x@
            == (ActionView::Forward { payload: payload@, original_info }),
        x matches Action::Resolve { request_id, hosts } ==> x@ is Resolve && x@->request_id
            == request_id && x@->hosts.len() == hosts.len() && forall|i: int|
            0 <= i < hosts.len() ==> #[trigger] x@->hosts[i] == hosts[i]@,
        x is Nothing <==> x@ is Nothing,
        x is Refresh <==> x@ is Refresh,
{
}

/// What the relay knows is what its tables hold.
pub proof fn the_relay_shows_its_tables(r: Relay)
    ensures
        r@.sessions == r.sessions@,
        r@.counts == r.source_counts@,
        r@.traffic == r.traffic@,
        r@.limiter == r.limiter@,
        r@.replay == r.replay@,
        r@.policy == r.policy@,
        r@.stats == r.stats,
        r.switches().auth_mode == r.auth.mode,
        r.switches().tcp_enabled == r.tcp_enabled,
        r.switches().tun_udp_enabled == r.tun_udp_enabled,
        r.switches().datapath == r.datapath,
{
}

/// A session's answers go to its own endpoint, while it is there and, where tickets are
/// needed, its ticket holds.
pub proof fn answers_go_to_the_sessions_endpoint(
    m: Map<u64, SessionView>,
    key: u64,
    auth_required: bool,
    now_unix: u64,
)
    ensures
        return_address(m, key, auth_required, now_unix) is Some <==> m.contains_key(key) && (
        !auth_required || m[key].current(now_unix)),
        return_address(m, key, auth_required, now_unix) is Some ==> return_address(
            m,
            key,
            auth_required,
            now_unix,
        )->Some_0 == m[key].client_addr,
{
}

/// Frames that are too short, or beyond their source's rate, change nothing but counters,
/// and are not answered.
pub proof fn refused_frames_change_nothing(
    v: RelayView,
    on: Switches,
    frame: Seq<u8>,
    a: Arrival,
    ticket: Result<TicketView, RelayAuthVerifyError>,
)
    requires
        frame.len() < 8 || !v.limiter.has_room(a.client_addr.ip, SourceLimitKind::Packet, a.now),
    ensures
        ({
            let step = received(v, on, frame, a, ticket);
            &&& step.action is Nothing
            &&& step.relay.sessions == v.sessions
            &&& step.relay.counts == v.counts
            &&& step.relay.traffic == v.traffic
            &&& step.relay.policy == v.policy
            &&& step.relay.stats.dropped_in == next(v.stats.dropped_in)
            &&& frame.len() < 8 ==> step.relay.stats.drop_reasons.too_small == next(
                v.stats.drop_reasons.too_small,
            ) && step.relay.limiter == v.limiter
            &&& frame.len() >= 8 ==> step.relay.stats.drop_reasons.rate_limit == next(
                v.stats.drop_reasons.rate_limit,
            ) && step.relay.stats.throttled_users == next(v.stats.throttled_users)
        }),
{
}

/// What a game server sends is activity of the session, now, and changes nothing else.
pub proof fn responses_are_activity_of_the_session(v: RelayView, key: u64, now: u64, now_unix: u64, other: u64)
    ensures
        ({
            let w = v.with_activity(key, now, now_unix);
            let s = v.sessions[key];
            let t = w.sessions[key];
            &&& w.sessions.dom() == v.sessions.dom()
            &&& v.sessions.contains_key(key) ==> t.last_activity == now && t.last_activity_unix == now_unix
                && t.client_addr == s.client_addr && t.user_id == s.user_id && t.auth_state
                == s.auth_state && t.created_at_unix == s.created_at_unix
            &&& other != key && v.sessions.contains_key(other) ==> w.sessions[other] == v.sessions[other]
            &&& w.stats == v.stats && w.traffic == v.traffic && w.counts == v.counts && w.limiter
                == v.limiter && w.replay == v.replay && w.policy == v.policy
        }),
{
    assert(v.with_activity(key, now, now_unix).sessions.dom() =~= v.sessions.dom());
}

/// Packets that the device takes are counted by protocol, those that it does not take as
/// drops.
pub proof fn handed_packets_are_counted_by_protocol(v: RelayView, protocol: u8)
    ensures
        ({
            let taken = v.handed(protocol, true);
            let refused = v.handed(protocol, false);
            &&& protocol == 6 ==> taken.stats.tcp_forwarded == next(v.stats.tcp_forwarded)
                && taken.stats.tun_udp_forwarded == v.stats.tun_udp_forwarded
            &&& protocol != 6 ==> taken.stats.tun_udp_forwarded == next(v.stats.tun_udp_forwarded)
                && taken.stats.tcp_forwarded == v.stats.tcp_forwarded
            &&& taken.stats.dropped_in == v.stats.dropped_in && taken.stats.drop_reasons
                == v.stats.drop_reasons
            &&& refused.stats.dropped_in == next(v.stats.dropped_in) && refused.stats.drop_reasons
                == v.stats.drop_reasons.plus(DropReason::TunQueue)
            &&& refused.stats.tcp_forwarded == v.stats.tcp_forwarded && refused.stats.tun_udp_forwarded
                == v.stats.tun_udp_forwarded
            &&& taken.sessions == v.sessions && refused.sessions == v.sessions
        }),
{
}

/// A frame that was sent is one more packet of the relay and of the session's traffic; only
/// a flow's is activity in the session's traffic. No session changes.
pub proof fn sent_frames_are_counted(v: RelayView, key: u64, len: int, now_unix: u64, other: u64)
    requires
        0 <= len,
    ensures
        ({
            let a = v.with_frame_sent(key, len, now_unix);
            let b = v.with_reply_sent(key, len);
            &&& a.stats.packets_out == next(v.stats.packets_out) && b.stats == a.stats
            &&& (a.stats.bytes_out - v.stats.bytes_out - len) % 0x1_0000_0000_0000_0000 == 0
            &&& a.stats.packets_in == v.stats.packets_in && a.stats.dropped_out == v.stats.dropped_out
            &&& a.sessions == v.sessions && b.sessions == v.sessions
            &&& v.traffic.contains_key(key) ==> a.traffic[key].packets_out == next(
                v.traffic[key].packets_out,
            ) && b.traffic[key].packets_out == next(v.traffic[key].packets_out)
                && a.traffic[key].last_activity_unix == now_unix && b.traffic[key].last_activity_unix
                == v.traffic[key].last_activity_unix && a.traffic[key].bytes_out
                == b.traffic[key].bytes_out
            &&& other != key && v.traffic.contains_key(other) ==> a.traffic[other] == v.traffic[other]
                && b.traffic[other] == v.traffic[other]
        }),
{
    traffic_counts_packets_and_bytes(v.stats, len);
    egress_counts_for_its_session(v.traffic, key, now_unix, len, 0, other);
}

/// A session that was idle for 210 seconds is gone, with its traffic, and is reported; any
/// other stays as it is, with its traffic. As many sessions are counted as are left.
pub proof fn idle_sessions_go_with_their_traffic(
    before: RelayView,
    after: RelayView,
    now: u64,
    gone: Seq<u64>,
    key: u64,
)
    requires
        sessions_expired(before, after, now, gone),
        before.sessions.contains_key(key),
    ensures
        ({
            let s = before.sessions[key];
            let idle = now >= s.last_activity + 210_000_000_000;
            &&& idle ==> !after.sessions.contains_key(key) && !after.traffic.contains_key(key)
                && gone.contains(key)
            &&& !idle ==> after.sessions.contains_key(key) && after.sessions[key] == s && !gone.contains(
                key,
            )
            &&& !idle && before.traffic.contains_key(key) ==> after.traffic.contains_key(key)
                && after.traffic[key] == before.traffic[key]
            &&& after.stats.active_sessions == after.sessions.dom().len() as u64
            &&& after.stats.dropped_in == before.stats.dropped_in && after.stats.packets_in
                == before.stats.packets_in
            &&& after.limiter == before.limiter && after.replay == before.replay && after.policy
                == before.policy
        }),
{
    assert(gone.contains(key) <==> expired_sessions(before.sessions, now).contains(key));
}

/// No frame changes another session than its own, nor that one's traffic.
#[verifier::rlimit(60)]
pub proof fn frames_touch_their_own_session(
    v: RelayView,
    on: Switches,
    frame: Seq<u8>,
    a: Arrival,
    ticket: Result<TicketView, RelayAuthVerifyError>,
    other: u64,
)
    requires
        other != be64(frame.subrange(0, 8)) as u64,
    ensures
        ({
            let w = received(v, on, frame, a, ticket).relay;
            &&& w.sessions.contains_key(other) <==> v.sessions.contains_key(other)
            &&& v.sessions.contains_key(other) ==> w.sessions[other] == v.sessions[other]
            &&& w.traffic.contains_key(other) <==> v.traffic.contains_key(other)
            &&& v.traffic.contains_key(other) ==> w.traffic[other] == v.traffic[other]
        }),
{
    let w = v.counted(frame.len() as int).rated(a);
    let key = be64(frame.subrange(0, 8)) as u64;
    assert forall|x: RelayView| #[trigger] packet_step(x, on, key, frame).relay.traffic == x.traffic by {
        lemma_packets_leave_traffic(x, on, key, frame);
    }
    assert forall|x: RelayView|
        #![trigger packet_step(x, on, key, frame)]
        (packet_step(x, on, key, frame).relay.sessions.contains_key(other) <==> x.sessions.contains_key(
            other,
        )) && (x.sessions.contains_key(other) ==> packet_step(x, on, key, frame).relay.sessions[other]
            == x.sessions[other]) by {
        lemma_packets_leave_others(x, on, key, frame, other);
    }
}

proof fn lemma_packets_leave_traffic(v: RelayView, on: Switches, key: u64, frame: Seq<u8>)
    ensures
        packet_step(v, on, key, frame).relay.traffic == v.traffic,
{
}

proof fn lemma_packets_leave_others(v: RelayView, on: Switches, key: u64, frame: Seq<u8>, other: u64)
    requires
        other != key,
    ensures
        ({
            let w = packet_step(v, on, key, frame).relay;
            &&& w.sessions.contains_key(other) <==> v.sessions.contains_key(other)
            &&& v.sessions.contains_key(other) ==> w.sessions[other] == v.sessions[other]
        }),
{
}

/// Where tickets are needed, a frame of a session that is not there is dropped, and
/// counted as that, unless it is a pong; nothing is opened for it.
pub proof fn frames_without_a_session_are_dropped(
    v: RelayView,
    on: Switches,
    frame: Seq<u8>,
    a: Arrival,
    ticket: Result<TicketView, RelayAuthVerifyError>,
)
    requires
        on.auth_mode != RelayAuthMode::Off,
        frame.len() >= 8,
        !(frame.len() >= 11 && frame[8] == 0xA1),
        v.limiter.has_room(a.client_addr.ip, SourceLimitKind::Packet, a.now),
        !v.sessions.contains_key(be64(frame.subrange(0, 8)) as u64),
    ensures
        ({
            let step = received(v, on, frame, a, ticket);
            let pong = frame.len() == 29 && frame[8] == 0xA4;
            &&& step.action is Nothing
            &&& step.relay.sessions == v.sessions && step.relay.traffic == v.traffic && step.relay.counts
                == v.counts && step.relay.policy == v.policy && step.relay.replay == v.replay
            &&& pong ==> step.relay.stats.dropped_in == v.stats.dropped_in
            &&& !pong ==> step.relay.stats.dropped_in == next(v.stats.dropped_in)
                && step.relay.stats.drop_reasons == v.stats.drop_reasons.plus(DropReason::Auth)
        }),
{
    frames_are_told_by_length_and_type(frame);
}

/// A packet names the user of its session by its source address, as long as no ticket
/// names one; who has shown a ticket keeps that ticket's user.
#[verifier::rlimit(60)]
pub proof fn packets_name_the_user_of_an_open_session(
    v: RelayView,
    on: Switches,
    key: u64,
    frame: Seq<u8>,
)
    requires
        frame.len() >= 28,
        v.sessions.contains_key(key),
        packet_view(frame.subrange(8, frame.len() as int)) is Some,
    ensures
        ({
            let p = packet_view(frame.subrange(8, frame.len() as int))->Some_0;
            let step = packet_step(v, on, key, frame);
            let s = v.sessions[key];
            let t = step.relay.sessions[key];
            let signed = s.auth_state == SessionAuthState::Authenticated;
            &&& step.relay.sessions.dom() == v.sessions.dom()
            &&& signed ==> t == s
            &&& !signed ==> t.client_addr == s.client_addr && t.last_activity == s.last_activity
                && t.auth_state == s.auth_state && t.created_at_unix == s.created_at_unix
                && t.last_activity_unix == s.last_activity_unix && t.lease_expires_at_unix
                == s.lease_expires_at_unix
            &&& step.action is Forward || step.action is Tun ==> !signed ==> {
                &&& p is Udp ==> t.user_id == dotted_text(p->Udp_info.src_ip)
                &&& p is Tcp ==> t.user_id == dotted_text(p->Tcp_info.src_ip)
                &&& p is Fragment ==> t.user_id == dotted_text(p->src_ip)
            }
            &&& p is ForbiddenDst ==> t == s && step.relay.policy == v.policy
            &&& p is Udp ==> step.relay.policy == v.policy.after(
                17,
                p->Udp_info.dst_ip,
                Some(p->Udp_info.dst_port),
            )
            &&& p is Tcp ==> step.relay.policy == v.policy.after(
                6,
                p->Tcp_info.dst_ip,
                Some(p->Tcp_info.dst_port),
            )
        }),
{
    let step = packet_step(v, on, key, frame);
    assert(step.relay.sessions.dom() =~= v.sessions.dom());
}

/// A frame that is too short for a packet is dropped as that. On the second datapath a
/// request to resolve names is no packet, and is dropped too.
pub proof fn short_frames_are_no_packets(v: RelayView, on: Switches, key: u64, frame: Seq<u8>, a: Arrival)
    requires
        frame.len() > 8,
    ensures
        ({
            let step = packet_step(v, on, key, frame);
            let d = dispatched(v, on, key, frame, a);
            &&& frame.len() < 28 ==> step.action is Nothing && step.relay.stats.drop_reasons
                == v.stats.drop_reasons.plus(DropReason::TooSmall) && step.relay.sessions == v.sessions
            &&& frame[8] == 0xA6 && on.datapath == RelayDatapath::V2 ==> d.action is Nothing
                && d.relay.stats.dropped_in == next(v.stats.dropped_in) && d.relay.sessions == v.sessions
                && d.relay.stats.drop_reasons == v.stats.drop_reasons.plus(
                if frame.len() < 28 {
                    DropReason::TooSmall
                } else {
                    DropReason::Parse
                },
            )
        }),
{
    frames_are_told_by_length_and_type(frame);
    if frame.len() >= 28 && frame[8] == 0xA6 {
        let p = frame.subrange(8, frame.len() as int);
        assert(p[0] == 0xA6u8);
        malformed_packets_are_refused(p);
    }
}

/// Another session may be opened if the source has room for one in this second and, on the
/// first datapath, there are fewer than 65536 sessions in all and fewer than 512 of the
/// source. A refusal is counted by its reason, and takes none of the source's room where
/// the relay is full.
pub proof fn sessions_are_opened_within_the_limits(v: RelayView, on: Switches, a: Arrival)
    ensures
        ({
            let w = v.asked_to_open(on, a);
            let full = on.datapath == RelayDatapath::V1 && (v.sessions.dom().len() >= 65_536 || count_in(
                v.counts,
                a.client_addr.ip,
            ) >= 512);
            let room = v.limiter.has_room(a.client_addr.ip, SourceLimitKind::NewSession, a.now);
            &&& v.may_open(on, a) <==> !full && room
            &&& full ==> w.limiter == v.limiter && w.stats.drop_reasons == v.stats.drop_reasons.plus(
                DropReason::Capacity,
            ) && w.stats.throttled_users == v.stats.throttled_users
            &&& !full ==> w.limiter == v.limiter.after(
                a.client_addr.ip,
                SourceLimitKind::NewSession,
                a.now,
            )
            &&& !full && !room ==> w.stats.drop_reasons == v.stats.drop_reasons.plus(DropReason::RateLimit)
                && w.stats.throttled_users == next(v.stats.throttled_users)
            &&& !full && room ==> w.stats == v.stats
            &&& w.sessions == v.sessions && w.counts == v.counts && w.traffic == v.traffic
        }),
{
}

/// Every frame that is long enough counts once against its source's rate; only opening a
/// session takes more of the source's room.
#[verifier::rlimit(60)]
pub proof fn frames_count_once_against_the_rate(
    v: RelayView,
    on: Switches,
    frame: Seq<u8>,
    a: Arrival,
    ticket: Result<TicketView, RelayAuthVerifyError>,
)
    requires
        frame.len() >= 8,
        v.sessions.contains_key(be64(frame.subrange(0, 8)) as u64) || !v.limiter.has_room(
            a.client_addr.ip,
            SourceLimitKind::Packet,
            a.now,
        ) || on.auth_mode != RelayAuthMode::Off && !(frame.len() >= 11 && frame[8] == 0xA1),
    ensures
        received(v, on, frame, a, ticket).relay.limiter == v.limiter.after(
            a.client_addr.ip,
            SourceLimitKind::Packet,
            a.now,
        ),
{
    frames_are_told_by_length_and_type(frame);
    let key = be64(frame.subrange(0, 8)) as u64;
    assert forall|x: RelayView| #[trigger] packet_step(x, on, key, frame).relay.limiter == x.limiter by {
        lemma_packets_leave_limiter(x, on, key, frame);
    }
}

proof fn lemma_packets_leave_limiter(v: RelayView, on: Switches, key: u64, frame: Seq<u8>)
    ensures
        packet_step(v, on, key, frame).relay.limiter == v.limiter,
{
}

/// A frame of a session that is served is in the session's traffic, with all its bytes.
#[verifier::rlimit(60)]
pub proof fn served_frames_are_traffic(
    v: RelayView,
    on: Switches,
    frame: Seq<u8>,
    a: Arrival,
    ticket: Result<TicketView, RelayAuthVerifyError>,
)
    requires
        frame.len() >= 8,
        v.limiter.has_room(a.client_addr.ip, SourceLimitKind::Packet, a.now),
        v.sessions.contains_key(be64(frame.subrange(0, 8)) as u64),
    ensures
        ({
            let key = be64(frame.subrange(0, 8)) as u64;
            let t = received(v, on, frame, a, ticket).relay.traffic;
            let s = v.traffic[key];
            &&& t.contains_key(key)
            &&& t[key].last_activity_unix == a.now_unix
            &&& v.traffic.contains_key(key) ==> t[key].packets_in == next(s.packets_in) && (t[key].bytes_in
                - s.bytes_in - frame.len()) % 0x1_0000_0000_0000_0000 == 0 && t[key].packets_out
                == s.packets_out && t[key].bytes_out == s.bytes_out && t[key].connected_at_unix
                == s.connected_at_unix
            &&& !v.traffic.contains_key(key) ==> t[key].packets_in == 1 && t[key].packets_out == 0
                && t[key].connected_at_unix == a.now_unix
        }),
{
    let key = be64(frame.subrange(0, 8)) as u64;
    ingress_counts_for_its_session(v.traffic, key, a.now_unix, frame.len() as int, key);
    assert forall|x: RelayView| #[trigger] packet_step(x, on, key, frame).relay.traffic == x.traffic by {
        lemma_packets_leave_traffic(x, on, key, frame);
    }
}

/// A hello whose ticket is looked at uses it up: a ticket that was accepted is known from
/// then on, and no other frame makes a ticket known.
pub proof fn hellos_use_up_their_tickets<F: Fn(&[u8]) -> Option<RelayTicketClaims>>(
    before: Relay,
    after: Relay,
    frame: Seq<u8>,
    a: Arrival,
    decode: F,
    action: ActionView,
    ticket: Result<VerifiedRelayTicket, RelayAuthVerifyError>,
)
    requires
        decided_by(before, after, frame, a, decode, action, ticket),
    ensures
        ticket_looked_at(before, frame, a) && ticket is Ok ==> after@.replay.seen.contains_key(
            ticket->Ok_0.jti@,
        ) && !before@.replay.knows(ticket->Ok_0.jti@, a.now_unix),
        !ticket_looked_at(before, frame, a) ==> after@.replay == before@.replay,
{
    if ticket_looked_at(before, frame, a) && ticket is Ok {
        let bytes = hello_token(frame, frame.len() as int)->Some_0;
        let first = choose|first: Result<VerifiedRelayTicket, RelayAuthVerifyError>| #[trigger]
            verifies(
                first,
                decode_utf8(bytes),
                be64(frame.subrange(0, 8)),
                before.auth,
                a.now_unix,
                decode,
            ) && used_once(first, ticket, before@.replay, after@.replay, a.now_unix);
        shown_tickets_are_used_up(
            first,
            ticket,
            before@.replay,
            after@.replay,
            a.now_unix,
            a.now_unix,
        );
    }
}

} // verus!
