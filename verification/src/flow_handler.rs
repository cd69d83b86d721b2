//! The task of a flow on the first datapath, between its socket and its tables.

use crate::addr::{session_key, IpAddr, Ipv4Addr, SocketAddr};
use crate::bytes::be64;
use crate::flows::{FlowRecord, FlowsView, V1Flows};
use crate::frame::packet_frame;
use crate::num::next;
use crate::packet::{
    build_response_ip_packet, forbidden_ip, forbidden_port, is_forbidden_dst, is_forbidden_dst_port,
    response, responses_go_the_other_way,
};
use crate::relay::{Relay, RelayView};
use crate::stats::DropReason;
use vstd::prelude::*;
use vstd::string::*;

verus! {

/// How many errors in a row end a flow.
pub const MAX_CONSECUTIVE_ERRORS: u32 = 5;

/// What went wrong on a socket, as far as it matters here.
#[derive(Clone, Copy, PartialEq, Eq, Structural, Debug)]
pub enum IoErrorKind {
    WouldBlock,
    TimedOut,
    Interrupted,
    ConnectionReset,
    PermissionDenied,
    Other,
}

/// Errors of a receive that pass: a reset can come up spuriously there.
pub fn is_transient_recv_error(kind: IoErrorKind) -> (r: bool)
    ensures
        r == (kind is WouldBlock || kind is TimedOut || kind is Interrupted || kind is ConnectionReset),
{
    matches!(
        kind,
        IoErrorKind::WouldBlock | IoErrorKind::TimedOut | IoErrorKind::Interrupted
        | IoErrorKind::ConnectionReset
    )
}

/// Errors of a send that pass. A reset does not: the game server is not there.
pub fn is_transient_send_error(kind: IoErrorKind) -> (r: bool)
    ensures
        r == (kind is WouldBlock || kind is TimedOut || kind is Interrupted),
{
    matches!(kind, IoErrorKind::WouldBlock | IoErrorKind::TimedOut | IoErrorKind::Interrupted)
}

/// Whether a flow may go to the game server.
pub open spec fn reachable(game_addr: SocketAddr) -> bool {
    game_addr.ip matches IpAddr::V4(ip) ==> !forbidden_ip(ip) && !forbidden_port(game_addr.port)
}

/// What a flow's task does next.
#[derive(Clone, Copy, PartialEq, Eq, Structural, Debug)]
pub enum HandlerStep {
    Continue,
    /// Wait a moment first.
    Pause,
    Stop,
}

/// What is done with what a game server sent.
pub enum ResponseStep {
    /// Send this frame to the client.
    Send { client_addr: SocketAddr, frame: Vec<u8> },
    /// Nothing: the flow is gone and its session is not.
    Skip,
    /// The flow and its session are gone.
    Stop,
}

/// The task of a flow.
pub struct FlowHandler {
    pub session_id: [u8; 8],
    /// The flow's name in the tables.
    pub name: String,
    pub consecutive_recv_errors: u32,
    pub consecutive_send_errors: u32,
}

/// A count of errors after another one, and what follows from it.
pub open spec fn failed(errors: u32) -> (u32, HandlerStep) {
    if errors + 1 >= MAX_CONSECUTIVE_ERRORS {
        (MAX_CONSECUTIVE_ERRORS, HandlerStep::Stop)
    } else {
        ((errors + 1) as u32, HandlerStep::Pause)
    }
}

fn count_error(errors: u32) -> (r: (u32, HandlerStep))
    requires
        errors <= MAX_CONSECUTIVE_ERRORS,
    ensures
        r == failed(errors),
{
    if errors + 1 >= MAX_CONSECUTIVE_ERRORS {
        (MAX_CONSECUTIVE_ERRORS, HandlerStep::Stop)
    } else {
        (errors + 1, HandlerStep::Pause)
    }
}

/// A frame with a game server's payload for the client.
pub open spec fn response_frame(
    id: Seq<u8>,
    payload: Seq<u8>,
    f: FlowRecord,
) -> Seq<u8> {
    id + response(payload, f.original_info, f.original_info.tos)
}

/// The task of a flow was started, or was not since its game server is forbidden: then the
/// flow is closed and its packet dropped.
pub open spec fn started(
    session_id: [u8; 8],
    name: Seq<char>,
    game_addr: SocketAddr,
    r: Option<FlowHandler>,
    relay: RelayView,
    v: FlowsView,
    relay_after: RelayView,
    v_after: FlowsView,
) -> bool {
    if reachable(game_addr) {
        &&& r matches Some(h) && h.session_id == session_id && h.name@ == name
            && h.consecutive_recv_errors == 0 && h.consecutive_send_errors == 0
        &&& relay_after == relay
        &&& v_after == v
    } else {
        &&& r is None
        &&& relay_after == relay.with_drop(DropReason::ForbiddenDst)
        &&& v_after == v.closed(be64(session_id@) as u64, name)
    }
}

/// What a task does after a while without anything: it ends if its flow is gone.
pub open spec fn idle_step(v: FlowsView, name: Seq<char>) -> HandlerStep {
    if v.flows.contains_key(name) {
        HandlerStep::Continue
    } else {
        HandlerStep::Stop
    }
}

/// A count of errors after a send, and what follows from it.
pub open spec fn after_send(errors: u32, error: Option<IoErrorKind>) -> (u32, HandlerStep) {
    match error {
        None => (0u32, HandlerStep::Continue),
        Some(kind) => if kind is WouldBlock || kind is TimedOut || kind is Interrupted {
            (errors, HandlerStep::Continue)
        } else {
            failed(errors)
        },
    }
}

/// A count of errors after a receive that failed, and what follows from it.
pub open spec fn after_failed_receive(errors: u32, kind: IoErrorKind) -> (u32, HandlerStep) {
    if kind is WouldBlock || kind is TimedOut || kind is Interrupted || kind is ConnectionReset {
        (errors, HandlerStep::Continue)
    } else {
        failed(errors)
    }
}

/// A payload of the game server was taken for the flow of this name: the flow and its
/// session have activity, and the client gets the payload as the answer to its latest
/// packet. Without the flow nothing happens.
pub open spec fn response_taken(
    id: Seq<u8>,
    name: Seq<char>,
    payload: Seq<u8>,
    now: u64,
    now_unix: u64,
    v: FlowsView,
    relay: RelayView,
    r: ResponseStep,
    v_after: FlowsView,
    relay_after: RelayView,
) -> bool {
    let key = be64(id) as u64;
    let s = relay.sessions;
    if v.flows.contains_key(name) {
        let f = v.flows[name];
        &&& r matches ResponseStep::Send { client_addr, frame } && client_addr == f.client_addr && frame@
            == response_frame(id, payload, f)
        &&& v_after == v.with_activity(name, f, now)
        &&& relay_after == relay.with_activity(key, now, now_unix)
    } else {
        &&& v_after == v
        &&& relay_after == relay
        &&& if s.contains_key(key) {
            r is Skip
        } else {
            r is Stop
        }
    }
}

impl FlowHandler {
    pub open spec fn wf(self) -> bool {
        self.consecutive_recv_errors <= MAX_CONSECUTIVE_ERRORS && self.consecutive_send_errors
            <= MAX_CONSECUTIVE_ERRORS
    }

    /// Starts the task of a flow, unless its game server is forbidden: then the flow
    /// is closed and its packet dropped.
    pub fn start(
        relay: &mut Relay,
        flows: &mut V1Flows,
        session_id: [u8; 8],
        name: String,
        game_addr: SocketAddr,
    ) -> (r: Option<FlowHandler>)
        requires
            old(relay).wf(),
        ensures
            final(relay).wf(),
            final(relay).same_setup(*old(relay)),
            started(
                session_id,
                name@,
                game_addr,
                r,
                old(relay)@,
                old(flows)@,
                final(relay)@,
                final(flows)@,
            ),
            r matches Some(h) ==> h.name == name,
            reachable(game_addr) ==> *final(relay) == *old(relay) && *final(flows) == *old(flows),
    {
        if let IpAddr::V4(dst_ip) = game_addr.ip {
            if is_forbidden_dst(dst_ip) || is_forbidden_dst_port(game_addr.port) {
                relay.stats.drop_in(DropReason::ForbiddenDst);
                flows.close(session_key(&session_id), name.as_str());
                return None;
            }
        }
        Some(
            FlowHandler {
                session_id,
                name,
                consecutive_recv_errors: 0,
                consecutive_send_errors: 0,
            },
        )
    }

    /// A packet was sent to the game server, or was not.
    pub fn sent(&mut self, error: Option<IoErrorKind>) -> (r: HandlerStep)
        requires
            old(self).wf(),
        ensures
            final(self).wf(),
            final(self).session_id == old(self).session_id,
            final(self).name == old(self).name,
            final(self).consecutive_recv_errors == old(self).consecutive_recv_errors,
            (final(self).consecutive_send_errors, r) == after_send(
                old(self).consecutive_send_errors,
                error,
            ),
    {
        match error {
            None => {
                self.consecutive_send_errors = 0;
                HandlerStep::Continue
            },
            Some(kind) => {
                if is_transient_send_error(kind) {
                    return HandlerStep::Continue;
                }
                let (errors, step) = count_error(self.consecutive_send_errors);
                self.consecutive_send_errors = errors;
                step
            },
        }
    }

    /// A receive from the game server failed.
    pub fn receive_failed(&mut self, kind: IoErrorKind) -> (r: HandlerStep)
        requires
            old(self).wf(),
        ensures
            final(self).wf(),
            final(self).session_id == old(self).session_id,
            final(self).name == old(self).name,
            final(self).consecutive_send_errors == old(self).consecutive_send_errors,
            (final(self).consecutive_recv_errors, r) == after_failed_receive(
                old(self).consecutive_recv_errors,
                kind,
            ),
    {
        if is_transient_recv_error(kind) {
            return HandlerStep::Continue;
        }
        let (errors, step) = count_error(self.consecutive_recv_errors);
        self.consecutive_recv_errors = errors;
        step
    }

    /// The game server sent a payload. The flow and its session have activity, and the
    /// client gets the payload as the answer to its latest packet.
    pub fn responded(
        &mut self,
        relay: &mut Relay,
        flows: &mut V1Flows,
        payload: &[u8],
        now: u64,
        now_unix: u64,
    ) -> (r: ResponseStep)
        requires
            old(self).wf(),
            old(relay).wf(),
            payload@.len() + 36 <= usize::MAX,
        ensures
            final(self).wf(),
            final(self).session_id == old(self).session_id,
            final(self).name == old(self).name,
            final(self).consecutive_send_errors == old(self).consecutive_send_errors,
            final(self).consecutive_recv_errors == 0,
            final(relay).wf(),
            final(relay).same_setup(*old(relay)),
            response_taken(
                old(self).session_id@,
                old(self).name@,
                payload@,
                now,
                now_unix,
                old(flows)@,
                old(relay)@,
                r,
                final(flows)@,
                final(relay)@,
            ),
            !old(flows)@.flows.contains_key(old(self).name@) ==> *final(flows) == *old(flows)
                && *final(relay) == *old(relay),
    {
        self.consecutive_recv_errors = 0;
        let key: u64 = session_key(&self.session_id);
        let f: FlowRecord = match flows.get(self.name.as_str()) {
            Some(f) => f,
            None => {
                if relay.sessions.contains(key) {
                    return ResponseStep::Skip;
                }
                return ResponseStep::Stop;
            },
        };
        let packet: Vec<u8> = build_response_ip_packet(payload, f.original_info);
        let frame: Vec<u8> = packet_frame(&self.session_id, packet.as_slice());
        flows.mark_active(self.name.as_str(), f, now);
        relay.mark_active(key, now, now_unix);
        ResponseStep::Send { client_addr: f.client_addr, frame }
    }

    /// Nothing happened for a while: the task ends if its flow is gone.
    pub fn idle(&self, flows: &V1Flows) -> (r: HandlerStep)
        ensures
            r == idle_step(flows@, self.name@),
    {
        match flows.get(self.name.as_str()) {
            Some(_) => HandlerStep::Continue,
            None => HandlerStep::Stop,
        }
    }
}

/// The client gets what its game server sent at the endpoint of its latest packet: the
/// session id, and behind it a datagram from where that packet went to where it came from,
/// with the payload and nothing else.
pub proof fn answers_go_back_where_the_packet_came_from(
    id: Seq<u8>,
    name: Seq<char>,
    payload: Seq<u8>,
    now: u64,
    now_unix: u64,
    v: FlowsView,
    relay: RelayView,
    r: ResponseStep,
    v_after: FlowsView,
    relay_after: RelayView,
)
    requires
        id.len() == 8,
        payload.len() + 28 < 0x1_0000,
        v.flows.contains_key(name),
        response_taken(id, name, payload, now, now_unix, v, relay, r, v_after, relay_after),
    ensures
        ({
            let f = v.flows[name];
            let info = f.original_info;
            &&& r matches ResponseStep::Send { client_addr, frame } && {
                let p = frame@;
                &&& client_addr == f.client_addr
                &&& p.len() == payload.len() + 36
                &&& forall|i: int| 0 <= i < 8 ==> #[trigger] p[i] == id[i]
                &&& p[8] == 0x45 && p[9] == info.tos && p[17] == 17
                &&& p[10] as int * 256 + p[11] as int == payload.len() + 28
                &&& p[20] == info.dst_ip.a && p[21] == info.dst_ip.b && p[22] == info.dst_ip.c && p[23]
                    == info.dst_ip.d
                &&& p[24] == info.src_ip.a && p[25] == info.src_ip.b && p[26] == info.src_ip.c && p[27]
                    == info.src_ip.d
                &&& p[28] as int * 256 + p[29] as int == info.dst_port
                &&& p[30] as int * 256 + p[31] as int == info.src_port
                &&& forall|i: int| 0 <= i < payload.len() ==> #[trigger] payload[i] == p[36 + i]
            }
        }),
{
    let f = v.flows[name];
    responses_go_the_other_way(payload, f.original_info, f.original_info.tos);
    let q = response(payload, f.original_info, f.original_info.tos);
    let p = id + q;
    assert forall|i: int| 0 <= i < payload.len() implies #[trigger] payload[i] == p[36 + i] by {
        assert(q[28 + i] == p[36 + i]);
    }
    assert forall|i: int| 0 <= i < q.len() implies q[i] == #[trigger] p[i + 8] by {}
    assert(p[0 + 8int] == q[0] && p[1 + 8int] == q[1] && p[9 + 8int] == q[9]);
    assert(p[2 + 8int] == q[2] && p[3 + 8int] == q[3]);
    assert(p[12 + 8int] == q[12] && p[13 + 8int] == q[13] && p[14 + 8int] == q[14] && p[15 + 8int] == q[15]);
    assert(p[16 + 8int] == q[16] && p[17 + 8int] == q[17] && p[18 + 8int] == q[18] && p[19 + 8int] == q[19]);
    assert(p[20 + 8int] == q[20] && p[21 + 8int] == q[21] && p[22 + 8int] == q[22] && p[23 + 8int] == q[23]);
}

/// What a game server sends is activity of its flow and of the session, and changes
/// nothing else: not whom the flow answers, nor another flow or session, nor a count.
pub proof fn answers_are_activity(
    id: Seq<u8>,
    name: Seq<char>,
    payload: Seq<u8>,
    now: u64,
    now_unix: u64,
    v: FlowsView,
    relay: RelayView,
    r: ResponseStep,
    v_after: FlowsView,
    relay_after: RelayView,
    other: u64,
)
    requires
        response_taken(id, name, payload, now, now_unix, v, relay, r, v_after, relay_after),
    ensures
        ({
            let key = be64(id) as u64;
            let s = relay.sessions[key];
            let t = relay_after.sessions[key];
            let known = v.flows.contains_key(name);
            &&& known ==> v_after.flows[name].last_activity == now
                && v_after.flows[name].marked_for_removal is None && v_after.flows[name].client_addr
                == v.flows[name].client_addr && v_after.flows[name].original_info
                == v.flows[name].original_info
            &&& relay_after.sessions.dom() == relay.sessions.dom()
            &&& known && relay.sessions.contains_key(key) ==> t.last_activity == now
                && t.last_activity_unix == now_unix && t.user_id == s.user_id && t.client_addr
                == s.client_addr && t.auth_state == s.auth_state
            &&& other != key && relay.sessions.contains_key(other) ==> relay_after.sessions[other]
                == relay.sessions[other]
            &&& relay_after.stats == relay.stats && relay_after.counts == relay.counts
                && relay_after.traffic == relay.traffic && relay_after.limiter == relay.limiter
                && relay_after.replay == relay.replay && relay_after.policy == relay.policy
            &&& !known ==> v_after == v && relay_after == relay && r !is Send
            &&& r is Stop <==> !known && !relay.sessions.contains_key(key)
        }),
{
    assert(relay_after.sessions.dom() =~= relay.sessions.dom());
}

/// A count of errors after `n` errors in a row that do not pass, and what follows from the
/// last one.
pub open spec fn after_errors(errors: u32, n: nat) -> (u32, HandlerStep)
    decreases n,
{
    if n == 0 {
        (errors, HandlerStep::Continue)
    } else {
        failed(after_errors(errors, (n - 1) as nat).0)
    }
}

/// The fifth error in a row ends a flow, and none before it does. Errors that pass count
/// for nothing, and a success starts the count anew; a reset passes where it comes up on
/// a receive, not where it does on a send.
pub proof fn five_errors_in_a_row_end_a_flow(n: nat, errors: u32, kind: IoErrorKind)
    requires
        0 < n,
    ensures
        after_errors(0, n).1 is Stop <==> n >= 5,
        n < 5 ==> after_errors(0, n).1 is Pause,
        after_send(errors, None) == (0u32, HandlerStep::Continue),
        kind is Other || kind is PermissionDenied || kind is ConnectionReset ==> after_send(
            errors,
            Some(kind),
        ) == failed(errors),
        !(kind is Other || kind is PermissionDenied || kind is ConnectionReset) ==> after_send(
            errors,
            Some(kind),
        ) == (errors, HandlerStep::Continue),
        kind is Other || kind is PermissionDenied ==> after_failed_receive(errors, kind) == failed(errors),
        !(kind is Other || kind is PermissionDenied) ==> after_failed_receive(errors, kind) == (
            errors,
            HandlerStep::Continue,
        ),
{
    lemma_after_errors(n);
}

proof fn lemma_after_errors(n: nat)
    ensures
        n < 5 ==> after_errors(0, n).0 == n,
        n >= 5 ==> after_errors(0, n).0 >= 5,
        n > 0 ==> (after_errors(0, n).1 is Stop <==> n >= 5),
        0 < n < 5 ==> after_errors(0, n).1 is Pause,
    decreases n,
{
    if n > 0 {
        lemma_after_errors((n - 1) as nat);
    }
}

/// A flow goes to any address of IPv6, and to those of IPv4 that are allowed.
pub proof fn flows_reach_allowed_addresses(ip: Ipv4Addr, bits: u128, port: u16)
    ensures
        reachable(SocketAddr { ip: IpAddr::V6(bits), port }),
        reachable(SocketAddr { ip: IpAddr::V4(ip), port }) <==> !forbidden_ip(ip) && !forbidden_port(
            port,
        ),
{
}

/// A flow to a forbidden game server is not started: it is gone, and the packet is counted
/// as dropped for that. Any other is started without errors, and nothing else changes.
pub proof fn forbidden_flows_are_closed(
    session_id: [u8; 8],
    name: Seq<char>,
    ip: Ipv4Addr,
    port: u16,
    r: Option<FlowHandler>,
    relay: RelayView,
    v: FlowsView,
    relay_after: RelayView,
    v_after: FlowsView,
)
    requires
        started(
            session_id,
            name,
            SocketAddr { ip: IpAddr::V4(ip), port },
            r,
            relay,
            v,
            relay_after,
            v_after,
        ),
    ensures
        ({
            let refused = forbidden_ip(ip) || forbidden_port(port);
            &&& r is None <==> refused
            &&& refused ==> !v_after.flows.contains_key(name) && relay_after.stats.dropped_in == next(
                relay.stats.dropped_in,
            ) && relay_after.stats.drop_reasons == relay.stats.drop_reasons.plus(DropReason::ForbiddenDst)
                && relay_after.sessions == relay.sessions
            &&& !refused ==> relay_after == relay && v_after == v && r->Some_0.session_id == session_id
                && r->Some_0.name@ == name && r->Some_0.consecutive_recv_errors == 0
                && r->Some_0.consecutive_send_errors == 0
        }),
{
}

/// A task goes on for as long as its flow is there.
pub proof fn tasks_end_with_their_flow(v: FlowsView, key: u64, name: Seq<char>)
    ensures
        v.flows.contains_key(name) <==> idle_step(v, name) is Continue,
        idle_step(v.closed(key, name), name) is Stop,
{
}

} // verus!
