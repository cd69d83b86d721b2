//! The frames that clients send, told apart, and the frames that answer them.
//!
//! Every frame starts with the session id. A frame that is not one of the control
//! frames carries an IPv4 packet behind it.

use crate::auth::AUTH_HELLO_FRAME_TYPE;
use crate::limits::SESSION_ID_LEN;
use crate::resolve::RESOLVE_REQUEST_FRAME_TYPE;
use vstd::prelude::*;

verus! {

pub const PING_FRAME_TYPE: u8 = 0xA3;

pub const PONG_FRAME_TYPE: u8 = 0xA4;

/// The client's own measure of the round trip.
pub const RTT_REPORT_FRAME_TYPE: u8 = 0xA5;

/// Session id, type, sequence number, the client's time.
pub const PING_FRAME_LEN: usize = 21;

/// A ping with the relay's time behind it.
pub const PONG_FRAME_LEN: usize = 29;

/// Session id, type, microseconds.
pub const RTT_REPORT_FRAME_LEN: usize = 13;

#[derive(Clone, Copy, PartialEq, Eq, Structural, Debug)]
pub enum FrameKind {
    /// Too short for a session id.
    TooShort,
    Hello,
    Ping,
    Pong,
    RttReport,
    Resolve,
    Keepalive,
    Packet,
}

/// What a frame is.
pub open spec fn kind_of(frame: Seq<u8>) -> FrameKind {
    if frame.len() < 8 {
        FrameKind::TooShort
    } else if frame.len() == 8 {
        FrameKind::Keepalive
    } else if frame.len() >= 11 && frame[8] == AUTH_HELLO_FRAME_TYPE {
        FrameKind::Hello
    } else if frame.len() == PING_FRAME_LEN && frame[8] == PING_FRAME_TYPE {
        FrameKind::Ping
    } else if frame.len() == PONG_FRAME_LEN && frame[8] == PONG_FRAME_TYPE {
        FrameKind::Pong
    } else if frame.len() == RTT_REPORT_FRAME_LEN && frame[8] == RTT_REPORT_FRAME_TYPE {
        FrameKind::RttReport
    } else if frame[8] == RESOLVE_REQUEST_FRAME_TYPE {
        FrameKind::Resolve
    } else {
        FrameKind::Packet
    }
}

pub fn classify(frame: &[u8]) -> (r: FrameKind)
    ensures
        r == kind_of(frame@),
{
    let len: usize = frame.len();
    if len < SESSION_ID_LEN {
        return FrameKind::TooShort;
    }
    if len == SESSION_ID_LEN {
        return FrameKind::Keepalive;
    }
    let kind: u8 = frame[SESSION_ID_LEN];
    if len >= SESSION_ID_LEN + 3 && kind == AUTH_HELLO_FRAME_TYPE {
        FrameKind::Hello
    } else if len == PING_FRAME_LEN && kind == PING_FRAME_TYPE {
        FrameKind::Ping
    } else if len == PONG_FRAME_LEN && kind == PONG_FRAME_TYPE {
        FrameKind::Pong
    } else if len == RTT_REPORT_FRAME_LEN && kind == RTT_REPORT_FRAME_TYPE {
        FrameKind::RttReport
    } else if kind == RESOLVE_REQUEST_FRAME_TYPE {
        FrameKind::Resolve
    } else {
        FrameKind::Packet
    }
}

/// The session id at the start of a frame.
pub fn session_id_in(frame: &[u8]) -> (r: [u8; 8])
    requires
        frame@.len() >= 8,
    ensures
        r@ == frame@.subrange(0, 8),
{
    let r = [frame[0], frame[1], frame[2], frame[3], frame[4], frame[5], frame[6], frame[7]];
    assert(r@ =~= frame@.subrange(0, 8));
    r
}

/// A 64-bit number as big-endian bytes.
pub open spec fn be64_bytes(v: u64) -> Seq<u8> {
    seq![
        (v / 0x100_0000_0000_0000) as u8,
        (v / 0x1_0000_0000_0000 % 0x100) as u8,
        (v / 0x100_0000_0000 % 0x100) as u8,
        (v / 0x1_0000_0000 % 0x100) as u8,
        (v / 0x100_0000 % 0x100) as u8,
        (v / 0x1_0000 % 0x100) as u8,
        (v / 0x100 % 0x100) as u8,
        (v % 0x100) as u8,
    ]
}

/// The answer to a ping: the session id, the sequence number and the client's time of
/// the ping, and the relay's time.
pub open spec fn pong(ping: Seq<u8>, now_ms: u64) -> Seq<u8> {
    ping.subrange(0, 8) + seq![PONG_FRAME_TYPE] + ping.subrange(9, 21) + be64_bytes(now_ms)
}

pub fn pong_frame(ping: &[u8], now_ms: u64) -> (r: Vec<u8>)
    requires
        ping@.len() == PING_FRAME_LEN,
    ensures
        r@ == pong(ping@, now_ms),
        r@.len() == PONG_FRAME_LEN,
{
    let mut r: Vec<u8> = Vec::with_capacity(PONG_FRAME_LEN);
    r.extend_from_slice(&ping[0..8]);
    r.push(PONG_FRAME_TYPE);
    r.extend_from_slice(&ping[9..21]);
    r.push((now_ms / 0x100_0000_0000_0000) as u8);
    r.push((now_ms / 0x1_0000_0000_0000 % 0x100) as u8);
    r.push((now_ms / 0x100_0000_0000 % 0x100) as u8);
    r.push((now_ms / 0x1_0000_0000 % 0x100) as u8);
    r.push((now_ms / 0x100_0000 % 0x100) as u8);
    r.push((now_ms / 0x1_0000 % 0x100) as u8);
    r.push((now_ms / 0x100 % 0x100) as u8);
    r.push((now_ms % 0x100) as u8);
    assert(r@ =~= pong(ping@, now_ms));
    r
}

/// The microseconds that a report gives.
pub fn reported_rtt(frame: &[u8]) -> (r: u64)
    requires
        frame@.len() == RTT_REPORT_FRAME_LEN,
    ensures
        r == crate::bytes::be32(frame@, 9),
{
    frame[9] as u64 * 0x100_0000 + frame[10] as u64 * 0x1_0000 + frame[11] as u64 * 0x100
        + frame[12] as u64
}

/// A frame that carries a packet to the client of a session.
pub fn packet_frame(session_id: &[u8; 8], packet: &[u8]) -> (r: Vec<u8>)
    requires
        packet@.len() + 8 <= usize::MAX,
    ensures
        r@ == session_id@ + packet@,
{
    let mut frame: Vec<u8> = Vec::with_capacity(8 + packet.len());
    frame.extend_from_slice(session_id);
    frame.extend_from_slice(packet);
    assert(frame@ =~= session_id@ + packet@);
    frame
}

/// What a frame is, by its length and its ninth byte.
pub proof fn frames_are_told_by_length_and_type(frame: Seq<u8>)
    ensures
        kind_of(frame) is TooShort <==> frame.len() < 8,
        kind_of(frame) is Keepalive <==> frame.len() == 8,
        kind_of(frame) is Hello <==> frame.len() >= 11 && frame[8] == 0xA1,
        kind_of(frame) is Ping <==> frame.len() == 21 && frame[8] == 0xA3,
        kind_of(frame) is Pong <==> frame.len() == 29 && frame[8] == 0xA4,
        kind_of(frame) is RttReport <==> frame.len() == 13 && frame[8] == 0xA5,
        kind_of(frame) is Resolve <==> frame.len() > 8 && frame[8] == 0xA6,
{
}

/// A pong repeats the session id, the sequence number and the client's time of the ping,
/// and has the relay's time behind them, big-endian.
pub proof fn pongs_repeat_the_ping(ping: Seq<u8>, now_ms: u64)
    requires
        ping.len() == 21,
    ensures
        ({
            let r = pong(ping, now_ms);
            &&& r.len() == 29
            &&& r[8] == 0xA4
            &&& forall|i: int| 0 <= i < 21 && i != 8 ==> #[trigger] r[i] == ping[i]
            &&& ((((((r[21] * 256 + r[22]) * 256 + r[23]) * 256 + r[24]) * 256 + r[25]) * 256 + r[26]) * 256
                + r[27]) * 256 + r[28] == now_ms
        }),
{
    let r = pong(ping, now_ms);
    let b = be64_bytes(now_ms);
    assert(r[21] == b[0] && r[22] == b[1] && r[23] == b[2] && r[24] == b[3] && r[25] == b[4] && r[26]
        == b[5] && r[27] == b[6] && r[28] == b[7]);
    lemma_be64_bytes(now_ms);
}

/// Eight bytes are the base-256 digits of their number.
proof fn lemma_be64_bytes(now_ms: u64)
    ensures
        ({
            let b = be64_bytes(now_ms);
            ((((((b[0] * 256 + b[1]) * 256 + b[2]) * 256 + b[3]) * 256 + b[4]) * 256 + b[5]) * 256 + b[6])
                * 256 + b[7] == now_ms
        }),
{
    let v = now_ms as int;
    let x1 = v / 256;
    let x2 = x1 / 256;
    let x3 = x2 / 256;
    let x4 = x3 / 256;
    let x5 = x4 / 256;
    let x6 = x5 / 256;
    let x7 = x6 / 256;
    vstd::arithmetic::div_mod::lemma_div_denominator(v, 0x100, 256);
    vstd::arithmetic::div_mod::lemma_div_denominator(v, 0x1_0000, 256);
    vstd::arithmetic::div_mod::lemma_div_denominator(v, 0x100_0000, 256);
    vstd::arithmetic::div_mod::lemma_div_denominator(v, 0x1_0000_0000, 256);
    vstd::arithmetic::div_mod::lemma_div_denominator(v, 0x100_0000_0000, 256);
    vstd::arithmetic::div_mod::lemma_div_denominator(v, 0x1_0000_0000_0000, 256);
    let b = be64_bytes(now_ms);
    assert(b[7] == v % 256);
    assert(b[6] == x1 % 256);
    assert(b[5] == x2 % 256);
    assert(b[4] == x3 % 256);
    assert(b[3] == x4 % 256);
    assert(b[2] == x5 % 256);
    assert(b[1] == x6 % 256);
    assert(b[0] == x7);
    assert(x6 == x7 * 256 + b[1]);
    assert(x5 == x6 * 256 + b[2]);
    assert(x4 == x5 * 256 + b[3]);
    assert(x3 == x4 * 256 + b[4]);
    assert(x2 == x3 * 256 + b[5]);
    assert(x1 == x2 * 256 + b[6]);
    assert(v == x1 * 256 + b[7]);
}

} // verus!
