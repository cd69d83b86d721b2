//! The second datapath's way of a packet through the buffer pool and the queues.

use crate::addr::SocketAddr;
use crate::bytes::{copy_into, overwritten};
use crate::flow_handler::IoErrorKind;
use crate::flows::FlowRecord;
use crate::num::next;
use crate::packet::{
    response, responses_go_the_other_way, write_response_ip_packet_into, OriginalPacketInfo,
};
use crate::pool::{BufferPool, PoolView, MAX_PACKET_SIZE};
use crate::relay::{Relay, RelayView};
use crate::shard::{
    should_drop_stale_queued_packet, stale, FlowKey, PacketStep, QueuedPacketKind, Shard, ShardFlow,
    ShardView,
};
use crate::source::SourceLimitKind;
use crate::stats::{allow_source_event, DropReason, Stats};
use vstd::multiset::Multiset;
use vstd::prelude::*;

verus! {

/// A frame in a buffer of the pool, on its way to a client.
#[derive(Clone, Copy)]
pub struct QueuedFrame {
    pub addr: SocketAddr,
    pub session_id: [u8; 8],
    pub buf_idx: usize,
    pub len: usize,
    /// Nanoseconds of a monotonic clock.
    pub enqueued_at: u64,
    pub kind: QueuedPacketKind,
}

/// With a time noted when the pool was empty.
pub open spec fn exhausted(s: Stats) -> Stats {
    Stats { pool_exhausted: next(s.pool_exhausted), ..s }
}

impl RelayView {
    /// With a frame to a client dropped.
    pub open spec fn with_reply_dropped(self, reason: DropReason) -> RelayView {
        RelayView { stats: self.stats.with_drop_out(reason), ..self }
    }

    /// With a time noted when the pool was empty.
    pub open spec fn with_empty_pool(self) -> RelayView {
        RelayView { stats: exhausted(self.stats), ..self }
    }

    /// With another flow of a source asked for.
    pub open spec fn with_flow_asked(self, client_addr: SocketAddr, now: u64) -> RelayView {
        RelayView {
            limiter: self.limiter.after(client_addr.ip, SourceLimitKind::NewFlow, now),
            stats: if self.limiter.has_room(client_addr.ip, SourceLimitKind::NewFlow, now) {
                self.stats
            } else {
                self.stats.throttled()
            },
            ..self
        }
    }

    /// With a payload sent to a game server, or not: a socket that is not ready is a drop.
    pub open spec fn with_payload_sent(self, error: Option<IoErrorKind>) -> RelayView {
        if error == Some(IoErrorKind::WouldBlock) {
            self.with_drop(DropReason::FlowSend)
        } else {
            self
        }
    }

    /// With a queued frame sent, or not.
    pub open spec fn with_queued_sent(self, q: QueuedFrame, sent: bool, now_unix: u64) -> RelayView {
        if sent {
            self.with_frame_sent(crate::bytes::be64(q.session_id@) as u64, q.len as int, now_unix)
        } else {
            self.with_reply_dropped(DropReason::SocketSend)
        }
    }
}

/// Whether `after` is `before` with the next free buffer taken and `bytes` over its
/// start.
pub open spec fn staged(before: PoolView, after: PoolView, idx: usize, bytes: Seq<u8>) -> bool {
    &&& before.free.len() > 0
    &&& idx == before.free[0]
    &&& after.free == before.free.drop_first()
    &&& after.buffers.len() == before.buffers.len()
    &&& after.in_use(idx)
    &&& bytes.len() <= before.buffers[idx as int].len()
    &&& after.buffers[idx as int] == overwritten(before.buffers[idx as int], 0, bytes)
    &&& forall|i: int|
        0 <= i < after.buffers.len() && i != idx ==> #[trigger] after.buffers[i] == before.buffers[i]
}

/// Takes a free buffer and puts `bytes` at its start.
fn stage(pool: &mut BufferPool, bytes: &[u8]) -> (r: Option<usize>)
    requires
        old(pool).wf(),
        bytes@.len() <= MAX_PACKET_SIZE,
    ensures
        final(pool).wf(),
        match r {
            Some(idx) => staged(old(pool)@, final(pool)@, idx, bytes@),
            None => old(pool)@.free.len() == 0 && final(pool)@ == old(pool)@,
        },
{
    let ghost before = pool@;
    match pool.try_acquire() {
        None => None,
        Some(idx) => {
            proof {
                pool.lemma_wf();
            }
            copy_into(pool.buffer_mut(idx), 0, bytes);
            proof {
                let b = before.buffers[idx as int];
                assert(pool@.buffers[idx as int] == overwritten(b, 0, bytes@));
            }
            Some(idx)
        },
    }
}

/// Puts a client's payload into a buffer for its shard. Where there is none, the
/// packet is dropped.
pub fn stage_payload(pool: &mut BufferPool, relay: &mut Relay, payload: &[u8]) -> (r: Option<usize>)
    requires
        old(pool).wf(),
        old(relay).wf(),
        payload@.len() <= MAX_PACKET_SIZE,
    ensures
        final(pool).wf(),
        final(relay).wf(),
        final(relay).same_setup(*old(relay)),
        match r {
            Some(idx) => staged(old(pool)@, final(pool)@, idx, payload@) && *final(relay) == *old(relay),
            None => old(pool)@.free.len() == 0 && final(pool)@ == old(pool)@ && final(relay)@
                == old(relay)@.with_drop(DropReason::Pool).with_empty_pool(),
        },
{
    match stage(pool, payload) {
        Some(idx) => Some(idx),
        None => {
            relay.stats.drop_in(DropReason::Pool);
            relay.stats.pool_exhausted = relay.stats.pool_exhausted.wrapping_add(1);
            None
        },
    }
}

/// Drops a client's packet, whose payload is in a buffer, which is given back.
pub fn drop_payload(pool: &mut BufferPool, relay: &mut Relay, payload_idx: usize, reason: DropReason)
    requires
        old(pool).wf(),
        old(pool)@.in_use(payload_idx),
        old(relay).wf(),
    ensures
        final(pool).wf(),
        final(pool)@ == old(pool)@.released(payload_idx),
        final(relay).wf(),
        final(relay).same_setup(*old(relay)),
        final(relay)@ == old(relay)@.with_drop(reason),
{
    relay.stats.drop_in(reason);
    pool.release(payload_idx);
}

/// Whether a client may open another flow, for a packet whose payload is in a buffer.
/// Where its source has opened too many, the packet is dropped and the buffer is given
/// back.
pub fn admit_flow(
    pool: &mut BufferPool,
    relay: &mut Relay,
    payload_idx: usize,
    client_addr: SocketAddr,
    now: u64,
) -> (r: bool)
    requires
        old(pool).wf(),
        old(pool)@.in_use(payload_idx),
        old(relay).wf(),
    ensures
        final(pool).wf(),
        final(relay).wf(),
        final(relay).same_setup(*old(relay)),
        r == old(relay)@.limiter.has_room(client_addr.ip, SourceLimitKind::NewFlow, now),
        final(pool)@ == if r {
            old(pool)@
        } else {
            old(pool)@.released(payload_idx)
        },
        final(relay)@ == old(relay)@.with_flow_asked(client_addr, now),
{
    let r: bool = allow_source_event(
        &mut relay.limiter,
        &mut relay.stats,
        client_addr,
        SourceLimitKind::NewFlow,
        now,
    );
    if !r {
        pool.release(payload_idx);
    }
    r
}

/// A client's payload was sent to the game server, or was not; its buffer is given
/// back. A socket that is not ready is a drop; other errors are not counted.
pub fn payload_sent(
    pool: &mut BufferPool,
    relay: &mut Relay,
    payload_idx: usize,
    error: Option<IoErrorKind>,
)
    requires
        old(pool).wf(),
        old(pool)@.in_use(payload_idx),
        old(relay).wf(),
    ensures
        final(pool).wf(),
        final(pool)@ == old(pool)@.released(payload_idx),
        final(relay).wf(),
        final(relay).same_setup(*old(relay)),
        final(relay)@ == old(relay)@.with_payload_sent(error),
{
    pool.release(payload_idx);
    if let Some(IoErrorKind::WouldBlock) = error {
        relay.stats.drop_in(DropReason::FlowSend);
    }
}

/// A client's packet that waits for its shard; its payload is in a buffer.
#[derive(Clone, Copy)]
pub struct ClientPacket {
    pub key: FlowKey,
    pub client_addr: SocketAddr,
    pub original_info: OriginalPacketInfo,
    pub payload_idx: usize,
    pub payload_len: usize,
    /// Nanoseconds of a monotonic clock.
    pub enqueued_at: u64,
}

/// What a shard does next with a client's packet.
#[derive(Clone, Copy, PartialEq, Eq, Structural, Debug)]
pub enum PacketTask {
    /// Nothing: it was dropped, and its buffer was given back.
    Dropped,
    /// Send its payload over the socket with this token.
    Send(usize),
    /// Open a socket to its game server.
    Open,
}

/// What becomes of the pool: the buffer of a packet that is dropped is given back.
pub open spec fn kept_or_released(before: PoolView, idx: usize, task: PacketTask) -> PoolView {
    if task is Dropped {
        before.released(idx)
    } else {
        before
    }
}

/// The record of a flow that a client's packet is for.
pub open spec fn record_of(p: ClientPacket, now: u64) -> FlowRecord {
    FlowRecord {
        client_addr: p.client_addr,
        last_activity: now,
        original_info: p.original_info,
        marked_for_removal: None,
    }
}

/// What taking up a client's packet does to the relay and the shard.
pub open spec fn packet_taken(
    relay: RelayView,
    shard: ShardView,
    p: ClientPacket,
    now: u64,
    r: PacketTask,
    relay_after: RelayView,
    shard_after: ShardView,
) -> bool {
    if stale(QueuedPacketKind::Data, p.enqueued_at, now) {
        &&& r is Dropped
        &&& relay_after == relay.with_drop(DropReason::StaleQueue)
        &&& shard_after == shard
    } else if shard.has(p.key) {
        let id = p.key.number() as u128;
        &&& r == PacketTask::Send(shard.flows[id].token)
        &&& relay_after == relay
        &&& shard_after == shard.changed(id, record_of(p, now))
    } else {
        let admitted = relay.limiter.has_room(p.client_addr.ip, SourceLimitKind::NewFlow, now);
        &&& r == if admitted {
            PacketTask::Open
        } else {
            PacketTask::Dropped
        }
        &&& relay_after == relay.with_flow_asked(p.client_addr, now)
        &&& shard_after == shard
    }
}

/// Takes up a client's packet: one that has waited for too long is dropped, and so is
/// one that would open another flow of a source that has opened too many.
pub fn take_packet(
    pool: &mut BufferPool,
    relay: &mut Relay,
    shard: &mut Shard,
    p: ClientPacket,
    now: u64,
) -> (r: PacketTask)
    requires
        old(pool).wf(),
        old(pool)@.in_use(p.payload_idx),
        old(relay).wf(),
        old(shard).wf(),
    ensures
        final(pool).wf(),
        final(relay).wf(),
        final(relay).same_setup(*old(relay)),
        final(shard).wf(),
        final(shard).next_token == old(shard).next_token,
        final(pool)@ == kept_or_released(old(pool)@, p.payload_idx, r),
        packet_taken(old(relay)@, old(shard)@, p, now, r, final(relay)@, final(shard)@),
{
    match shard.packet_step(p.key, p.enqueued_at, now) {
        PacketStep::Stale => {
            drop_payload(pool, relay, p.payload_idx, DropReason::StaleQueue);
            PacketTask::Dropped
        },
        PacketStep::Known(token) => {
            shard.use_flow(p.key, p.client_addr, p.original_info, now);
            PacketTask::Send(token)
        },
        PacketStep::New => {
            if admit_flow(pool, relay, p.payload_idx, p.client_addr, now) {
                PacketTask::Open
            } else {
                PacketTask::Dropped
            }
        },
    }
}

/// What a socket that was opened, or was not, does to the relay and the shard.
pub open spec fn flow_set_up(
    relay: RelayView,
    shard: ShardView,
    p: ClientPacket,
    token: Option<usize>,
    now: u64,
    r: PacketTask,
    relay_after: RelayView,
    shard_after: ShardView,
) -> bool {
    match token {
        Some(t) => {
            &&& r == PacketTask::Send(t)
            &&& relay_after == relay
            &&& shard_after == shard.with(
                ShardFlow { key: p.key, record: record_of(p, now), token: t },
            )
        },
        None => {
            &&& r is Dropped
            &&& relay_after == relay.with_drop(DropReason::FlowCreate)
            &&& shard_after == shard
        },
    }
}

/// A socket to the game server of a client's packet was opened, with a token, or was
/// not; then the packet is dropped.
pub fn flow_opened(
    pool: &mut BufferPool,
    relay: &mut Relay,
    shard: &mut Shard,
    p: ClientPacket,
    token: Option<usize>,
    now: u64,
) -> (r: PacketTask)
    requires
        old(pool).wf(),
        old(pool)@.in_use(p.payload_idx),
        old(relay).wf(),
        old(shard).wf(),
        !old(shard)@.has(p.key),
        token matches Some(t) ==> t != 0 && !old(shard)@.tokens.contains_key(t),
    ensures
        final(pool).wf(),
        final(relay).wf(),
        final(relay).same_setup(*old(relay)),
        final(shard).wf(),
        final(shard).next_token == old(shard).next_token,
        final(pool)@ == kept_or_released(old(pool)@, p.payload_idx, r),
        flow_set_up(old(relay)@, old(shard)@, p, token, now, r, final(relay)@, final(shard)@),
{
    match token {
        Some(token) => {
            shard.open_flow(p.key, token, p.client_addr, p.original_info, now);
            PacketTask::Send(token)
        },
        None => {
            drop_payload(pool, relay, p.payload_idx, DropReason::FlowCreate);
            PacketTask::Dropped
        },
    }
}

/// The queue entry of a control frame.
pub open spec fn queued_control(
    addr: SocketAddr,
    session_id: [u8; 8],
    frame: Seq<u8>,
    now: u64,
    buf_idx: usize,
) -> QueuedFrame {
    QueuedFrame {
        addr,
        session_id,
        buf_idx,
        len: frame.len() as usize,
        enqueued_at: now,
        kind: QueuedPacketKind::Control,
    }
}

/// Puts a control frame for a client into a buffer. Where there is none, the frame is
/// dropped.
pub fn stage_control_frame(
    pool: &mut BufferPool,
    relay: &mut Relay,
    addr: SocketAddr,
    session_id: [u8; 8],
    frame: &[u8],
    now: u64,
) -> (r: Option<QueuedFrame>)
    requires
        old(pool).wf(),
        old(relay).wf(),
        frame@.len() <= MAX_PACKET_SIZE,
    ensures
        final(pool).wf(),
        final(relay).wf(),
        final(relay).same_setup(*old(relay)),
        match r {
            Some(q) => {
                &&& staged(old(pool)@, final(pool)@, q.buf_idx, frame@)
                &&& *final(relay) == *old(relay)
                &&& q == queued_control(addr, session_id, frame@, now, q.buf_idx)
            },
            None => old(pool)@.free.len() == 0 && final(pool)@ == old(pool)@ && final(relay)@
                == old(relay)@.with_reply_dropped(DropReason::Pool).with_empty_pool(),
        },
{
    match stage(pool, frame) {
        Some(buf_idx) => Some(
            QueuedFrame {
                addr,
                session_id,
                buf_idx,
                len: frame.len(),
                enqueued_at: now,
                kind: QueuedPacketKind::Control,
            },
        ),
        None => {
            relay.stats.drop_out(DropReason::Pool);
            relay.stats.pool_exhausted = relay.stats.pool_exhausted.wrapping_add(1);
            None
        },
    }
}

/// What is done with what a game server sent to a flow.
pub enum ReplyStep {
    /// Queue this frame for the client.
    Queue(QueuedFrame),
    /// There was no buffer: leave the flow for now.
    NoBuffer,
    /// It does not fit: leave the flow for now.
    TooLong,
}

/// The frame with a game server's payload for the client of a flow.
pub open spec fn reply_frame(session_id: Seq<u8>, payload: Seq<u8>, f: ShardFlow) -> Seq<u8> {
    session_id + response(payload, f.record.original_info, f.record.original_info.tos)
}

/// The queue entry of such a frame.
pub open spec fn queued_reply(
    f: ShardFlow,
    session_id: [u8; 8],
    payload: Seq<u8>,
    now: u64,
    buf_idx: usize,
) -> QueuedFrame {
    QueuedFrame {
        addr: f.record.client_addr,
        session_id,
        buf_idx,
        len: reply_frame(session_id@, payload, f).len() as usize,
        enqueued_at: now,
        kind: QueuedPacketKind::Data,
    }
}

/// What becomes of the pool when a reply is staged: a buffer holds the frame, or none
/// was there, or the frame did not fit and the buffer, with the session id in it, was
/// given back.
pub open spec fn reply_staged(
    before: PoolView,
    after: PoolView,
    r: ReplyStep,
    session_id: Seq<u8>,
    frame: Seq<u8>,
) -> bool {
    match r {
        ReplyStep::Queue(q) => staged(before, after, q.buf_idx, frame),
        ReplyStep::NoBuffer => before.free.len() == 0 && after == before,
        ReplyStep::TooLong => {
            let idx = before.free[0];
            &&& before.free.len() > 0
            &&& after.free == before.acquired().released(idx).free
            &&& after.buffers == before.buffers.update(
                idx as int,
                overwritten(before.buffers[idx as int], 0, session_id),
            )
        },
    }
}

/// A shard in which a flow has activity from its game server.
pub open spec fn answered_flow(shard: ShardView, f: ShardFlow, now: u64) -> ShardView {
    shard.changed(
        f.key.number() as u128,
        FlowRecord { last_activity: now, marked_for_removal: None, ..f.record },
    )
}

/// What becomes of the relay when a game server's payload is taken up, and what is done
/// next: the session has activity; without a buffer the payload is dropped, and a frame
/// that fits is queued.
pub open spec fn reply_taken(
    relay: RelayView,
    buffered: bool,
    f: ShardFlow,
    session_id: [u8; 8],
    payload: Seq<u8>,
    now: u64,
    now_unix: u64,
    r: ReplyStep,
    relay_after: RelayView,
) -> bool {
    let active = relay.with_activity(f.key.sid, now, now_unix);
    if !buffered {
        &&& r is NoBuffer
        &&& relay_after == active.with_reply_dropped(DropReason::Pool).with_empty_pool()
    } else {
        &&& relay_after == active
        &&& if payload.len() + 36 > MAX_PACKET_SIZE {
            r is TooLong
        } else {
            r matches ReplyStep::Queue(q) && q == queued_reply(f, session_id, payload, now, q.buf_idx)
        }
    }
}

/// Takes up what a game server sent to a flow: the flow and its session have activity,
/// and the client gets the payload as the answer to its latest packet.
pub fn stage_reply(
    pool: &mut BufferPool,
    relay: &mut Relay,
    shard: &mut Shard,
    f: ShardFlow,
    session_id: [u8; 8],
    payload: &[u8],
    now: u64,
    now_unix: u64,
) -> (r: ReplyStep)
    requires
        old(pool).wf(),
        old(relay).wf(),
        old(shard).wf(),
        old(shard)@.has(f.key),
        old(shard)@.flows[f.key.number() as u128] == f,
        crate::bytes::be64(session_id@) == f.key.sid,
        payload@.len() <= MAX_PACKET_SIZE,
    ensures
        final(pool).wf(),
        final(relay).wf(),
        final(relay).same_setup(*old(relay)),
        final(shard).wf(),
        final(shard).next_token == old(shard).next_token,
        final(shard)@ == answered_flow(old(shard)@, f, now),
        reply_staged(
            old(pool)@,
            final(pool)@,
            r,
            session_id@,
            reply_frame(session_id@, payload@, f),
        ),
        reply_taken(
            old(relay)@,
            old(pool)@.free.len() > 0,
            f,
            session_id,
            payload@,
            now,
            now_unix,
            r,
            final(relay)@,
        ),
{
    shard.mark_active(f, now);
    relay.mark_active(f.key.sid, now, now_unix);
    let ghost before = pool@;
    let buf_idx: usize = match stage(pool, &session_id) {
        Some(idx) => idx,
        None => {
            relay.stats.drop_out(DropReason::Pool);
            relay.stats.pool_exhausted = relay.stats.pool_exhausted.wrapping_add(1);
            return ReplyStep::NoBuffer;
        },
    };
    let ghost mid = pool@;
    proof {
        pool.lemma_wf();
    }
    let written: Option<usize> = write_reply(pool, buf_idx, payload, f.record.original_info);
    match written {
        None => {
            assert(pool@.free == before.free.drop_first());
            assert(pool@.buffers =~= before.buffers.update(
                buf_idx as int,
                overwritten(before.buffers[buf_idx as int], 0, session_id@),
            ));
            pool.release(buf_idx);
            ReplyStep::TooLong
        },
        Some(ip_len) => {
            let ghost info = f.record.original_info;
            let ghost frame = session_id@ + response(payload@, info, info.tos);
            proof {
                let b = mid.buffers[buf_idx as int];
                assert(b.take(8) =~= session_id@);
                assert(pool@.buffers[buf_idx as int] =~= overwritten(
                    before.buffers[buf_idx as int],
                    0,
                    frame,
                ));
                assert(staged(before, pool@, buf_idx, frame));
            }
            ReplyStep::Queue(
                QueuedFrame {
                    addr: f.record.client_addr,
                    session_id,
                    buf_idx,
                    len: 8 + ip_len,
                    enqueued_at: now,
                    kind: QueuedPacketKind::Data,
                },
            )
        },
    }
}

/// Writes a response packet behind the session id in a buffer.
fn write_reply(
    pool: &mut BufferPool,
    idx: usize,
    payload: &[u8],
    info: OriginalPacketInfo,
) -> (r: Option<usize>)
    requires
        old(pool).wf(),
        old(pool)@.in_use(idx),
        payload@.len() <= MAX_PACKET_SIZE,
    ensures
        final(pool).wf(),
        final(pool)@.free == old(pool)@.free,
        final(pool)@.buffers.len() == old(pool)@.buffers.len(),
        forall|i: int|
            0 <= i < old(pool)@.buffers.len() && i != idx ==> #[trigger] final(pool)@.buffers[i]
                == old(pool)@.buffers[i],
        if payload@.len() + 36 > MAX_PACKET_SIZE {
            r is None && final(pool)@.buffers[idx as int] == old(pool)@.buffers[idx as int]
        } else {
            r == Some((payload@.len() + 28) as usize) && final(pool)@.buffers[idx as int]
                == old(pool)@.buffers[idx as int].take(8) + response(payload@, info, info.tos)
                + old(pool)@.buffers[idx as int].skip((payload@.len() + 36) as int)
        },
{
    proof {
        pool.lemma_wf();
    }
    let ghost b = pool@.buffers[idx as int];
    let mut tail: Vec<u8> = vec![0u8; MAX_PACKET_SIZE - 8];
    let r: Option<usize> = write_response_ip_packet_into(&mut tail, payload, info);
    if let Some(n) = r {
        assert(n == payload@.len() + 28);
        copy_into(pool.buffer_mut(idx), 8, &tail.as_slice()[0..n]);
        proof {
            assert(tail@.subrange(0, n as int) =~= response(payload@, info, info.tos));
            assert(pool@.buffers[idx as int] =~= b.take(8) + response(payload@, info, info.tos) + b.skip(
                (payload@.len() + 36) as int,
            ));
        }
    }
    r
}

/// The queue to the client was full: the frame is dropped and its buffer given back.
pub fn queue_refused(pool: &mut BufferPool, relay: &mut Relay, q: QueuedFrame)
    requires
        old(pool).wf(),
        old(pool)@.in_use(q.buf_idx),
        old(relay).wf(),
    ensures
        final(pool).wf(),
        final(pool)@ == old(pool)@.released(q.buf_idx),
        final(relay).wf(),
        final(relay).same_setup(*old(relay)),
        final(relay)@ == old(relay)@.with_reply_dropped(DropReason::TxQueue),
{
    relay.stats.drop_out(DropReason::TxQueue);
    pool.release(q.buf_idx);
}

/// Whether a queued frame is still to be sent; one that has waited for too long is
/// dropped and its buffer given back.
pub fn still_wanted(pool: &mut BufferPool, relay: &mut Relay, q: QueuedFrame, now: u64) -> (r: bool)
    requires
        old(pool).wf(),
        old(pool)@.in_use(q.buf_idx),
        old(relay).wf(),
    ensures
        final(pool).wf(),
        final(relay).wf(),
        final(relay).same_setup(*old(relay)),
        r == !stale(q.kind, q.enqueued_at, now),
        r ==> *final(pool) == *old(pool) && *final(relay) == *old(relay),
        !r ==> final(pool)@ == old(pool)@.released(q.buf_idx) && final(relay)@
            == old(relay)@.with_reply_dropped(DropReason::StaleQueue),
{
    if should_drop_stale_queued_packet(q.kind, q.enqueued_at, now) {
        relay.stats.drop_out(DropReason::StaleQueue);
        pool.release(q.buf_idx);
        return false;
    }
    true
}

/// A queued frame was sent, or was not; its buffer is given back.
pub fn send_done(pool: &mut BufferPool, relay: &mut Relay, q: QueuedFrame, sent: bool, now_unix: u64)
    requires
        old(pool).wf(),
        old(pool)@.in_use(q.buf_idx),
        old(relay).wf(),
    ensures
        final(pool).wf(),
        final(pool)@ == old(pool)@.released(q.buf_idx),
        final(relay).wf(),
        final(relay).same_setup(*old(relay)),
        final(relay)@ == old(relay)@.with_queued_sent(q, sent, now_unix),
{
    if sent {
        relay.frame_sent(crate::addr::session_key(&q.session_id), q.len, now_unix);
    } else {
        relay.stats.drop_out(DropReason::SocketSend);
    }
    pool.release(q.buf_idx);
}

/// Where the buffers of a pool are: they are free, or each with a client's packet that
/// waits for its shard or is taken up there, or with a frame that is on its way to a
/// client.
pub ghost struct Ledger {
    pub pool: PoolView,
    pub packets: Multiset<usize>,
    pub frames: Multiset<usize>,
}

impl Ledger {
    /// In how many places a buffer is.
    pub open spec fn places(self, idx: usize) -> nat {
        self.pool.free.to_multiset().count(idx) + self.packets.count(idx) + self.frames.count(idx)
    }

    /// Whether every buffer is in one place, and nothing else is anywhere.
    pub open spec fn exact(self) -> bool {
        forall|idx: usize| #[trigger]
            self.places(idx) == if idx < self.pool.buffers.len() {
                1nat
            } else {
                0
            }
    }

    /// With a buffer for a client's packet.
    pub open spec fn with_packet(self, pool: PoolView, idx: usize) -> Ledger {
        Ledger { pool, packets: self.packets.insert(idx), ..self }
    }

    /// Without the buffer of a client's packet.
    pub open spec fn without_packet(self, pool: PoolView, idx: usize) -> Ledger {
        Ledger { pool, packets: self.packets.remove(idx), ..self }
    }

    /// With a buffer for a frame.
    pub open spec fn with_frame(self, pool: PoolView, idx: usize) -> Ledger {
        Ledger { pool, frames: self.frames.insert(idx), ..self }
    }

    /// Without the buffer of a frame.
    pub open spec fn without_frame(self, pool: PoolView, idx: usize) -> Ledger {
        Ledger { pool, frames: self.frames.remove(idx), ..self }
    }
}

/// What is done with buffers: each is a call of the function that is named, with what
/// it returned.
pub ghost enum BufferEvent {
    /// [`stage_payload`].
    PacketStaged { staged: Option<usize>, payload: Seq<u8> },
    /// [`drop_payload`], where the shard's queue was full.
    PacketRefused { idx: usize },
    /// [`take_packet`] or [`flow_opened`].
    PacketTaken { idx: usize, task: PacketTask },
    /// [`payload_sent`].
    PacketSent { idx: usize },
    /// [`stage_reply`].
    ReplyStaged { step: ReplyStep, session_id: Seq<u8>, frame: Seq<u8> },
    /// [`stage_control_frame`].
    ControlStaged { queued: Option<QueuedFrame>, frame: Seq<u8> },
    /// [`queue_refused`].
    FrameRefused { q: QueuedFrame },
    /// [`still_wanted`].
    FrameLookedAt { q: QueuedFrame, wanted: bool },
    /// [`send_done`].
    FrameSent { q: QueuedFrame },
}

/// Whether `after` is what an event makes of `before`. A packet or a frame is dealt with
/// by whoever has it.
pub open spec fn follows(before: Ledger, e: BufferEvent, after: Ledger) -> bool {
    match e {
        BufferEvent::PacketStaged { staged: Some(idx), payload } => {
            &&& staged(before.pool, after.pool, idx, payload)
            &&& after == before.with_packet(after.pool, idx)
        },
        BufferEvent::PacketStaged { staged: None, payload } => after == before,
        BufferEvent::PacketRefused { idx } => {
            &&& before.packets.contains(idx)
            &&& after == before.without_packet(before.pool.released(idx), idx)
        },
        BufferEvent::PacketTaken { idx, task } => {
            &&& before.packets.contains(idx)
            &&& after.pool == kept_or_released(before.pool, idx, task)
            &&& after == if task is Dropped {
                before.without_packet(after.pool, idx)
            } else {
                before
            }
        },
        BufferEvent::PacketSent { idx } => {
            &&& before.packets.contains(idx)
            &&& after == before.without_packet(before.pool.released(idx), idx)
        },
        BufferEvent::ReplyStaged { step, session_id, frame } => {
            &&& reply_staged(before.pool, after.pool, step, session_id, frame)
            &&& after == match step {
                ReplyStep::Queue(q) => before.with_frame(after.pool, q.buf_idx),
                _ => Ledger { pool: after.pool, ..before },
            }
        },
        BufferEvent::ControlStaged { queued: Some(q), frame } => {
            &&& staged(before.pool, after.pool, q.buf_idx, frame)
            &&& after == before.with_frame(after.pool, q.buf_idx)
        },
        BufferEvent::ControlStaged { queued: None, frame } => after == before,
        BufferEvent::FrameRefused { q } => {
            &&& before.frames.contains(q.buf_idx)
            &&& after == before.without_frame(before.pool.released(q.buf_idx), q.buf_idx)
        },
        BufferEvent::FrameLookedAt { q, wanted } => {
            &&& before.frames.contains(q.buf_idx)
            &&& after == if wanted {
                before
            } else {
                before.without_frame(before.pool.released(q.buf_idx), q.buf_idx)
            }
        },
        BufferEvent::FrameSent { q } => {
            &&& before.frames.contains(q.buf_idx)
            &&& after == before.without_frame(before.pool.released(q.buf_idx), q.buf_idx)
        },
    }
}

/// Taking the first free buffer, and giving one back, in numbers.
proof fn lemma_free_counts(free: Seq<usize>, idx: usize)
    ensures
        free.len() > 0 ==> free.to_multiset() == free.drop_first().to_multiset().insert(free[0]),
        free.push(idx).to_multiset() == free.to_multiset().insert(idx),
{
    free.to_multiset_ensures();
    if free.len() > 0 {
        let rest = free.drop_first();
        rest.to_multiset_ensures();
        assert(free.contains(free[0]));
        assert(free.remove(0) =~= rest);
        assert(rest.to_multiset().insert(free[0]) =~= free.to_multiset());
    }
}

/// Whatever is done with a buffer, every buffer stays in one place: none is lost, none
/// is free twice, and none is with two packets or frames.
pub proof fn every_buffer_is_in_one_place(before: Ledger, e: BufferEvent, after: Ledger)
    requires
        before.exact(),
        follows(before, e, after),
    ensures
        after.exact(),
        after.pool.buffers.len() == before.pool.buffers.len(),
{
    let b = before.pool.free;
    if b.len() > 0 {
        lemma_free_counts(b, b[0]);
        assert(before.places(b[0]) > 0);
    }
    assert forall|idx: usize| #[trigger] after.places(idx) == before.places(idx) by {
        match e {
            BufferEvent::PacketRefused { idx: i } => lemma_free_counts(b, i),
            BufferEvent::PacketTaken { idx: i, task } => lemma_free_counts(b, i),
            BufferEvent::PacketSent { idx: i } => lemma_free_counts(b, i),
            BufferEvent::FrameRefused { q } => lemma_free_counts(b, q.buf_idx),
            BufferEvent::FrameLookedAt { q, wanted } => lemma_free_counts(b, q.buf_idx),
            BufferEvent::FrameSent { q } => lemma_free_counts(b, q.buf_idx),
            BufferEvent::ReplyStaged { step: ReplyStep::TooLong, session_id, frame } => {
                lemma_free_counts(b, b[0]);
                lemma_free_counts(b.drop_first(), b[0]);
            },
            _ => lemma_free_counts(b, idx),
        }
    }
}

/// From a pool whose buffers are all accounted for, no run of events loses a buffer or
/// frees one twice.
pub proof fn no_run_loses_a_buffer(states: Seq<Ledger>, events: Seq<BufferEvent>, n: int)
    requires
        states.len() == events.len() + 1,
        states[0].exact(),
        forall|i: int|
            0 <= i < events.len() ==> follows(states[i], #[trigger] events[i], states[i + 1]),
        0 <= n < states.len(),
    ensures
        states[n].exact(),
        states[n].pool.buffers.len() == states[0].pool.buffers.len(),
    decreases n,
{
    if n > 0 {
        no_run_loses_a_buffer(states, events, n - 1);
        assert(follows(states[n - 1], events[n - 1], states[n - 1 + 1]));
        every_buffer_is_in_one_place(states[n - 1], events[n - 1], states[n]);
    }
}

/// In a new pool every buffer is free, and only once.
pub proof fn a_new_pool_is_accounted_for(p: PoolView)
    requires
        p.buffers.len() <= usize::MAX,
        p.free == Seq::new(p.buffers.len(), |i: int| i as usize),
    ensures
        (Ledger { pool: p, packets: Multiset::empty(), frames: Multiset::empty() }).exact(),
{
    let l = Ledger { pool: p, packets: Multiset::empty(), frames: Multiset::empty() };
    p.free.to_multiset_ensures();
    assert(p.free.no_duplicates());
    p.free.lemma_multiset_has_no_duplicates();
    assert forall|idx: usize| #[trigger] l.places(idx) == if idx < p.buffers.len() {
        1nat
    } else {
        0
    } by {
        if idx < p.buffers.len() {
            assert(p.free[idx as int] == idx);
            assert(p.free.contains(idx));
        }
    }
}

/// A buffer that is with a packet or a frame is in use, with nothing else.
pub proof fn held_buffers_are_in_use(l: Ledger, idx: usize)
    requires
        l.exact(),
        l.packets.contains(idx) || l.frames.contains(idx),
    ensures
        l.pool.in_use(idx),
        l.packets.count(idx) + l.frames.count(idx) == 1,
{
    l.pool.free.to_multiset_ensures();
    assert(l.places(idx) == 1);
}

/// How often a step gives the buffer back.
pub open spec fn times_given_back(before: PoolView, after: PoolView, idx: usize) -> nat {
    if after == before.released(idx) {
        1
    } else {
        0
    }
}

/// A packet that a shard takes up gives its buffer back exactly once, on every way out:
/// when it has waited for too long, when its source may open no flow, when no socket
/// could be opened, and when its payload was sent or could not be. The pools before and
/// after each step are those of that step; others may use the pool in between.
pub proof fn a_packet_gives_its_buffer_back_once(
    idx: usize,
    taken: PacketTask,
    take_before: PoolView,
    take_after: PoolView,
    opened: PacketTask,
    open_before: PoolView,
    open_after: PoolView,
    send_before: PoolView,
    send_after: PoolView,
)
    requires
        take_after == kept_or_released(take_before, idx, taken),
        taken is Open ==> open_after == kept_or_released(open_before, idx, opened) && !(opened is Open),
        !(taken is Open) ==> opened == taken && open_after == open_before,
        send_after == if opened is Send {
            send_before.released(idx)
        } else {
            send_before
        },
    ensures
        times_given_back(take_before, take_after, idx) + times_given_back(open_before, open_after, idx)
            + times_given_back(send_before, send_after, idx) == 1,
{
    assert(take_before.released(idx).free.len() != take_before.free.len());
    assert(open_before.released(idx).free.len() != open_before.free.len());
    assert(send_before.released(idx).free.len() != send_before.free.len());
}

/// A data packet may wait for a quarter of a second, and not for longer; a control frame
/// may wait for as long as it takes.
pub proof fn data_waits_for_a_quarter_second(enqueued_at: u64, now: u64)
    ensures
        stale(QueuedPacketKind::Data, enqueued_at, now) <==> now > enqueued_at + 250_000_000,
        !stale(QueuedPacketKind::Control, enqueued_at, now),
{
}

/// Whether a flow answers a client's packet: it has the packet's endpoint, addresses,
/// ports and service byte, and is in use since `now`.
pub open spec fn answers(f: ShardFlow, p: ClientPacket, now: u64) -> bool {
    &&& f.record.client_addr == p.client_addr
    &&& f.record.original_info.src_ip == p.original_info.src_ip
    &&& f.record.original_info.src_port == p.original_info.src_port
    &&& f.record.original_info.dst_ip == p.original_info.dst_ip
    &&& f.record.original_info.dst_port == p.original_info.dst_port
    &&& f.record.original_info.tos == p.original_info.tos
    &&& f.record.last_activity == now
    &&& f.record.marked_for_removal is None
}

/// A client's packet whose payload is sent leaves its flow set to answer it, be the flow
/// new or not, under the token over which the payload goes, and leaves every other flow
/// alone. One that is dropped, or waits for a socket, leaves all flows alone.
pub proof fn a_packet_sets_its_flow_to_answer_it(
    relay: RelayView,
    shard: ShardView,
    p: ClientPacket,
    opened: Option<Option<usize>>,
    now: u64,
    r: PacketTask,
    relay_after: RelayView,
    shard_after: ShardView,
    other: u128,
)
    requires
        shard.wf(),
        match opened {
            None => packet_taken(relay, shard, p, now, r, relay_after, shard_after),
            Some(token) => !shard.has(p.key) && flow_set_up(
                relay,
                shard,
                p,
                token,
                now,
                r,
                relay_after,
                shard_after,
            ),
        },
    ensures
        r matches PacketTask::Send(t) ==> {
            &&& shard_after.has(p.key)
            &&& shard_after.flows[p.key.number() as u128].key == p.key
            &&& shard_after.flows[p.key.number() as u128].token == t
            &&& answers(shard_after.flows[p.key.number() as u128], p, now)
            &&& other != p.key.number() ==> (shard_after.flows.contains_key(other)
                <==> shard.flows.contains_key(other))
            &&& other != p.key.number() && shard.flows.contains_key(other)
                ==> shard_after.flows[other] == shard.flows[other]
            &&& relay_after == relay
        },
        !(r is Send) ==> shard_after == shard,
        !(r is Send) ==> relay_after.sessions == relay.sessions && relay_after.traffic == relay.traffic,
{
    let id = p.key.number() as u128;
    assert(0 <= p.key.number() < 0x1_0000_0000_0000_0000_0000_0000_0000_0000int);
    if shard.has(p.key) {
        crate::shard::lemma_flow_number_injective(shard.flows[id].key, p.key);
    }
}

/// A packet that has waited for more than a quarter of a second is dropped, and so is one
/// for a flow that could not be opened; one for a flow that is there is sent.
pub proof fn packets_are_sent_or_dropped_for_a_reason(
    relay: RelayView,
    shard: ShardView,
    p: ClientPacket,
    now: u64,
    r: PacketTask,
    relay_after: RelayView,
    shard_after: ShardView,
)
    requires
        packet_taken(relay, shard, p, now, r, relay_after, shard_after),
    ensures
        now > p.enqueued_at + 250_000_000 ==> r is Dropped && relay_after.stats.drop_reasons.stale_queue
            == next(relay.stats.drop_reasons.stale_queue),
        now <= p.enqueued_at + 250_000_000 && shard.has(p.key) ==> r is Send,
        now <= p.enqueued_at + 250_000_000 && !shard.has(p.key) ==> (r is Open || r is Dropped) && (
        r is Open <==> relay.limiter.has_room(p.client_addr.ip, SourceLimitKind::NewFlow, now)),
{
}

/// A game server's payload goes to the client of the flow, in a frame with the session id
/// and an IPv4 packet whose source is the game server, as the client addressed it, and
/// whose destination is the client's own source.
pub proof fn replies_go_back_where_the_packet_came_from(
    f: ShardFlow,
    p: ClientPacket,
    session_id: [u8; 8],
    payload: Seq<u8>,
    now: u64,
    later: u64,
    buf_idx: usize,
)
    requires
        answers(f, p, now),
        payload.len() + 36 <= MAX_PACKET_SIZE,
    ensures
        ({
            let q = queued_reply(f, session_id, payload, later, buf_idx);
            let frame = reply_frame(session_id@, payload, f);
            let n = payload.len() as int;
            &&& q.addr == p.client_addr
            &&& q.session_id == session_id
            &&& q.buf_idx == buf_idx
            &&& q.enqueued_at == later
            &&& q.kind == QueuedPacketKind::Data
            &&& q.len == n + 36
            &&& frame.len() == n + 36
            &&& frame.subrange(0, 8) == session_id@
            &&& frame[8] == 0x45 && frame[9] == p.original_info.tos
            &&& frame[10] as int * 256 + frame[11] as int == n + 28
            &&& frame[17] == 17
            &&& frame[20] == p.original_info.dst_ip.a && frame[21] == p.original_info.dst_ip.b
                && frame[22] == p.original_info.dst_ip.c && frame[23] == p.original_info.dst_ip.d
            &&& frame[24] == p.original_info.src_ip.a && frame[25] == p.original_info.src_ip.b
                && frame[26] == p.original_info.src_ip.c && frame[27] == p.original_info.src_ip.d
            &&& frame[28] as int * 256 + frame[29] as int == p.original_info.dst_port
            &&& frame[30] as int * 256 + frame[31] as int == p.original_info.src_port
            &&& frame[32] as int * 256 + frame[33] as int == n + 8
            &&& forall|i: int| 0 <= i < n ==> #[trigger] payload[i] == frame[36 + i]
        }),
{
    let info = f.record.original_info;
    let frame = reply_frame(session_id@, payload, f);
    let packet = response(payload, info, info.tos);
    responses_go_the_other_way(payload, info, info.tos);
    assert(frame.subrange(0, 8) =~= session_id@);
    assert forall|i: int| 0 <= i < packet.len() implies frame[8 + i] == packet[i] by {}
    assert forall|i: int| 0 <= i < payload.len() implies #[trigger] payload[i] == frame[36 + i] by {
        assert(payload[i] == packet[28 + i]);
        assert(frame[8 + (28 + i)] == packet[28 + i]);
    }
    assert(frame[8] == packet[0] && frame[9] == packet[1] && frame[10] == packet[2] && frame[11]
        == packet[3] && frame[17] == packet[9]);
    assert(frame[20] == packet[12] && frame[21] == packet[13] && frame[22] == packet[14] && frame[23]
        == packet[15] && frame[24] == packet[16] && frame[25] == packet[17] && frame[26] == packet[18]
        && frame[27] == packet[19]);
    assert(frame[28] == packet[20] && frame[29] == packet[21] && frame[30] == packet[22] && frame[31]
        == packet[23] && frame[32] == packet[24] && frame[33] == packet[25]);
}

/// What a game server sends is activity of the flow and of its session. Without a buffer it
/// is counted as dropped; with one, a frame of at most 1600 bytes is queued for the
/// client, and a longer one is not.
pub proof fn replies_are_activity(
    relay: RelayView,
    buffered: bool,
    f: ShardFlow,
    session_id: [u8; 8],
    payload: Seq<u8>,
    now: u64,
    now_unix: u64,
    r: ReplyStep,
    relay_after: RelayView,
    shard: ShardView,
    other: u128,
)
    requires
        reply_taken(relay, buffered, f, session_id, payload, now, now_unix, r, relay_after),
        shard.flows.contains_key(f.key.number() as u128),
        shard.flows[f.key.number() as u128] == f,
    ensures
        ({
            let sid = f.key.sid;
            let t = relay_after.sessions[sid];
            let after = answered_flow(shard, f, now);
            let g = after.flows[f.key.number() as u128];
            &&& relay_after.sessions.dom() == relay.sessions.dom()
            &&& relay.sessions.contains_key(sid) ==> t.last_activity == now && t.last_activity_unix
                == now_unix && t.client_addr == relay.sessions[sid].client_addr && t.user_id
                == relay.sessions[sid].user_id
            &&& g.record.last_activity == now && g.record.marked_for_removal is None
                && g.record.client_addr == f.record.client_addr && g.record.original_info
                == f.record.original_info && g.key == f.key && g.token == f.token
            &&& other != f.key.number() as u128 && shard.flows.contains_key(other)
                ==> after.flows.contains_key(other) && after.flows[other] == shard.flows[other]
            &&& r is NoBuffer <==> !buffered
            &&& r is Queue <==> buffered && payload.len() + 36 <= 1600
            &&& !buffered ==> relay_after.stats.dropped_out == next(relay.stats.dropped_out)
                && relay_after.stats.pool_exhausted == next(relay.stats.pool_exhausted)
                && relay_after.stats.drop_reasons == relay.stats.drop_reasons.plus(DropReason::Pool)
            &&& buffered ==> relay_after.stats == relay.stats
        }),
{
    assert(relay_after.sessions.dom() =~= relay.sessions.dom());
}

/// A frame to a client is counted once: as sent, with its bytes, for its session; or as
/// dropped, by the reason. A payload for a game server is counted as dropped only where
/// the socket was not ready.
pub proof fn frames_are_counted_once(
    v: RelayView,
    q: QueuedFrame,
    now_unix: u64,
    error: Option<IoErrorKind>,
    reason: DropReason,
)
    ensures
        ({
            let sent = v.with_queued_sent(q, true, now_unix);
            let lost = v.with_queued_sent(q, false, now_unix);
            let dropped = v.with_reply_dropped(reason);
            let key = crate::bytes::be64(q.session_id@) as u64;
            let p = v.with_payload_sent(error);
            &&& sent.stats.packets_out == next(v.stats.packets_out) && sent.stats.dropped_out
                == v.stats.dropped_out
            &&& v.traffic.contains_key(key) ==> sent.traffic[key].packets_out == next(
                v.traffic[key].packets_out,
            ) && sent.traffic[key].last_activity_unix == now_unix
            &&& lost.stats.packets_out == v.stats.packets_out && lost.stats.dropped_out == next(
                v.stats.dropped_out,
            ) && lost.stats.drop_reasons == v.stats.drop_reasons.plus(DropReason::SocketSend)
                && lost.traffic == v.traffic
            &&& dropped.stats.dropped_out == next(v.stats.dropped_out) && dropped.stats.drop_reasons
                == v.stats.drop_reasons.plus(reason) && dropped.stats.dropped_in == v.stats.dropped_in
                && dropped.traffic == v.traffic && dropped.sessions == v.sessions
            &&& error == Some(IoErrorKind::WouldBlock) ==> p.stats.dropped_in == next(v.stats.dropped_in)
                && p.stats.drop_reasons == v.stats.drop_reasons.plus(DropReason::FlowSend)
            &&& error != Some(IoErrorKind::WouldBlock) ==> p == v
            &&& v.with_empty_pool().stats.pool_exhausted == next(v.stats.pool_exhausted)
                && v.with_empty_pool().stats.dropped_in == v.stats.dropped_in
            &&& sent.sessions == v.sessions && lost.sessions == v.sessions
        }),
{
}

/// A source that asks for another flow takes up room for one, in this second; where it has
/// none, it is counted as throttled and nothing else changes.
pub proof fn asking_for_a_flow_takes_room(v: RelayView, client_addr: SocketAddr, now: u64)
    ensures
        ({
            let w = v.with_flow_asked(client_addr, now);
            let room = v.limiter.has_room(client_addr.ip, SourceLimitKind::NewFlow, now);
            &&& w.limiter == v.limiter.after(client_addr.ip, SourceLimitKind::NewFlow, now)
            &&& room ==> w.stats == v.stats
            &&& !room ==> w.stats.throttled_users == next(v.stats.throttled_users) && w.stats.dropped_in
                == next(v.stats.dropped_in)
            &&& w.sessions == v.sessions && w.traffic == v.traffic && w.counts == v.counts && w.replay
                == v.replay && w.policy == v.policy
        }),
{
}

/// A control frame goes where it was asked for, whole, and never waits for too long.
pub proof fn control_frames_are_queued_whole(
    addr: SocketAddr,
    session_id: [u8; 8],
    frame: Seq<u8>,
    now: u64,
    buf_idx: usize,
    later: u64,
)
    requires
        frame.len() <= MAX_PACKET_SIZE,
    ensures
        ({
            let q = queued_control(addr, session_id, frame, now, buf_idx);
            &&& q.addr == addr && q.session_id == session_id && q.buf_idx == buf_idx && q.len == frame.len()
                && q.enqueued_at == now
            &&& !stale(q.kind, q.enqueued_at, later)
        }),
{
}

/// What is staged stands at the start of the next free buffer, byte by byte; no other
/// buffer changes, and this one is not free any more.
pub proof fn staged_bytes_are_in_the_buffer(
    before: PoolView,
    after: PoolView,
    idx: usize,
    bytes: Seq<u8>,
    i: int,
)
    requires
        staged(before, after, idx, bytes),
    ensures
        idx == before.free[0],
        0 <= i < bytes.len() ==> after.buffers[idx as int][i] == bytes[i],
        bytes.len() <= i < before.buffers[idx as int].len() ==> after.buffers[idx as int][i]
            == before.buffers[idx as int][i],
        0 <= i < after.buffers.len() && i != idx ==> after.buffers[i] == before.buffers[i],
        !after.free.contains(idx),
        after.free.len() == before.free.len() - 1,
{
}

} // verus!
