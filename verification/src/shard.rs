//! A shard of the second datapath: its flows, the tokens of their sockets, and the
//! packets between clients, flows and the buffer pool.

use crate::addr::{session_key, Ipv4Addr, SocketAddr};
use crate::bytes::be64;
use crate::flows::{age_flow, aged, FlowRecord};
use crate::num::beyond;
use crate::packet::OriginalPacketInfo;
use std::collections::HashMap;
use vstd::prelude::*;

verus! {

/// How old a packet that waits in a queue may get, in nanoseconds.
pub const MAX_DATA_QUEUE_AGE_NS: u64 = 250_000_000;

/// The bits of a session id, mixed.
pub open spec fn mixed(sid: u64) -> u64 {
    let a = sid ^ (sid >> 33);
    let b = a.wrapping_mul(0xff51afd7ed558ccd);
    let c = b ^ (b >> 33);
    let d = c.wrapping_mul(0xc4ceb9fe1a85ec53);
    d ^ (d >> 33)
}

/// The shard of a session: its id's bits, mixed, modulo the number of shards.
pub open spec fn shard_of(sid: u64, shard_count: usize) -> usize {
    (mixed(sid) as usize) % shard_count
}

pub fn shard_for_session(session_id: [u8; 8], shard_count: usize) -> (r: usize)
    requires
        shard_count > 0,
    ensures
        r == shard_of(be64(session_id@) as u64, shard_count),
        r < shard_count,
{
    let sid: u64 = session_key(&session_id);
    let a: u64 = sid ^ (sid >> 33);
    let b: u64 = a.wrapping_mul(0xff51afd7ed558ccd);
    let c: u64 = b ^ (b >> 33);
    let d: u64 = c.wrapping_mul(0xc4ceb9fe1a85ec53);
    let e: u64 = d ^ (d >> 33);
    #[verifier::truncate]
    let mixed_bits: usize = e as usize;
    mixed_bits % shard_count
}

/// What a number leaves modulo a power of two stays when its high bits are cut.
proof fn lemma_cut(x: u64)
    by (bit_vector)
    ensures
        (x as usize) % 8 == x % 8,
        (x as usize) % 256 == x % 256,
{
}

/// A small id of a session that goes to the shard, where there are eight.
spec fn small_id(shard: u64) -> u64 {
    if shard == 0 {
        0
    } else if shard == 1 {
        19
    } else if shard == 2 {
        28
    } else if shard == 3 {
        6
    } else if shard == 4 {
        1
    } else if shard == 5 {
        4
    } else if shard == 6 {
        3
    } else {
        2
    }
}

/// Sessions with small ids reach every one of eight shards.
pub proof fn small_ids_reach_every_shard(shard: usize)
    requires
        shard < 8,
    ensures
        exists|sid: u64| sid < 256 && #[trigger] shard_of(sid, 8) == shard,
{
    let n = shard as u64;
    assert(mixed(small_id(n)) % 8 == n) by (bit_vector)
        requires
            n < 8,
    ;
    lemma_cut(mixed(small_id(n)));
    assert(shard_of(small_id(n), 8) == shard);
}

/// The sessions with 1 and with 2 in the first byte of their ids, and zeros behind it,
/// go to different ones of 256 shards.
pub proof fn leading_one_and_two_are_apart()
    ensures
        shard_of(0x0100_0000_0000_0000, 256) != shard_of(0x0200_0000_0000_0000, 256),
{
    assert(mixed(0x0100_0000_0000_0000u64) % 256 != mixed(0x0200_0000_0000_0000u64) % 256) by (bit_vector);
    lemma_cut(mixed(0x0100_0000_0000_0000));
    lemma_cut(mixed(0x0200_0000_0000_0000));
}

/// What waits in a queue.
#[derive(Clone, Copy, PartialEq, Eq, Structural, Debug)]
pub enum QueuedPacketKind {
    Data,
    Control,
}

/// Whether a packet has waited for too long; a control frame never has.
pub fn should_drop_stale_queued_packet(kind: QueuedPacketKind, enqueued_at: u64, now: u64) -> (r: bool)
    ensures
        r == stale(kind, enqueued_at, now),
{
    kind == QueuedPacketKind::Data && now >= enqueued_at && now - enqueued_at > MAX_DATA_QUEUE_AGE_NS
}

pub open spec fn stale(kind: QueuedPacketKind, enqueued_at: u64, now: u64) -> bool {
    kind == QueuedPacketKind::Data && beyond(now, enqueued_at) > MAX_DATA_QUEUE_AGE_NS
}

/// A game server.
#[derive(Clone, Copy, PartialEq, Eq, Structural, Debug)]
pub struct GameAddr {
    pub ip: Ipv4Addr,
    pub port: u16,
}

/// A session and a game server: what makes a flow.
#[derive(Clone, Copy, PartialEq, Eq, Structural, Debug)]
pub struct FlowKey {
    pub sid: u64,
    pub game: GameAddr,
}

impl FlowKey {
    /// The key as one number.
    pub open spec fn number(self) -> int {
        self.sid as int * 0x1_0000_0000_0000 + self.game.ip.bits() * 0x1_0000 + self.game.port as int
    }

    pub fn id(&self) -> (r: u128)
        ensures
            r == self.number(),
    {
        self.sid as u128 * 0x1_0000_0000_0000 + self.game.ip.to_bits() as u128 * 0x1_0000
            + self.game.port as u128
    }
}

/// Distinct keys have distinct numbers.
pub proof fn lemma_flow_number_injective(a: FlowKey, b: FlowKey)
    requires
        a.number() == b.number(),
    ensures
        a == b,
{
    let ra = a.game.ip.bits() * 0x1_0000 + a.game.port as int;
    let rb = b.game.ip.bits() * 0x1_0000 + b.game.port as int;
    assert(0 <= ra < 0x1_0000_0000_0000 && 0 <= rb < 0x1_0000_0000_0000);
    assert(a.sid == b.sid);
    assert(ra == rb);
    assert(a.game.ip.bits() == b.game.ip.bits());
    crate::addr::lemma_ipv4_bits_injective(a.game.ip, b.game.ip);
}

/// A flow and the token of its socket.
#[derive(Clone, Copy, PartialEq, Eq, Structural, Debug)]
pub struct ShardFlow {
    pub key: FlowKey,
    pub record: FlowRecord,
    pub token: usize,
}

/// Where `game` first stands in a list; the length, if it does not.
pub open spec fn place(list: Seq<GameAddr>, game: GameAddr) -> int
    decreases list.len(),
{
    if list.len() == 0 || list[0] == game {
        0
    } else {
        1 + place(list.drop_first(), game)
    }
}

/// A list with the first `game` taken out, the last entry in its place.
pub open spec fn swapped_out(list: Seq<GameAddr>, game: GameAddr) -> Seq<GameAddr> {
    if place(list, game) < list.len() {
        list.update(place(list, game), list.last()).drop_last()
    } else {
        list
    }
}

/// An index of games by session with one of them taken out; the last one of a session
/// takes the session out.
pub open spec fn index_without(index: Map<u64, Seq<GameAddr>>, flow: FlowKey) -> Map<u64, Seq<GameAddr>> {
    if !index.contains_key(flow.sid) {
        index
    } else if swapped_out(index[flow.sid], flow.game).len() == 0 {
        index.remove(flow.sid)
    } else {
        index.insert(flow.sid, swapped_out(index[flow.sid], flow.game))
    }
}

/// The content of an index.
pub open spec fn index_view(m: Map<u64, Vec<GameAddr>>) -> Map<u64, Seq<GameAddr>> {
    m.map_values(|v: Vec<GameAddr>| v@)
}

proof fn lemma_place(list: Seq<GameAddr>, game: GameAddr)
    ensures
        0 <= place(list, game) <= list.len(),
        place(list, game) < list.len() ==> list[place(list, game)] == game,
        forall|i: int| 0 <= i < place(list, game) ==> list[i] != game,
    decreases list.len(),
{
    if list.len() > 0 && list[0] != game {
        let t = list.drop_first();
        lemma_place(t, game);
        assert forall|i: int| 0 <= i < place(list, game) implies list[i] != game by {
            if i > 0 {
                assert(t[i - 1] == list[i]);
            }
        }
    }
}

/// Takes a flow out of the index.
pub fn remove_flow_from_session_index(session_flows: &mut HashMap<u64, Vec<GameAddr>>, flow: &FlowKey)
    ensures
        index_view(final(session_flows)@) == index_without(index_view(old(session_flows)@), *flow),
{
    broadcast use vstd::std_specs::hash::group_hash_axioms;

    let ghost before = index_view(session_flows@);
    let mut list: Vec<GameAddr> = match session_flows.remove(&flow.sid) {
        Some(list) => list,
        None => {
            assert(index_view(session_flows@) =~= before);
            return;
        },
    };
    let ghost was = list@;
    assert(before[flow.sid] == was);
    let mut i: usize = 0;
    while i < list.len() && list[i] != flow.game
        invariant
            i <= list@.len(),
            list@ == was,
            forall|j: int| 0 <= j < i ==> list@[j] != flow.game,
        decreases list.len() - i,
    {
        i = i + 1;
    }
    proof {
        lemma_place(was, flow.game);
    }
    if i < list.len() {
        let _ = list.swap_remove(i);
        assert(list@ =~= swapped_out(was, flow.game));
    }
    if list.len() > 0 {
        let ghost left = list@;
        session_flows.insert(flow.sid, list);
        assert(index_view(session_flows@) =~= before.insert(flow.sid, left));
    } else {
        assert(index_view(session_flows@) =~= before.remove(flow.sid));
    }
}

/// How far `t` is behind `start` in the cycle of tokens, which has no zero.
pub open spec fn steps(start: usize, t: usize) -> int {
    if t >= start {
        t - start
    } else {
        usize::MAX - start + t
    }
}

/// The token behind `t`.
pub open spec fn token_after(t: usize) -> usize {
    if t == usize::MAX {
        1
    } else {
        (t + 1) as usize
    }
}

/// The token that allocation starts with: zero stands for the waker of the shard.
pub open spec fn first_token(next_token: usize) -> usize {
    if next_token == 0 {
        1
    } else {
        next_token
    }
}

/// Takes the next token that no flow has; `None`, if they all have one. The search then
/// ends where it began.
pub fn allocate_flow_token(next_token: &mut usize, token_to_flow: &HashMap<usize, u128>) -> (r: Option<
    usize,
>)
    ensures
        match r {
            Some(t) => {
                let start = first_token(*old(next_token));
                &&& t != 0
                &&& !token_to_flow@.contains_key(t)
                &&& forall|x: usize|
                    x != 0 && #[trigger] steps(start, x) < steps(start, t) ==> token_to_flow@.contains_key(x)
                &&& *final(next_token) == token_after(t)
            },
            None => {
                &&& forall|x: usize| x != 0 ==> #[trigger] token_to_flow@.contains_key(x)
                &&& *final(next_token) == first_token(*old(next_token))
            },
        },
{
    broadcast use vstd::std_specs::hash::group_hash_axioms;

    if *next_token == 0 {
        *next_token = 1;
    }
    let start: usize = *next_token;
    let mut token: usize = start;
    loop
        invariant
            start == first_token(*old(next_token)),
            token != 0,
            token == *next_token,
            forall|x: usize|
                x != 0 && #[trigger] steps(start, x) < steps(start, token) ==> token_to_flow@.contains_key(
                    x,
                ),
        decreases usize::MAX - steps(start, token),
    {
        *next_token = if token == usize::MAX {
            1
        } else {
            token + 1
        };
        if !token_to_flow.contains_key(&token) {
            return Some(token);
        }
        if *next_token == start {
            assert forall|x: usize| x != 0 implies #[trigger] token_to_flow@.contains_key(x) by {
                if x != token {
                    assert(steps(start, x) < steps(start, token));
                }
            }
            return None;
        }
        let ghost was = token;
        token = *next_token;
        assert(steps(start, token) == steps(start, was) + 1);
        assert forall|x: usize|
            x != 0 && #[trigger] steps(start, x) < steps(start, token) implies token_to_flow@.contains_key(
            x,
        ) by {
            if steps(start, x) == steps(start, was) {
                assert(x == was);
            }
        }
    }
}

/// The tables of a shard.
pub struct Shard {
    pub flows: HashMap<u128, ShardFlow>,
    pub token_to_flow: HashMap<usize, u128>,
    pub session_flows: HashMap<u64, Vec<GameAddr>>,
    pub next_token: usize,
}

/// The content of a [`Shard`]'s tables.
pub ghost struct ShardView {
    pub flows: Map<u128, ShardFlow>,
    pub tokens: Map<usize, u128>,
    pub index: Map<u64, Seq<GameAddr>>,
}

impl ShardView {
    /// Flows and tokens belong to each other, one to one; a flow stands under its own
    /// number, and no flow has the token of the waker.
    pub open spec fn tokens_match(self) -> bool {
        &&& forall|id: u128| #[trigger]
            self.flows.contains_key(id) ==> {
                let f = self.flows[id];
                f.key.number() == id && f.token != 0 && self.tokens.contains_key(f.token)
                    && self.tokens[f.token] == id
            }
        &&& forall|t: usize| #[trigger]
            self.tokens.contains_key(t) ==> self.flows.contains_key(self.tokens[t])
                && self.flows[self.tokens[t]].token == t
    }

    /// The index lists each flow once, under its session, and nothing else.
    pub open spec fn index_matches(self) -> bool {
        &&& forall|sid: u64| #[trigger]
            self.index.contains_key(sid) ==> self.index[sid].len() > 0 && self.index[sid].no_duplicates()
        &&& forall|sid: u64, game: GameAddr| #[trigger]
            self.lists(FlowKey { sid, game }) <==> self.has(FlowKey { sid, game })
    }

    /// Whether the index lists the flow.
    pub open spec fn lists(self, key: FlowKey) -> bool {
        self.index.contains_key(key.sid) && self.index[key.sid].contains(key.game)
    }

    /// Whether there is such a flow.
    pub open spec fn has(self, key: FlowKey) -> bool {
        self.flows.contains_key(key.number() as u128)
    }

    pub open spec fn wf(self) -> bool {
        self.tokens_match() && self.index_matches()
    }

    /// Without a flow.
    pub open spec fn without(self, id: u128) -> ShardView {
        ShardView {
            flows: self.flows.remove(id),
            tokens: self.tokens.remove(self.flows[id].token),
            index: index_without(self.index, self.flows[id].key),
        }
    }

    /// With a new flow.
    pub open spec fn with(self, f: ShardFlow) -> ShardView {
        ShardView {
            flows: self.flows.insert(f.key.number() as u128, f),
            tokens: self.tokens.insert(f.token, f.key.number() as u128),
            index: self.index.insert(
                f.key.sid,
                (if self.index.contains_key(f.key.sid) {
                    self.index[f.key.sid]
                } else {
                    Seq::empty()
                }).push(f.key.game),
            ),
        }
    }

    /// What is done with a client's packet.
    pub open spec fn step_for(self, key: FlowKey, enqueued_at: u64, now: u64) -> PacketStep {
        if stale(QueuedPacketKind::Data, enqueued_at, now) {
            PacketStep::Stale
        } else if self.has(key) {
            PacketStep::Known(self.flows[key.number() as u128].token)
        } else {
            PacketStep::New
        }
    }

    /// With the record of a flow changed.
    pub open spec fn changed(self, id: u128, record: FlowRecord) -> ShardView {
        ShardView {
            flows: self.flows.insert(id, ShardFlow { record, ..self.flows[id] }),
            ..self
        }
    }
}

/// Taking one entry out of a list without repetitions leaves the others.
proof fn lemma_swapped_out(list: Seq<GameAddr>, game: GameAddr)
    requires
        list.no_duplicates(),
    ensures
        swapped_out(list, game).no_duplicates(),
        forall|x: GameAddr| #[trigger]
            swapped_out(list, game).contains(x) <==> list.contains(x) && x != game,
{
    lemma_place(list, game);
    let p = place(list, game);
    let s = swapped_out(list, game);
    if p < list.len() {
        let n = list.len() as int;
        assert forall|i: int| 0 <= i < s.len() implies #[trigger] s[i] == if i == p {
            list[n - 1]
        } else {
            list[i]
        } by {}
        assert forall|x: GameAddr| #[trigger] s.contains(x) <==> list.contains(x) && x != game by {
            if s.contains(x) {
                let i = choose|i: int| 0 <= i < s.len() && s[i] == x;
                if i == p {
                    assert(list[n - 1] == x);
                    assert(list[n - 1] != list[p]);
                } else {
                    assert(list[i] == x);
                    assert(list[i] != list[p]);
                }
            }
            if list.contains(x) && x != game {
                let i = choose|i: int| 0 <= i < list.len() && list[i] == x;
                if i == n - 1 {
                    assert(s[p] == x);
                } else {
                    assert(s[i] == x);
                }
            }
        }
    } else {
        assert(!list.contains(game));
    }
}

/// Forgetting a flow keeps the tables in order.
proof fn lemma_without(v: ShardView, id: u128)
    requires
        v.wf(),
        v.flows.contains_key(id),
    ensures
        v.without(id).wf(),
{
    let w = v.without(id);
    let key = v.flows[id].key;
    assert(key == (FlowKey { sid: key.sid, game: key.game }));
    assert(v.has(FlowKey { sid: key.sid, game: key.game }));
    assert(v.lists(FlowKey { sid: key.sid, game: key.game }));
    let list = v.index[key.sid];
    lemma_swapped_out(list, key.game);
    assert(w.tokens_match());
    assert forall|sid: u64, game: GameAddr| #[trigger]
        w.lists(FlowKey { sid, game }) <==> w.has(FlowKey { sid, game }) by {
        let k = FlowKey { sid, game };
        assert(v.lists(k) <==> v.has(k));
        if k.number() == key.number() {
            lemma_flow_number_injective(k, key);
        }
        assert(k.number() == k.number() as u128);
        if sid == key.sid {
            let s = swapped_out(list, key.game);
            assert(s.contains(game) <==> list.contains(game) && game != key.game);
            if s.len() == 0 {
                assert(!s.contains(game));
            }
        }
    }
    assert forall|sid: u64| #[trigger] w.index.contains_key(sid) implies w.index[sid].len() > 0
        && w.index[sid].no_duplicates() by {
        if sid != key.sid {
            assert(v.index.contains_key(sid));
        }
    }
}

/// A new flow keeps the tables in order.
proof fn lemma_with(v: ShardView, f: ShardFlow)
    requires
        v.wf(),
        !v.has(f.key),
        f.token != 0,
        !v.tokens.contains_key(f.token),
    ensures
        v.with(f).wf(),
{
    let w = v.with(f);
    let key = f.key;
    let old_list = if v.index.contains_key(key.sid) {
        v.index[key.sid]
    } else {
        Seq::empty()
    };
    let list = old_list.push(key.game);
    assert(key == (FlowKey { sid: key.sid, game: key.game }));
    assert(v.lists(FlowKey { sid: key.sid, game: key.game }) <==> v.has(
        FlowKey { sid: key.sid, game: key.game },
    ));
    assert(!old_list.contains(key.game));
    assert(0 <= key.number() < 0x1_0000_0000_0000_0000_0000_0000_0000_0000int);
    assert(w.tokens_match());
    assert(list.no_duplicates()) by {
        assert forall|i: int, j: int| 0 <= i < list.len() && 0 <= j < list.len() && i != j implies list[i]
            != list[j] by {
            if i < old_list.len() {
                assert(old_list.contains(old_list[i]));
            }
            if j < old_list.len() {
                assert(old_list.contains(old_list[j]));
            }
        }
    }
    assert forall|sid: u64, game: GameAddr| #[trigger]
        w.lists(FlowKey { sid, game }) <==> w.has(FlowKey { sid, game }) by {
        let k = FlowKey { sid, game };
        assert(v.lists(k) <==> v.has(k));
        if k.number() == key.number() {
            lemma_flow_number_injective(k, key);
        }
        assert(0 <= k.number() < 0x1_0000_0000_0000_0000_0000_0000_0000_0000int);
        if sid == key.sid {
            if list.contains(game) {
                let i = choose|i: int| 0 <= i < list.len() && list[i] == game;
                if i < old_list.len() {
                    assert(old_list[i] == game);
                }
            }
            if old_list.contains(game) {
                let i = choose|i: int| 0 <= i < old_list.len() && old_list[i] == game;
                assert(list[i] == game);
            }
            assert(list[old_list.len() as int] == key.game);
        }
    }
    assert forall|sid: u64| #[trigger] w.index.contains_key(sid) implies w.index[sid].len() > 0
        && w.index[sid].no_duplicates() by {
        if sid != key.sid {
            assert(v.index.contains_key(sid));
        }
    }
}

/// A changed record keeps the tables in order.
proof fn lemma_changed(v: ShardView, id: u128, record: FlowRecord)
    requires
        v.wf(),
        v.flows.contains_key(id),
    ensures
        v.changed(id, record).wf(),
{
    let w = v.changed(id, record);
    assert forall|sid: u64, game: GameAddr| #[trigger]
        w.lists(FlowKey { sid, game }) <==> w.has(FlowKey { sid, game }) by {
        assert(v.lists(FlowKey { sid, game }) <==> v.has(FlowKey { sid, game }));
    }
}

/// What is done with a client's packet that came to the shard.
#[derive(Clone, Copy, PartialEq, Eq, Structural, Debug)]
pub enum PacketStep {
    /// It has waited for too long.
    Stale,
    /// Its flow is there; its socket has this token.
    Known(usize),
    /// Its flow is new.
    New,
}

impl Shard {
    pub open spec fn view(self) -> ShardView {
        ShardView {
            flows: self.flows@,
            tokens: self.token_to_flow@,
            index: index_view(self.session_flows@),
        }
    }

    pub open spec fn wf(self) -> bool {
        self@.wf()
    }

    pub fn new() -> (r: Shard)
        ensures
            r.wf(),
            r@.flows == Map::<u128, ShardFlow>::empty(),
            r@.tokens == Map::<usize, u128>::empty(),
            r@.index == Map::<u64, Seq<GameAddr>>::empty(),
            r.next_token == 1,
    {
        let r = Shard {
            flows: HashMap::new(),
            token_to_flow: HashMap::new(),
            session_flows: HashMap::new(),
            next_token: 1,
        };
        assert(r@.index =~= Map::<u64, Seq<GameAddr>>::empty());
        r
    }

    fn flow(&self, id: u128) -> (r: Option<ShardFlow>)
        ensures
            r == if self@.flows.contains_key(id) {
                Some(self@.flows[id])
            } else {
                None
            },
    {
        broadcast use vstd::std_specs::hash::group_hash_axioms;

        match self.flows.get(&id) {
            Some(f) => Some(*f),
            None => None,
        }
    }

    /// The flow whose socket has the token.
    pub fn flow_of_token(&self, token: usize) -> (r: Option<ShardFlow>)
        requires
            self.wf(),
        ensures
            r == if self@.tokens.contains_key(token) {
                Some(self@.flows[self@.tokens[token]])
            } else {
                None
            },
            r matches Some(f) ==> f.token == token,
    {
        broadcast use vstd::std_specs::hash::group_hash_axioms;

        match self.token_to_flow.get(&token) {
            Some(id) => self.flow(*id),
            None => None,
        }
    }

    /// Decides about a client's packet.
    pub fn packet_step(&self, key: FlowKey, enqueued_at: u64, now: u64) -> (r: PacketStep)
        ensures
            r == self@.step_for(key, enqueued_at, now),
    {
        if should_drop_stale_queued_packet(QueuedPacketKind::Data, enqueued_at, now) {
            return PacketStep::Stale;
        }
        match self.flow(key.id()) {
            Some(f) => PacketStep::Known(f.token),
            None => PacketStep::New,
        }
    }

    /// Takes the next token that no flow has.
    pub fn take_token(&mut self) -> (r: Option<usize>)
        ensures
            final(self)@ == old(self)@,
            match r {
                Some(t) => t != 0 && !old(self)@.tokens.contains_key(t) && final(self).next_token
                    == token_after(t) && forall|x: usize|
                    x != 0 && #[trigger] steps(first_token(old(self).next_token), x) < steps(
                        first_token(old(self).next_token),
                        t,
                    ) ==> old(self)@.tokens.contains_key(x),
                None => final(self).next_token == first_token(old(self).next_token) && forall|x: usize|
                    x != 0 ==> #[trigger] old(self)@.tokens.contains_key(x),
            },
    {
        allocate_flow_token(&mut self.next_token, &self.token_to_flow)
    }

    /// Adds a flow whose socket has the token.
    pub fn open_flow(
        &mut self,
        key: FlowKey,
        token: usize,
        client_addr: SocketAddr,
        original_info: OriginalPacketInfo,
        now: u64,
    )
        requires
            old(self).wf(),
            !old(self)@.has(key),
            token != 0,
            !old(self)@.tokens.contains_key(token),
        ensures
            final(self).wf(),
            final(self).next_token == old(self).next_token,
            final(self)@ == old(self)@.with(
                ShardFlow {
                    key,
                    record: FlowRecord {
                        client_addr,
                        last_activity: now,
                        original_info,
                        marked_for_removal: None,
                    },
                    token,
                },
            ),
    {
        broadcast use vstd::std_specs::hash::group_hash_axioms;

        let ghost v = self@;
        let id: u128 = key.id();
        let f = ShardFlow {
            key,
            record: FlowRecord {
                client_addr,
                last_activity: now,
                original_info,
                marked_for_removal: None,
            },
            token,
        };
        proof {
            lemma_with(v, f);
        }
        self.token_to_flow.insert(token, id);
        let mut list: Vec<GameAddr> = match self.session_flows.remove(&key.sid) {
            Some(list) => list,
            None => Vec::new(),
        };
        let ghost was = list@;
        list.push(key.game);
        let ghost now_listed = list@;
        self.session_flows.insert(key.sid, list);
        self.flows.insert(id, f);
        proof {
            assert(was =~= if v.index.contains_key(key.sid) {
                v.index[key.sid]
            } else {
                Seq::empty()
            });
            assert(self@.index =~= v.with(f).index);
        }
    }

    /// Takes up a client's packet for a flow that is there.
    pub fn use_flow(
        &mut self,
        key: FlowKey,
        client_addr: SocketAddr,
        original_info: OriginalPacketInfo,
        now: u64,
    )
        requires
            old(self).wf(),
            old(self)@.has(key),
        ensures
            final(self).wf(),
            final(self).next_token == old(self).next_token,
            final(self)@ == old(self)@.changed(
                key.number() as u128,
                FlowRecord {
                    client_addr,
                    last_activity: now,
                    original_info,
                    marked_for_removal: None,
                },
            ),
    {
        let record = FlowRecord {
            client_addr,
            last_activity: now,
            original_info,
            marked_for_removal: None,
        };
        self.change(key.id(), record);
    }

    fn change(&mut self, id: u128, record: FlowRecord)
        requires
            old(self).wf(),
            old(self)@.flows.contains_key(id),
        ensures
            final(self).wf(),
            final(self).next_token == old(self).next_token,
            final(self)@ == old(self)@.changed(id, record),
    {
        broadcast use vstd::std_specs::hash::group_hash_axioms;

        let ghost v = self@;
        if let Some(f) = self.flow(id) {
            self.flows.insert(id, ShardFlow { record, ..f });
        }
        proof {
            lemma_changed(v, id, record);
        }
    }

    /// Notes that a flow has activity from its game server.
    pub fn mark_active(&mut self, f: ShardFlow, now: u64)
        requires
            old(self).wf(),
            old(self)@.has(f.key),
            old(self)@.flows[f.key.number() as u128] == f,
        ensures
            final(self).wf(),
            final(self).next_token == old(self).next_token,
            final(self)@ == old(self)@.changed(
                f.key.number() as u128,
                FlowRecord { last_activity: now, marked_for_removal: None, ..f.record },
            ),
    {
        self.change(
            f.key.id(),
            FlowRecord { last_activity: now, marked_for_removal: None, ..f.record },
        );
    }

    /// Forgets a flow; returns the token of its socket.
    fn drop_flow(&mut self, id: u128) -> (r: usize)
        requires
            old(self).wf(),
            old(self)@.flows.contains_key(id),
        ensures
            final(self).wf(),
            final(self).next_token == old(self).next_token,
            final(self)@ == old(self)@.without(id),
            r == old(self)@.flows[id].token,
    {
        broadcast use vstd::std_specs::hash::group_hash_axioms;

        let ghost v = self@;
        proof {
            lemma_without(v, id);
        }
        match self.flows.remove(&id) {
            Some(f) => {
                let _ = self.token_to_flow.remove(&f.token);
                remove_flow_from_session_index(&mut self.session_flows, &f.key);
                assert(self@ == v.without(id));
                f.token
            },
            None => 0,
        }
    }
}

/// The number of the flow of a session to a game server.
pub open spec fn flow_number(sid: u64, game: GameAddr) -> u128 {
    (FlowKey { sid, game }).number() as u128
}

impl ShardView {
    /// The flows with those of a session refreshed by a keepalive.
    pub open spec fn refreshed(self, sid: u64, client_addr: SocketAddr, now: u64) -> Map<u128, ShardFlow> {
        Map::new(
            |id: u128| self.flows.contains_key(id),
            |id: u128|
                if self.flows[id].key.sid == sid {
                    ShardFlow {
                        record: FlowRecord {
                            client_addr,
                            last_activity: now,
                            marked_for_removal: None,
                            ..self.flows[id].record
                        },
                        ..self.flows[id]
                    }
                } else {
                    self.flows[id]
                },
        )
    }

    /// With activity of a session's flows from the client's endpoint.
    pub open spec fn kept_alive(self, sid: u64, client_addr: SocketAddr, now: u64) -> ShardView {
        ShardView { flows: self.refreshed(sid, client_addr, now), ..self }
    }

    /// Without the flows of a session.
    pub open spec fn without_session(self, sid: u64) -> ShardView {
        ShardView {
            flows: self.flows.restrict(
                Set::new(|id: u128| self.flows.contains_key(id) && self.flows[id].key.sid != sid),
            ),
            tokens: self.tokens.restrict(
                Set::new(
                    |t: usize|
                        self.tokens.contains_key(t) && self.flows[self.tokens[t]].key.sid != sid,
                ),
            ),
            index: self.index.remove(sid),
        }
    }

    /// The flows after their age was looked at.
    pub open spec fn aged(self, now: u64) -> Map<u128, ShardFlow> {
        Map::new(
            |id: u128| self.flows.contains_key(id) && aged(self.flows[id].record, now) is Some,
            |id: u128|
                ShardFlow { record: aged(self.flows[id].record, now)->Some_0, ..self.flows[id] },
        )
    }

    /// Whether the flow of a token goes when the age of the flows is looked at.
    pub open spec fn ends(self, t: usize, now: u64) -> bool {
        self.tokens.contains_key(t) && aged(self.flows[self.tokens[t]].record, now) is None
    }
}

/// Whether `after` is `before` without the flows of a session, whose tokens are `freed`.
pub open spec fn session_forgotten(
    before: ShardView,
    after: ShardView,
    sid: u64,
    freed: Seq<usize>,
) -> bool {
    &&& after == before.without_session(sid)
    &&& forall|t: usize| #[trigger]
        freed.contains(t) <==> before.tokens.contains_key(t) && before.flows[before.tokens[t]].key.sid
            == sid
}

/// Whether `after` has the flows of `before` after their age was looked at; the tokens of
/// those that are gone are `freed`.
pub open spec fn flows_aged(before: ShardView, after: ShardView, now: u64, freed: Seq<usize>) -> bool {
    &&& after.flows == before.aged(now)
    &&& forall|t: usize| #[trigger]
        after.tokens.contains_key(t) <==> before.tokens.contains_key(t) && !before.ends(t, now)
    &&& forall|t: usize| #[trigger] freed.contains(t) <==> before.ends(t, now)
}

/// The flow of a listed game is there, and its own session's.
proof fn lemma_listed(v: ShardView, sid: u64, j: int)
    requires
        v.wf(),
        v.index.contains_key(sid),
        0 <= j < v.index[sid].len(),
    ensures
        v.flows.contains_key(flow_number(sid, v.index[sid][j])),
        v.flows[flow_number(sid, v.index[sid][j])].key == (FlowKey { sid, game: v.index[sid][j] }),
{
    let game = v.index[sid][j];
    let key = FlowKey { sid, game };
    assert(v.index[sid].contains(game));
    assert(v.lists(key));
    assert(v.has(key));
    assert(0 <= key.number() < 0x1_0000_0000_0000_0000_0000_0000_0000_0000int);
    lemma_flow_number_injective(v.flows[flow_number(sid, game)].key, key);
}

/// A session's flow is listed.
proof fn lemma_flow_listed(v: ShardView, id: u128)
    requires
        v.wf(),
        v.flows.contains_key(id),
    ensures
        v.index.contains_key(v.flows[id].key.sid),
        v.index[v.flows[id].key.sid].contains(v.flows[id].key.game),
        id == flow_number(v.flows[id].key.sid, v.flows[id].key.game),
{
    let key = v.flows[id].key;
    assert(v.has(FlowKey { sid: key.sid, game: key.game }));
    assert(v.lists(FlowKey { sid: key.sid, game: key.game }));
}

impl Shard {
    /// The games that the index lists for a session.
    fn listed(&self, sid: u64) -> (r: Option<Vec<GameAddr>>)
        ensures
            match r {
                Some(list) => self@.index.contains_key(sid) && list@ == self@.index[sid],
                None => !self@.index.contains_key(sid),
            },
    {
        broadcast use vstd::std_specs::hash::group_hash_axioms;

        match self.session_flows.get(&sid) {
            Some(list) => {
                let mut copy: Vec<GameAddr> = Vec::with_capacity(list.len());
                let mut i: usize = 0;
                while i < list.len()
                    invariant
                        i <= list@.len(),
                        copy@ =~= list@.take(i as int),
                    decreases list.len() - i,
                {
                    copy.push(list[i]);
                    i = i + 1;
                }
                assert(list@.take(i as int) =~= list@);
                Some(copy)
            },
            None => None,
        }
    }

    /// Takes up a keepalive: the session's flows have activity, from this endpoint.
    pub fn keepalive(&mut self, sid: u64, client_addr: SocketAddr, now: u64)
        requires
            old(self).wf(),
        ensures
            final(self).wf(),
            final(self).next_token == old(self).next_token,
            final(self)@ == old(self)@.kept_alive(sid, client_addr, now),
    {
        let ghost v = self@;
        let ghost want = v.refreshed(sid, client_addr, now);
        match self.listed(sid) {
            None => {
                proof {
                    assert forall|id: u128| #[trigger] v.flows.contains_key(id) implies v.flows[id].key.sid
                        != sid by {
                        lemma_flow_listed(v, id);
                    }
                    assert(self@.flows =~= want);
                }
            },
            Some(list) => {
                let mut i: usize = 0;
                while i < list.len()
                    invariant
                        i <= list@.len(),
                        v.wf(),
                        v.index.contains_key(sid),
                        list@ == v.index[sid],
                        self.wf(),
                        self.next_token == old(self).next_token,
                        self@.tokens == v.tokens,
                        self@.index == v.index,
                        want == v.refreshed(sid, client_addr, now),
                        forall|id: u128| #[trigger]
                            self@.flows.contains_key(id) <==> v.flows.contains_key(id),
                        forall|id: u128| #[trigger]
                            self@.flows.contains_key(id) ==> self@.flows[id] == want[id]
                                || self@.flows[id] == v.flows[id],
                        forall|j: int|
                            0 <= j < i ==> self@.flows[flow_number(sid, #[trigger] list@[j])]
                                == want[flow_number(sid, list@[j])],
                        forall|id: u128|
                            v.flows.contains_key(id) && v.flows[id].key.sid != sid ==> #[trigger] self@.flows[id]
                                == v.flows[id],
                    decreases list.len() - i,
                {
                    let key = FlowKey { sid, game: list[i] };
                    let id: u128 = key.id();
                    proof {
                        lemma_listed(v, sid, i as int);
                    }
                    if let Some(f) = self.flow(id) {
                        let ghost before = self@.flows;
                        self.change(
                            id,
                            FlowRecord {
                                client_addr,
                                last_activity: now,
                                marked_for_removal: None,
                                ..f.record
                            },
                        );
                        assert(self@.flows[id] == want[id]);
                    }
                    i = i + 1;
                }
                proof {
                    assert forall|id: u128| #[trigger] self@.flows.contains_key(id) implies self@.flows[id]
                        == want[id] by {
                        if v.flows[id].key.sid == sid {
                            lemma_flow_listed(v, id);
                            let game = v.flows[id].key.game;
                            let j = choose|j: int| 0 <= j < list@.len() && list@[j] == game;
                            assert(self@.flows[flow_number(sid, list@[j])] == want[flow_number(
                                sid,
                                list@[j],
                            )]);
                        } else {
                            assert(self@.flows[id] == v.flows[id]);
                        }
                    }
                    assert(self@.flows =~= want);
                }
            },
        }
    }

    /// Forgets the flows of a session; returns the tokens of their sockets.
    pub fn remove_session(&mut self, sid: u64) -> (r: Vec<usize>)
        requires
            old(self).wf(),
        ensures
            final(self).wf(),
            final(self).next_token == old(self).next_token,
            session_forgotten(old(self)@, final(self)@, sid, r@),
    {
        let ghost v = self@;
        let mut freed: Vec<usize> = Vec::new();
        match self.listed(sid) {
            None => {
                proof {
                    assert forall|id: u128| #[trigger] v.flows.contains_key(id) implies v.flows[id].key.sid
                        != sid by {
                        lemma_flow_listed(v, id);
                    }
                    assert(self@.flows =~= v.without_session(sid).flows);
                    assert(self@.tokens =~= v.without_session(sid).tokens);
                    assert(self@.index =~= v.without_session(sid).index);
                }
            },
            Some(list) => {
                let mut i: usize = 0;
                assert forall|j: int| 0 <= j < list@.len() implies v.flows.contains_key(
                    flow_number(sid, #[trigger] list@[j]),
                ) by {
                    lemma_listed(v, sid, j);
                }
                while i < list.len()
                    invariant
                        i <= list@.len(),
                        v.wf(),
                        v.index.contains_key(sid),
                        list@ == v.index[sid],
                        self.wf(),
                        self.next_token == old(self).next_token,
                        freed@.len() == i,
                        forall|j: int|
                            0 <= j < i ==> #[trigger] freed@[j] == v.flows[flow_number(
                                sid,
                                list@[j],
                            )].token,
                        forall|id: u128| #[trigger]
                            self@.flows.contains_key(id) ==> v.flows.contains_key(id)
                                && self@.flows[id] == v.flows[id],
                        forall|id: u128| #[trigger]
                            v.flows.contains_key(id) && v.flows[id].key.sid != sid
                                ==> self@.flows.contains_key(id),
                        forall|j: int|
                            0 <= j < i ==> !self@.flows.contains_key(
                                flow_number(sid, #[trigger] list@[j]),
                            ),
                        forall|j: int|
                            i <= j < list@.len() ==> self@.flows.contains_key(
                                flow_number(sid, #[trigger] list@[j]),
                            ),
                        forall|t: usize| #[trigger]
                            self@.tokens.contains_key(t) ==> v.tokens.contains_key(t)
                                && self@.tokens[t] == v.tokens[t],
                        forall|s: u64|
                            s != sid ==> #[trigger] self@.index.contains_key(s) == v.index.contains_key(s)
                                && (v.index.contains_key(s) ==> self@.index[s] == v.index[s]),
                    decreases list.len() - i,
                {
                    let key = FlowKey { sid, game: list[i] };
                    let id: u128 = key.id();
                    proof {
                        lemma_listed(v, sid, i as int);
                        assert(list@[i as int] == key.game);
                        assert forall|j: int| i < j < list@.len() implies flow_number(
                            sid,
                            #[trigger] list@[j],
                        ) != id by {
                            if flow_number(sid, list@[j]) == id {
                                lemma_listed(v, sid, j);
                                assert(list@[j] == list@[i as int]);
                            }
                        }
                    }
                    let ghost before = self@;
                    let token: usize = self.drop_flow(id);
                    freed.push(token);
                    i = i + 1;
                }
                proof {
                    lemma_session_gone(v, self@, list@, sid);
                    assert forall|t: usize| #[trigger]
                        freed@.contains(t) <==> v.tokens.contains_key(t) && v.flows[v.tokens[t]].key.sid
                            == sid by {
                        if freed@.contains(t) {
                            let j = choose|j: int| 0 <= j < freed@.len() && freed@[j] == t;
                            lemma_listed(v, sid, j);
                        }
                        if v.tokens.contains_key(t) && v.flows[v.tokens[t]].key.sid == sid {
                            let id = v.tokens[t];
                            lemma_flow_listed(v, id);
                            let game = v.flows[id].key.game;
                            let j = choose|j: int| 0 <= j < list@.len() && list@[j] == game;
                            assert(freed@[j] == t);
                        }
                    }
                }
            },
        }
        freed
    }
}

/// What is left when all listed flows of a session are gone.
proof fn lemma_session_gone(v: ShardView, w: ShardView, list: Seq<GameAddr>, sid: u64)
    requires
        v.wf(),
        w.wf(),
        v.index.contains_key(sid),
        list == v.index[sid],
        forall|id: u128| #[trigger]
            w.flows.contains_key(id) ==> v.flows.contains_key(id) && w.flows[id] == v.flows[id],
        forall|id: u128| #[trigger]
            v.flows.contains_key(id) && v.flows[id].key.sid != sid ==> w.flows.contains_key(id),
        forall|j: int|
            0 <= j < list.len() ==> !w.flows.contains_key(flow_number(sid, #[trigger] list[j])),
        forall|t: usize| #[trigger]
            w.tokens.contains_key(t) ==> v.tokens.contains_key(t) && w.tokens[t] == v.tokens[t],
        forall|s: u64|
            s != sid ==> #[trigger] w.index.contains_key(s) == v.index.contains_key(s) && (
            v.index.contains_key(s) ==> w.index[s] == v.index[s]),
    ensures
        w == v.without_session(sid),
{
    let want = v.without_session(sid);
    assert forall|id: u128| w.flows.contains_key(id) implies v.flows[id].key.sid != sid by {
        if v.flows[id].key.sid == sid {
            lemma_flow_listed(v, id);
            let game = v.flows[id].key.game;
            let j = choose|j: int| 0 <= j < list.len() && list[j] == game;
            assert(!w.flows.contains_key(flow_number(sid, list[j])));
        }
    }
    assert(w.flows =~= want.flows);
    assert forall|t: usize| w.tokens.contains_key(t) <==> want.tokens.contains_key(t) by {
        if w.tokens.contains_key(t) {
            assert(w.flows.contains_key(w.tokens[t]));
        }
        if want.tokens.contains_key(t) {
            let id = v.tokens[t];
            assert(v.flows.contains_key(id));
            assert(w.flows.contains_key(id));
            assert(w.flows[id].token == t);
        }
    }
    assert(w.tokens =~= want.tokens);
    if w.index.contains_key(sid) {
        let game = w.index[sid][0];
        lemma_listed(w, sid, 0);
    }
    assert(w.index =~= want.index);
}

impl Shard {
    /// The numbers of all flows.
    fn ids(&self) -> (r: Vec<u128>)
        ensures
            r@.no_duplicates(),
            forall|id: u128| #[trigger] r@.contains(id) <==> self@.flows.contains_key(id),
    {
        broadcast use vstd::std_specs::hash::group_hash_axioms;

        let mut ids: Vec<u128> = Vec::new();
        let ghost map = self.flows@;
        for id in it: self.flows.keys()
            invariant
                map == self.flows@,
                it.seq().unref().to_set() == map.dom(),
                it.seq().no_duplicates(),
                ids@.len() == it.index(),
                forall|j: int|
                    0 <= j < ids@.len() ==> #[trigger] ids@[j] == *it.seq()[j] && map.contains_key(
                        ids@[j],
                    ),
                forall|x: u128|
                    ids@.contains(x) <==> exists|j: int|
                        0 <= j < it.index() && *(#[trigger] it.seq()[j]) == x,
        {
            let ghost before = ids@;
            let ghost j0 = it.index();
            ids.push(*id);
            proof {
                assert(it.seq().unref()[j0 as int] == *id);
                assert(it.seq().unref().contains(*id));
                assert(map.contains_key(*id));
                assert forall|x: u128| ids@.contains(x) <==> exists|j: int|
                    0 <= j < j0 + 1 && *(#[trigger] it.seq()[j]) == x by {
                    if ids@.contains(x) {
                        let j = choose|j: int| 0 <= j < ids@.len() && ids@[j] == x;
                        assert(*it.seq()[j] == x);
                    }
                    if exists|j: int| 0 <= j < j0 + 1 && *(#[trigger] it.seq()[j]) == x {
                        let j = choose|j: int| 0 <= j < j0 + 1 && *(#[trigger] it.seq()[j]) == x;
                        assert(ids@[j] == x);
                    }
                }
            }
        }
        proof {
            assert forall|x: u128| #[trigger] ids@.contains(x) <==> self@.flows.contains_key(x) by {
                assert(map.dom().contains(x) == self@.flows.contains_key(x));
                if ids@.contains(x) {
                    let j = choose|j: int| 0 <= j < ids@.len() && ids@[j] == x;
                    assert(map.contains_key(ids@[j]));
                }
            }
        }
        ids
    }

    /// Looks at the age of all flows; returns the tokens of those that are gone.
    pub fn cleanup(&mut self, now: u64) -> (r: Vec<usize>)
        requires
            old(self).wf(),
        ensures
            final(self).wf(),
            final(self).next_token == old(self).next_token,
            flows_aged(old(self)@, final(self)@, now, r@),
    {
        let ghost v = self@;
        let ghost want = v.aged(now);
        let ids = self.ids();
        let mut freed: Vec<usize> = Vec::new();
        let mut i: usize = 0;
        assert forall|j: int| 0 <= j < ids@.len() implies v.flows.contains_key(#[trigger] ids@[j]) by {
            assert(ids@.contains(ids@[j]));
        }
        while i < ids.len()
            invariant
                i <= ids@.len(),
                ids@.no_duplicates(),
                v.wf(),
                want == v.aged(now),
                forall|id: u128| #[trigger] ids@.contains(id) <==> v.flows.contains_key(id),
                forall|j: int| 0 <= j < ids@.len() ==> v.flows.contains_key(#[trigger] ids@[j]),
                self.wf(),
                self.next_token == old(self).next_token,
                forall|id: u128| #[trigger]
                    self@.flows.contains_key(id) ==> v.flows.contains_key(id) && self@.flows[id].token
                        == v.flows[id].token,
                forall|j: int|
                    i <= j < ids@.len() ==> self@.flows.contains_key(#[trigger] ids@[j])
                        && self@.flows[ids@[j]] == v.flows[ids@[j]],
                forall|j: int|
                    0 <= j < i ==> self@.flows.contains_key(#[trigger] ids@[j]) == want.contains_key(
                        ids@[j],
                    ) && (want.contains_key(ids@[j]) ==> self@.flows[ids@[j]] == want[ids@[j]]),
                forall|t: usize| #[trigger]
                    self@.tokens.contains_key(t) ==> v.tokens.contains_key(t) && self@.tokens[t]
                        == v.tokens[t],
                forall|j: int|
                    0 <= j < freed@.len() ==> v.ends(#[trigger] freed@[j], now),
                forall|j: int|
                    0 <= j < i && !want.contains_key(#[trigger] ids@[j]) ==> freed@.contains(
                        v.flows[ids@[j]].token,
                    ),
            decreases ids.len() - i,
        {
            let id: u128 = ids[i];
            let ghost before = self@;
            let ghost done = freed@;
            assert(before.flows[ids@[i as int]] == v.flows[id]);
            if let Some(f) = self.flow(id) {
                let mut record: FlowRecord = f.record;
                if age_flow(&mut record, now) {
                    self.change(id, record);
                    assert(self@.flows[id] == want[id]);
                } else {
                    let token: usize = self.drop_flow(id);
                    freed.push(token);
                    proof {
                        assert(v.tokens.contains_key(token) && v.tokens[token] == id);
                        assert(freed@[done.len() as int] == token);
                    }
                }
            }
            proof {
                assert forall|x: usize| done.contains(x) implies freed@.contains(x) by {
                    let k = choose|k: int| 0 <= k < done.len() && done[k] == x;
                    assert(freed@[k] == x);
                }
            }
            i = i + 1;
        }
        proof {
            lemma_all_aged(v, self@, ids@, freed@, now);
        }
        freed
    }
}

/// What is left when the age of every flow was looked at.
proof fn lemma_all_aged(v: ShardView, w: ShardView, ids: Seq<u128>, freed: Seq<usize>, now: u64)
    requires
        v.wf(),
        w.wf(),
        forall|id: u128| #[trigger] ids.contains(id) <==> v.flows.contains_key(id),
        forall|id: u128| #[trigger]
            w.flows.contains_key(id) ==> v.flows.contains_key(id) && w.flows[id].token
                == v.flows[id].token,
        forall|j: int|
            0 <= j < ids.len() ==> w.flows.contains_key(#[trigger] ids[j]) == v.aged(now).contains_key(
                ids[j],
            ) && (v.aged(now).contains_key(ids[j]) ==> w.flows[ids[j]] == v.aged(now)[ids[j]]),
        forall|t: usize| #[trigger]
            w.tokens.contains_key(t) ==> v.tokens.contains_key(t) && w.tokens[t] == v.tokens[t],
        forall|j: int| 0 <= j < freed.len() ==> v.ends(#[trigger] freed[j], now),
        forall|j: int|
            0 <= j < ids.len() && !v.aged(now).contains_key(#[trigger] ids[j]) ==> freed.contains(
                v.flows[ids[j]].token,
            ),
    ensures
        w.flows == v.aged(now),
        forall|t: usize| #[trigger]
            w.tokens.contains_key(t) <==> v.tokens.contains_key(t) && !v.ends(t, now),
        forall|t: usize| #[trigger] freed.contains(t) <==> v.ends(t, now),
{
    let want = v.aged(now);
    assert forall|id: u128| w.flows.contains_key(id) == want.contains_key(id) by {
        if v.flows.contains_key(id) {
            assert(ids.contains(id));
            let j = choose|j: int| 0 <= j < ids.len() && ids[j] == id;
            assert(w.flows.contains_key(ids[j]) == want.contains_key(ids[j]));
        }
    }
    assert forall|id: u128| #[trigger] w.flows.contains_key(id) implies w.flows[id] == want[id] by {
        assert(ids.contains(id));
        let j = choose|j: int| 0 <= j < ids.len() && ids[j] == id;
        assert(w.flows.contains_key(ids[j]));
    }
    assert(w.flows =~= want);
    assert forall|t: usize| #[trigger]
        w.tokens.contains_key(t) <==> v.tokens.contains_key(t) && !v.ends(t, now) by {
        if w.tokens.contains_key(t) {
            assert(w.flows.contains_key(w.tokens[t]));
        }
        if v.tokens.contains_key(t) && !v.ends(t, now) {
            let id = v.tokens[t];
            assert(v.flows.contains_key(id));
            assert(w.flows.contains_key(id));
            assert(w.flows[id].token == t);
        }
    }
    assert forall|t: usize| #[trigger] freed.contains(t) <==> v.ends(t, now) by {
        if freed.contains(t) {
            let j = choose|j: int| 0 <= j < freed.len() && freed[j] == t;
            assert(v.ends(freed[j], now));
        }
        if v.ends(t, now) {
            let id = v.tokens[t];
            assert(v.flows.contains_key(id));
            assert(ids.contains(id));
            let j = choose|j: int| 0 <= j < ids.len() && ids[j] == id;
            assert(freed.contains(v.flows[ids[j]].token));
        }
    }
}

/// The number that [`mixed`] makes `bits` of.
pub open spec fn unmixed(bits: u64) -> u64 {
    let d = bits ^ (bits >> 33);
    let c = d.wrapping_mul(0x9cb4b2f8129337db);
    let b = c ^ (c >> 33);
    let a = b.wrapping_mul(0x4f74430c22a54005);
    a ^ (a >> 33)
}

/// Mixing loses nothing: an id comes back from its mixed bits, so that no two ids have
/// the same. Where there are 8 shards, or 256, the low bits of these choose the shard.
pub proof fn mixing_can_be_undone(x: u64, y: u64)
    ensures
        unmixed(mixed(x)) == x,
        mixed(x) == mixed(y) ==> x == y,
        shard_of(x, 8) == mixed(x) % 8,
        shard_of(x, 256) == mixed(x) % 256,
{
    lemma_unmixed(x);
    lemma_unmixed(y);
    lemma_cut(mixed(x));
}

/// Every session has a shard.
pub proof fn every_session_has_a_shard(x: u64, shard_count: usize)
    requires
        shard_count > 0,
    ensures
        shard_of(x, shard_count) < shard_count,
{
}

proof fn lemma_unmixed(x: u64)
    ensures
        unmixed(mixed(x)) == x,
{
    let a = x ^ (x >> 33);
    let b = a.wrapping_mul(0xff51afd7ed558ccd);
    let c = b ^ (b >> 33);
    let d = c.wrapping_mul(0xc4ceb9fe1a85ec53);
    let e = d ^ (d >> 33);
    lemma_folded_twice(d);
    assert(e ^ (e >> 33) == d);
    assert(0xc4ceb9fe1a85ec53int * 0x9cb4b2f8129337dbint == 8680939279959119233int * 0x1_0000_0000_0000_0000
        + 1);
    lemma_times_back(c, 0xc4ceb9fe1a85ec53, 0x9cb4b2f8129337db, 8680939279959119233);
    lemma_folded_twice(b);
    assert(c ^ (c >> 33) == b);
    assert(0xff51afd7ed558ccdint * 0x4f74430c22a54005int == 5710046619856821070int * 0x1_0000_0000_0000_0000
        + 1);
    lemma_times_back(a, 0xff51afd7ed558ccd, 0x4f74430c22a54005, 5710046619856821070);
    lemma_folded_twice(x);
}

proof fn lemma_folded_twice(x: u64)
    by (bit_vector)
    ensures
        (x ^ (x >> 33)) ^ ((x ^ (x >> 33)) >> 33) == x,
{
}

proof fn lemma_times_back(x: u64, c: u64, i: u64, k: int)
    requires
        c * i == k * 0x1_0000_0000_0000_0000 + 1,
    ensures
        x.wrapping_mul(c).wrapping_mul(i) == x,
{
    let m = 0x1_0000_0000_0000_0000int;
    let y = x.wrapping_mul(c);
    let q = x * c / m;
    assert(y == (x * c) % m);
    assert(x * c == q * m + y) by {
        vstd::arithmetic::div_mod::lemma_fundamental_div_mod(x * c, m);
    }
    assert(y * i == m * (x * k - q * i) + x) by (nonlinear_arith)
        requires
            x * c == q * m + y,
            c * i == k * m + 1,
    ;
    vstd::arithmetic::div_mod::lemma_fundamental_div_mod_converse(y * i, m, x * k - q * i, x as int);
}

/// Tokens come in a cycle: behind the largest comes 1, and 0 never does. How far a token is
/// behind another is how many steps lead to it.
pub proof fn tokens_come_in_a_cycle(start: usize, t: usize)
    requires
        start != 0,
        t != 0,
    ensures
        token_after(t) != 0,
        t < usize::MAX ==> token_after(t) == t + 1,
        t == usize::MAX ==> token_after(t) == 1,
        steps(start, start) == 0,
        token_after(t) != start ==> steps(start, token_after(t)) == steps(start, t) + 1,
        steps(start, t) >= 0,
        first_token(t) == t,
        first_token(0) == 1,
{
}

/// Taking a game out of a list takes out that one and no other.
pub proof fn one_game_is_taken_out(list: Seq<GameAddr>, game: GameAddr, other: GameAddr)
    requires
        list.no_duplicates(),
    ensures
        !swapped_out(list, game).contains(game),
        other != game ==> (swapped_out(list, game).contains(other) <==> list.contains(other)),
        swapped_out(list, game).len() == if list.contains(game) {
            list.len() - 1
        } else {
            list.len() as int
        },
{
    lemma_swapped_out(list, game);
    lemma_place(list, game);
    if list.contains(game) {
        let i = choose|i: int| 0 <= i < list.len() && list[i] == game;
        assert(list[i] == game);
    } else if place(list, game) < list.len() {
        assert(list[place(list, game)] == game);
    }
}

/// A packet is for the flow of its own session and game server, unless it has waited for
/// more than a quarter of a second.
pub proof fn packets_find_their_flow(v: ShardView, id: u128, enqueued_at: u64, now: u64)
    requires
        v.wf(),
        v.flows.contains_key(id),
    ensures
        ({
            let f = v.flows[id];
            let r = v.step_for(f.key, enqueued_at, now);
            &&& now > enqueued_at + 250_000_000 ==> r is Stale
            &&& now <= enqueued_at + 250_000_000 ==> r == PacketStep::Known(f.token)
        }),
{
}

/// A packet of a session for which there is no flow to the game server opens one.
pub proof fn packets_without_a_flow_open_one(v: ShardView, key: FlowKey, enqueued_at: u64, now: u64)
    requires
        v.wf(),
        forall|id: u128| #[trigger] v.flows.contains_key(id) ==> v.flows[id].key != key,
    ensures
        now <= enqueued_at + 250_000_000 ==> v.step_for(key, enqueued_at, now) is New,
{
    let id = key.number() as u128;
    assert(0 <= key.number() < 0x1_0000_0000_0000_0000_0000_0000_0000_0000int);
    if v.flows.contains_key(id) {
        lemma_flow_number_injective(v.flows[id].key, key);
    }
}

/// A keepalive is activity of each of the session's flows, from the endpoint it came from,
/// and takes the mark off; other flows, and what the flows answer, stay.
pub proof fn keepalives_reach_the_sessions_flows(
    v: ShardView,
    sid: u64,
    client_addr: SocketAddr,
    now: u64,
    id: u128,
)
    ensures
        ({
            let after = v.kept_alive(sid, client_addr, now);
            let f = v.flows[id];
            let g = after.flows[id];
            &&& after.tokens == v.tokens && after.index == v.index
            &&& after.flows.contains_key(id) <==> v.flows.contains_key(id)
            &&& v.flows.contains_key(id) && f.key.sid == sid ==> g.record.client_addr == client_addr
                && g.record.last_activity == now && g.record.marked_for_removal is None
                && g.record.original_info == f.record.original_info && g.key == f.key && g.token == f.token
            &&& v.flows.contains_key(id) && f.key.sid != sid ==> g == f
        }),
{
}

/// Forgetting a session frees the token of each of its flows and of no other, and leaves
/// the flows of other sessions as they are.
pub proof fn forgetting_a_session_frees_its_tokens(
    before: ShardView,
    after: ShardView,
    sid: u64,
    freed: Seq<usize>,
    id: u128,
)
    requires
        before.wf(),
        session_forgotten(before, after, sid, freed),
        before.flows.contains_key(id),
    ensures
        ({
            let f = before.flows[id];
            &&& f.key.sid == sid ==> !after.flows.contains_key(id) && !after.tokens.contains_key(f.token)
                && freed.contains(f.token)
            &&& f.key.sid != sid ==> after.flows.contains_key(id) && after.flows[id] == f
                && after.tokens.contains_key(f.token) && after.tokens[f.token] == id && !freed.contains(
                f.token,
            )
            &&& !after.index.contains_key(sid)
        }),
{
    let f = before.flows[id];
    assert(before.tokens.contains_key(f.token) && before.tokens[f.token] == id);
    assert(freed.contains(f.token) <==> f.key.sid == sid);
}

/// A cleanup ages each flow by itself, and frees the tokens of those that are gone and no
/// other.
pub proof fn cleanups_free_the_tokens_of_old_flows(
    before: ShardView,
    after: ShardView,
    now: u64,
    freed: Seq<usize>,
    id: u128,
)
    requires
        before.wf(),
        flows_aged(before, after, now, freed),
        before.flows.contains_key(id),
    ensures
        ({
            let f = before.flows[id];
            let r = aged(f.record, now);
            &&& r is None ==> !after.flows.contains_key(id) && !after.tokens.contains_key(f.token)
                && freed.contains(f.token)
            &&& r is Some ==> after.flows.contains_key(id) && after.flows[id].record == r->Some_0
                && after.flows[id].key == f.key && after.flows[id].token == f.token
                && after.tokens.contains_key(f.token) && !freed.contains(f.token)
        }),
{
    let f = before.flows[id];
    assert(before.tokens.contains_key(f.token) && before.tokens[f.token] == id);
    assert(after.tokens.contains_key(f.token) <==> !before.ends(f.token, now));
    assert(freed.contains(f.token) <==> before.ends(f.token, now));
}

/// A new flow is found by its token and listed under its session; dropping it again leaves
/// the flows and tokens as they were.
pub proof fn dropping_a_flow_undoes_opening_it(v: ShardView, f: ShardFlow, other: u128)
    requires
        v.wf(),
        !v.has(f.key),
        !v.tokens.contains_key(f.token),
        f.token != 0,
    ensures
        ({
            let id = f.key.number() as u128;
            let w = v.with(f);
            &&& w.flows[id] == f && w.tokens[f.token] == id && w.index[f.key.sid].last() == f.key.game
            &&& other != id ==> (w.flows.contains_key(other) <==> v.flows.contains_key(other))
            &&& other != id && v.flows.contains_key(other) ==> w.flows[other] == v.flows[other]
            &&& w.without(id).flows == v.flows
            &&& w.without(id).tokens == v.tokens
            &&& v.index.contains_key(f.key.sid) ==> w.index[f.key.sid].drop_last() == v.index[f.key.sid]
            &&& !v.index.contains_key(f.key.sid) ==> w.index[f.key.sid].len() == 1
        }),
{
    let id = f.key.number() as u128;
    let w = v.with(f);
    assert(w.without(id).flows =~= v.flows);
    assert(w.without(id).tokens =~= v.tokens);
    if v.index.contains_key(f.key.sid) {
        assert(w.index[f.key.sid].drop_last() =~= v.index[f.key.sid]);
    }
}

} // verus!
