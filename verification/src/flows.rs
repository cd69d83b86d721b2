//! The flows of the first datapath: one socket for each session and game server.
//!
//! A flow that is idle is first marked and removed only after a grace period, so that
//! late packets still find it.

use crate::addr::SocketAddr;
use crate::auth::{hex, hex_range, hex_reads_back, push_hex, session_texts_tell_sessions_apart};
use crate::dest_policy::{
    dotted_text, dotted_texts_have_four_pieces, dotted_texts_read_back, push_dotted,
};
use crate::limits::{MAX_FLOWS_PER_SESSION, MAX_FLOWS_TOTAL};
use crate::num::{beyond, next};
use crate::packet::OriginalPacketInfo;
use crate::session::{SessionTable, SessionView};
use crate::source::{LimiterView, SourceLimitKind, SourceRateLimiter};
use crate::stats::{allow_source_event, DropReason, Stats};
use crate::text::{
    chars_of, decimal, decimals_read_back, is_digit, push_decimal, same, split,
    splitting_goes_from_piece_to_piece, texts,
};
use dashmap::DashMap;
use vstd::prelude::*;
use vstd::string::*;

verus! {

/// How long a flow may be idle, in nanoseconds.
pub const SESSION_TIMEOUT_NS: u64 = 180_000_000_000;

/// How long a marked flow stays, in nanoseconds.
pub const FLOW_GRACE_PERIOD_NS: u64 = 30_000_000_000;

/// How recent the activity of a marked flow is that revives it, in nanoseconds.
pub const FLOW_REVIVAL_NS: u64 = 10_000_000_000;

/// A flow. Times are nanoseconds of a monotonic clock.
#[derive(Clone, Copy, PartialEq, Eq, Structural, Debug)]
pub struct FlowRecord {
    pub client_addr: SocketAddr,
    pub last_activity: u64,
    pub original_info: OriginalPacketInfo,
    /// When the flow was marked for removal, if it is.
    pub marked_for_removal: Option<u64>,
}

/// A flow after its age was looked at; `None`, if it is removed. A marked flow goes
/// when its grace period is over; until then recent activity revives it. A flow that
/// is not marked is marked when it has been idle for too long.
pub open spec fn aged(f: FlowRecord, now: u64) -> Option<FlowRecord> {
    let idle = beyond(now, f.last_activity);
    match f.marked_for_removal {
        Some(marked_at) => if beyond(now, marked_at) >= FLOW_GRACE_PERIOD_NS {
            None
        } else if idle < FLOW_REVIVAL_NS {
            Some(FlowRecord { marked_for_removal: None, ..f })
        } else {
            Some(f)
        },
        None => if idle >= SESSION_TIMEOUT_NS {
            Some(FlowRecord { marked_for_removal: Some(now), ..f })
        } else {
            Some(f)
        },
    }
}

/// Ages a flow; whether it stays.
pub fn age_flow(f: &mut FlowRecord, now: u64) -> (r: bool)
    ensures
        r == (aged(*old(f), now) is Some),
        r ==> *final(f) == aged(*old(f), now)->Some_0,
{
    let idle: u64 = if now >= f.last_activity {
        now - f.last_activity
    } else {
        0
    };
    if let Some(marked_at) = f.marked_for_removal {
        if now >= marked_at && now - marked_at >= FLOW_GRACE_PERIOD_NS {
            return false;
        }
        if idle < FLOW_REVIVAL_NS {
            f.marked_for_removal = None;
        }
        return true;
    }
    if idle >= SESSION_TIMEOUT_NS {
        f.marked_for_removal = Some(now);
    }
    true
}

/// A flow that is in use is not removed, and neither is one that was not marked a
/// grace period ago.
pub proof fn flows_are_removed_in_two_steps(f: FlowRecord, now: u64)
    ensures
        f.marked_for_removal is None ==> aged(f, now) is Some,
        aged(f, now) is None ==> beyond(now, f.marked_for_removal->Some_0) >= FLOW_GRACE_PERIOD_NS,
        aged(f, now) is Some && beyond(now, f.last_activity) < FLOW_REVIVAL_NS
            ==> aged(f, now)->Some_0.marked_for_removal is None,
{
}

/// What a map from flow names to flows holds.
pub uninterp spec fn flows_of(m: DashMap<String, FlowRecord>) -> Map<Seq<char>, FlowRecord>;

/// What a map from session keys to the names of their flows holds.
pub uninterp spec fn index_of(m: DashMap<u64, Vec<String>>) -> Map<u64, Vec<String>>;

/// `DashMap::new`: the map is empty.
#[verifier::external_body]
fn new_flows() -> (r: DashMap<String, FlowRecord>)
    ensures
        flows_of(r) == (Map::<Seq<char>, FlowRecord>::empty()),
{
    DashMap::new()
}

/// `DashMap::len`: the number of entries.
#[verifier::external_body]
fn count_flows(m: &DashMap<String, FlowRecord>) -> (r: usize)
    ensures
        r == flows_of(*m).dom().len(),
{
    m.len()
}

/// `DashMap::get`, copied out: the flow under `name`, if there is one.
#[verifier::external_body]
fn get_flow(m: &DashMap<String, FlowRecord>, name: &str) -> (r: Option<FlowRecord>)
    ensures
        r == if flows_of(*m).contains_key(name@) {
            Some(flows_of(*m)[name@])
        } else {
            None
        },
{
    m.get(name).map(|e| *e)
}

/// `DashMap::insert`: the flow under `name` becomes `f`.
#[verifier::external_body]
fn insert_flow(m: &mut DashMap<String, FlowRecord>, name: &str, f: FlowRecord)
    ensures
        flows_of(*final(m)) == flows_of(*old(m)).insert(name@, f),
{
    m.insert(name.to_string(), f);
}

/// `DashMap::remove`: nothing is left under `name`.
#[verifier::external_body]
fn remove_flow(m: &mut DashMap<String, FlowRecord>, name: &str)
    ensures
        flows_of(*final(m)) == flows_of(*old(m)).remove(name@),
{
    m.remove(name);
}

/// `DashMap::retain`, with [`age_flow`]: the entries that it keeps are left, as it
/// leaves them.
#[verifier::external_body]
fn retain_flows(m: &mut DashMap<String, FlowRecord>, now: u64)
    ensures
        flows_of(*final(m)) == aged_flows(flows_of(*old(m)), now),
{
    m.retain(|_, f| age_flow(f, now))
}

/// All flows after their age was looked at.
pub open spec fn aged_flows(m: Map<Seq<char>, FlowRecord>, now: u64) -> Map<Seq<char>, FlowRecord> {
    Map::new(
        |name: Seq<char>| m.contains_key(name) && aged(m[name], now) is Some,
        |name: Seq<char>| aged(m[name], now)->Some_0,
    )
}

/// `DashMap::new`: the map is empty.
#[verifier::external_body]
fn new_index() -> (r: DashMap<u64, Vec<String>>)
    ensures
        index_of(r) == (Map::<u64, Vec<String>>::empty()),
{
    DashMap::new()
}

/// `DashMap::view`, of the length: how many names are under `key`, if there are any.
#[verifier::external_body]
fn index_len(m: &DashMap<u64, Vec<String>>, key: u64) -> (r: Option<usize>)
    ensures
        match r {
            Some(n) => index_of(*m).contains_key(key) && n == index_of(*m)[key]@.len(),
            None => !index_of(*m).contains_key(key),
        },
{
    m.view(&key, |_, names| names.len())
}

/// `DashMap::remove`: the names under `key` come out of the map, if there are any.
#[verifier::external_body]
fn take_names(m: &mut DashMap<u64, Vec<String>>, key: u64) -> (r: Option<Vec<String>>)
    ensures
        index_of(*final(m)) == index_of(*old(m)).remove(key),
        r == if index_of(*old(m)).contains_key(key) {
            Some(index_of(*old(m))[key])
        } else {
            None
        },
{
    m.remove(&key).map(|e| e.1)
}

/// `DashMap::insert`: the names under `key` become `names`.
#[verifier::external_body]
fn put_names(m: &mut DashMap<u64, Vec<String>>, key: u64, names: Vec<String>)
    ensures
        index_of(*final(m)) == index_of(*old(m)).insert(key, names),
{
    m.insert(key, names);
}

/// `DashMap::iter`, the keys alone: each key once, in no stated order.
#[verifier::external_body]
fn index_keys(m: &DashMap<u64, Vec<String>>) -> (r: Vec<u64>)
    ensures
        r@.no_duplicates(),
        forall|key: u64| r@.contains(key) <==> index_of(*m).contains_key(key),
{
    m.iter().map(|e| *e.key()).collect()
}

/// The names of each session's flows.
pub struct SessionFlowKeys {
    pub keys: DashMap<u64, Vec<String>>,
}

impl SessionFlowKeys {
    pub open spec fn view(self) -> Map<u64, Seq<Seq<char>>> {
        index_of(self.keys).map_values(|names: Vec<String>| texts(names@))
    }

    pub fn new() -> (r: SessionFlowKeys)
        ensures
            r@ == (Map::<u64, Seq<Seq<char>>>::empty()),
    {
        let r = SessionFlowKeys { keys: new_index() };
        assert(r@ =~= Map::<u64, Seq<Seq<char>>>::empty());
        r
    }

    fn take(&mut self, key: u64) -> (r: Option<Vec<String>>)
        ensures
            final(self)@ == old(self)@.remove(key),
            match r {
                Some(names) => old(self)@.contains_key(key) && texts(names@) == old(self)@[key],
                None => !old(self)@.contains_key(key) && final(self)@ == old(self)@,
            },
    {
        let ghost before = self@;
        let r = take_names(&mut self.keys, key);
        assert(self@ =~= before.remove(key));
        assert(r is None ==> before.remove(key) =~= before);
        r
    }

    fn put(&mut self, key: u64, names: Vec<String>)
        ensures
            final(self)@ == old(self)@.insert(key, texts(names@)),
    {
        let ghost before = self@;
        let ghost view = texts(names@);
        put_names(&mut self.keys, key, names);
        assert(self@ =~= before.insert(key, view));
    }

    /// Adds a name to those of a session.
    pub fn push(&mut self, key: u64, name: &str)
        ensures
            final(self)@ == indexed(old(self)@, key, name@),
    {
        let ghost before = self@;
        let mut names: Vec<String> = match self.take(key) {
            Some(names) => names,
            None => Vec::new(),
        };
        let ghost was = names@;
        let copy: String = name.to_owned();
        names.push(copy);
        assert(texts(names@) =~= texts(was).push(name@));
        assert(before.contains_key(key) || texts(was) =~= Seq::<Seq<char>>::empty());
        self.put(key, names);
        assert(self@ =~= indexed(before, key, name@));
    }
}

/// With a name added to those of a session.
pub open spec fn indexed(m: Map<u64, Seq<Seq<char>>>, key: u64, name: Seq<char>) -> Map<
    u64,
    Seq<Seq<char>>,
> {
    m.insert(
        key,
        (if m.contains_key(key) {
            m[key]
        } else {
            Seq::empty()
        }).push(name),
    )
}

/// How many names there are for a session.
pub open spec fn names_in(m: Map<u64, Seq<Seq<char>>>, key: u64) -> nat {
    if m.contains_key(key) {
        m[key].len()
    } else {
        0
    }
}

pub fn indexed_session_flow_count(session_flow_keys: &SessionFlowKeys, key: u64) -> (r: usize)
    ensures
        r == names_in(session_flow_keys@, key),
{
    match index_len(&session_flow_keys.keys, key) {
        Some(n) => n,
        None => 0,
    }
}

/// The names without those that are `name`.
pub open spec fn without(names: Seq<Seq<char>>, name: Seq<char>) -> Seq<Seq<char>>
    decreases names.len(),
{
    if names.len() == 0 {
        Seq::empty()
    } else if names.last() == name {
        without(names.drop_last(), name)
    } else {
        without(names.drop_last(), name).push(names.last())
    }
}

/// With a name taken out of those of a session; the last one takes the session out.
pub open spec fn unindexed(m: Map<u64, Seq<Seq<char>>>, key: u64, name: Seq<char>) -> Map<
    u64,
    Seq<Seq<char>>,
> {
    if !m.contains_key(key) {
        m
    } else if without(m[key], name).len() == 0 {
        m.remove(key)
    } else {
        m.insert(key, without(m[key], name))
    }
}

/// Takes a name out of those of a session.
pub fn remove_v1_session_flow_key(session_flow_keys: &mut SessionFlowKeys, key: u64, flow_key: &str)
    ensures
        final(session_flow_keys)@ == unindexed(old(session_flow_keys)@, key, flow_key@),
{
    let ghost before = session_flow_keys@;
    let names: Vec<String> = match session_flow_keys.take(key) {
        Some(names) => names,
        None => {
            return;
        },
    };
    let unwanted = chars_of(flow_key);
    let mut kept: Vec<String> = Vec::new();
    let mut i: usize = 0;
    let ghost all = texts(names@);
    assert(texts(kept@) =~= without(all.take(0), flow_key@));
    while i < names.len()
        invariant
            i <= names@.len(),
            all == texts(names@),
            unwanted@ == flow_key@,
            texts(kept@) == without(all.take(i as int), flow_key@),
        decreases names.len() - i,
    {
        assert(all.take(i + 1).drop_last() =~= all.take(i as int));
        let chars = chars_of(names[i].as_str());
        let ghost was = kept@;
        if !same(&chars, &unwanted) {
            let copy: String = names[i].clone();
            kept.push(copy);
            assert(texts(kept@) =~= texts(was).push(all[i as int]));
        }
        i = i + 1;
    }
    assert(all.take(i as int) =~= all);
    if kept.len() > 0 {
        session_flow_keys.put(key, kept);
        assert(session_flow_keys@ =~= unindexed(before, key, flow_key@));
    } else {
        assert(session_flow_keys@ =~= unindexed(before, key, flow_key@));
    }
}

/// Whether there is room for another flow, in all and of this session.
pub open spec fn room_for_flow(
    flows: Map<Seq<char>, FlowRecord>,
    index: Map<u64, Seq<Seq<char>>>,
    key: u64,
) -> bool {
    flows.dom().len() < MAX_FLOWS_TOTAL && names_in(index, key) < MAX_FLOWS_PER_SESSION
}

/// All flows, and the names of each session's.
pub struct V1Flows {
    pub flows: DashMap<String, FlowRecord>,
    pub session_flow_keys: SessionFlowKeys,
}

/// The content of [`V1Flows`].
pub ghost struct FlowsView {
    pub flows: Map<Seq<char>, FlowRecord>,
    pub index: Map<u64, Seq<Seq<char>>>,
}

/// Whether there is room for another flow of the session; a refusal is counted.
pub fn v1_flow_capacity_available(v1: &V1Flows, stats: &mut Stats, key: u64) -> (r: bool)
    ensures
        r == room_for_flow(v1@.flows, v1@.index, key),
        *final(stats) == if r {
            *old(stats)
        } else {
            old(stats).with_drop_in(DropReason::Capacity)
        },
{
    if count_flows(&v1.flows) >= MAX_FLOWS_TOTAL {
        stats.drop_in(DropReason::Capacity);
        return false;
    }
    if indexed_session_flow_count(&v1.session_flow_keys, key) >= MAX_FLOWS_PER_SESSION {
        stats.drop_in(DropReason::Capacity);
        return false;
    }
    true
}

/// The name of the flow of a session to a game server.
pub open spec fn flow_name(key: u64, info: OriginalPacketInfo) -> Seq<char> {
    hex(key as nat, 16) + ":"@ + dotted_text(info.dst_ip) + ":"@ + decimal(info.dst_port as nat)
}

pub fn flow_key(key: u64, info: OriginalPacketInfo) -> (r: String)
    ensures
        r@ == flow_name(key, info),
{
    let mut s = String::new();
    push_hex(&mut s, key, 16);
    s.append(":");
    push_dotted(&mut s, info.dst_ip);
    s.append(":");
    push_decimal(&mut s, info.dst_port as u64);
    assert(s@ =~= flow_name(key, info));
    s
}

/// What became of the flow of a packet.
#[derive(Clone, Copy, PartialEq, Eq, Structural, Debug)]
pub enum FlowStep {
    /// It was there and is in use.
    Existing,
    /// It is new: its socket has to be opened.
    Opened,
    /// It may not be opened.
    Refused,
}

impl FlowsView {
    /// With a flow in use.
    pub open spec fn used(self, name: Seq<char>, client_addr: SocketAddr, info: OriginalPacketInfo, now: u64) -> FlowsView {
        FlowsView {
            flows: self.flows.insert(
                name,
                FlowRecord {
                    client_addr,
                    last_activity: now,
                    original_info: info,
                    marked_for_removal: None,
                },
            ),
            ..self
        }
    }

    /// Without a flow.
    pub open spec fn closed(self, key: u64, name: Seq<char>) -> FlowsView {
        FlowsView { flows: self.flows.remove(name), index: unindexed(self.index, key, name) }
    }

    /// With activity of a flow from its game server.
    pub open spec fn with_activity(self, name: Seq<char>, f: FlowRecord, now: u64) -> FlowsView {
        FlowsView {
            flows: self.flows.insert(
                name,
                FlowRecord { last_activity: now, marked_for_removal: None, ..f },
            ),
            ..self
        }
    }

    /// With activity of a session's flows from the client's endpoint.
    pub open spec fn kept_alive(self, key: u64, client_addr: SocketAddr, now: u64) -> FlowsView {
        FlowsView {
            flows: if self.index.contains_key(key) {
                refreshed(self.flows, self.index[key], client_addr, now)
            } else {
                self.flows
            },
            ..self
        }
    }

    /// With all flows aged, and the index without the names of what is gone.
    pub open spec fn cleaned_up(self, sessions: Map<u64, SessionView>, now: u64) -> FlowsView {
        let flows = aged_flows(self.flows, now);
        FlowsView { flows, index: pruned_index(self.index, flows, sessions) }
    }

    /// Every name in the index is that of a flow.
    pub open spec fn consistent(self) -> bool {
        forall|key: u64, i: int|
            #![trigger self.index[key][i]]
            self.index.contains_key(key) && 0 <= i < self.index[key].len() ==> self.flows.contains_key(
                self.index[key][i],
            )
    }
}

/// A packet of a session was taken up: its flow is in use from the client's endpoint, and
/// was opened if it was new and there was room for it.
pub open spec fn packet_taken_up(
    v: FlowsView,
    l: LimiterView,
    stats: Stats,
    key: u64,
    client_addr: SocketAddr,
    info: OriginalPacketInfo,
    now: u64,
    r: FlowStep,
    v_after: FlowsView,
    l_after: LimiterView,
    stats_after: Stats,
) -> bool {
    let name = flow_name(key, info);
    if v.flows.contains_key(name) {
        &&& r == FlowStep::Existing
        &&& v_after == v.used(name, client_addr, info, now)
        &&& l_after == l
        &&& stats_after == stats
    } else if !room_for_flow(v.flows, v.index, key) {
        &&& r == FlowStep::Refused
        &&& v_after == v
        &&& l_after == l
        &&& stats_after == stats.with_drop_in(DropReason::Capacity)
    } else if !l.has_room(client_addr.ip, SourceLimitKind::NewFlow, now) {
        &&& r == FlowStep::Refused
        &&& v_after == v
        &&& l_after == l.after(client_addr.ip, SourceLimitKind::NewFlow, now)
        &&& stats_after == stats.throttled()
    } else {
        &&& r == FlowStep::Opened
        &&& v_after == (FlowsView {
            index: indexed(v.index, key, name),
            ..v.used(name, client_addr, info, now)
        })
        &&& l_after == l.after(client_addr.ip, SourceLimitKind::NewFlow, now)
        &&& stats_after == stats
}
}

/// Flows with some of them refreshed by a keepalive.
pub open spec fn refreshed(
    m: Map<Seq<char>, FlowRecord>,
    names: Seq<Seq<char>>,
    client_addr: SocketAddr,
    now: u64,
) -> Map<Seq<char>, FlowRecord> {
    Map::new(
        |name: Seq<char>| m.contains_key(name),
        |name: Seq<char>|
            if names.contains(name) {
                FlowRecord { client_addr, last_activity: now, ..m[name] }
            } else {
                m[name]
            },
    )
}

/// The names that are those of flows.
pub open spec fn live_names(names: Seq<Seq<char>>, flows: Map<Seq<char>, FlowRecord>) -> Seq<Seq<char>>
    decreases names.len(),
{
    if names.len() == 0 {
        Seq::empty()
    } else if flows.contains_key(names.last()) {
        live_names(names.drop_last(), flows).push(names.last())
    } else {
        live_names(names.drop_last(), flows)
    }
}

/// The index after flows were removed: the names of flows that are there, of sessions
/// that are there.
pub open spec fn pruned_index(
    index: Map<u64, Seq<Seq<char>>>,
    flows: Map<Seq<char>, FlowRecord>,
    sessions: Map<u64, SessionView>,
) -> Map<u64, Seq<Seq<char>>> {
    Map::new(
        |key: u64|
            index.contains_key(key) && sessions.contains_key(key) && live_names(index[key], flows).len()
                > 0,
        |key: u64| live_names(index[key], flows),
    )
}

proof fn lemma_live_names(names: Seq<Seq<char>>, flows: Map<Seq<char>, FlowRecord>)
    ensures
        forall|i: int|
            0 <= i < live_names(names, flows).len() ==> flows.contains_key(
                #[trigger] live_names(names, flows)[i],
            ),
    decreases names.len(),
{
    if names.len() > 0 {
        let d = names.drop_last();
        lemma_live_names(d, flows);
        let w = live_names(names, flows);
        assert forall|i: int| 0 <= i < w.len() implies flows.contains_key(#[trigger] w[i]) by {
            if !(flows.contains_key(names.last()) && i == w.len() - 1) {
                assert(live_names(d, flows)[i] == w[i]);
            }
        }
    }
}

proof fn lemma_without(names: Seq<Seq<char>>, name: Seq<char>)
    ensures
        forall|i: int|
            0 <= i < without(names, name).len() ==> #[trigger] without(names, name)[i] != name
                && names.contains(without(names, name)[i]),
    decreases names.len(),
{
    if names.len() > 0 {
        lemma_without(names.drop_last(), name);
        let w = without(names, name);
        assert forall|i: int| 0 <= i < w.len() implies #[trigger] w[i] != name && names.contains(w[i]) by {
            if names.last() != name && i == w.len() - 1 {
                assert(names[names.len() - 1] == w[i]);
            } else {
                let d = names.drop_last();
                assert(without(d, name)[i] == w[i]);
                let j = choose|j: int| 0 <= j < d.len() && d[j] == w[i];
                assert(names[j] == w[i]);
            }
        }
    }
}

/// Closing a flow leaves no name without a flow.
pub proof fn closing_keeps_the_index_consistent(v: FlowsView, key: u64, name: Seq<char>)
    requires
        v.consistent(),
        forall|other: u64, i: int|
            #![trigger v.index[other][i]]
            other != key && v.index.contains_key(other) && 0 <= i < v.index[other].len()
                ==> v.index[other][i] != name,
    ensures
        v.closed(key, name).consistent(),
{
    if v.index.contains_key(key) {
        lemma_without(v.index[key], name);
    }
    let after = v.closed(key, name);
    assert forall|k: u64, i: int|
        #![trigger after.index[k][i]]
        after.index.contains_key(k) && 0 <= i < after.index[k].len() implies after.flows.contains_key(
        after.index[k][i],
    ) by {
        if k == key {
            let w = without(v.index[key], name);
            assert(after.index[k][i] == w[i]);
            let j = choose|j: int| 0 <= j < v.index[key].len() && v.index[key][j] == w[i];
            assert(v.flows.contains_key(v.index[key][j]));
        } else {
            assert(after.index[k][i] == v.index[k][i]);
            assert(v.flows.contains_key(v.index[k][i]));
        }
    }
}

/// After a cleanup every name in the index is that of a flow, whatever was before.
pub proof fn cleanup_leaves_a_consistent_index(
    v: FlowsView,
    now: u64,
    sessions: Map<u64, SessionView>,
)
    ensures
        ({
            let flows = aged_flows(v.flows, now);
            FlowsView { flows, index: pruned_index(v.index, flows, sessions) }.consistent()
        }),
{
    let flows = aged_flows(v.flows, now);
    let after = FlowsView { flows, index: pruned_index(v.index, flows, sessions) };
    assert forall|k: u64, i: int|
        #![trigger after.index[k][i]]
        after.index.contains_key(k) && 0 <= i < after.index[k].len() implies after.flows.contains_key(
        after.index[k][i],
    ) by {
        lemma_live_names(v.index[k], flows);
    }
}

impl V1Flows {
    pub open spec fn view(self) -> FlowsView {
        FlowsView { flows: flows_of(self.flows), index: self.session_flow_keys@ }
    }

    pub fn new() -> (r: V1Flows)
        ensures
            r@ == (FlowsView { flows: Map::empty(), index: Map::empty() }),
    {
        V1Flows { flows: new_flows(), session_flow_keys: SessionFlowKeys::new() }
    }

    pub fn len(&self) -> (r: usize)
        ensures
            r == self@.flows.dom().len(),
    {
        count_flows(&self.flows)
    }

    pub fn get(&self, name: &str) -> (r: Option<FlowRecord>)
        ensures
            r == if self@.flows.contains_key(name@) {
                Some(self@.flows[name@])
            } else {
                None
            },
    {
        get_flow(&self.flows, name)
    }

    /// Takes up a packet of a session: its flow is in use from the client's endpoint,
    /// and is opened if it is new and there is room for it.
    pub fn use_flow(
        &mut self,
        limiter: &mut SourceRateLimiter,
        stats: &mut Stats,
        key: u64,
        client_addr: SocketAddr,
        info: OriginalPacketInfo,
        now: u64,
    ) -> (r: FlowStep)
        ensures
            packet_taken_up(
                old(self)@,
                old(limiter)@,
                *old(stats),
                key,
                client_addr,
                info,
                now,
                r,
                final(self)@,
                final(limiter)@,
                *final(stats),
            ),
    {
        let name: String = flow_key(key, info);
        let record = FlowRecord {
            client_addr,
            last_activity: now,
            original_info: info,
            marked_for_removal: None,
        };
        if get_flow(&self.flows, name.as_str()).is_some() {
            insert_flow(&mut self.flows, name.as_str(), record);
            return FlowStep::Existing;
        }
        if !v1_flow_capacity_available(self, stats, key) {
            return FlowStep::Refused;
        }
        if !allow_source_event(limiter, stats, client_addr, SourceLimitKind::NewFlow, now) {
            return FlowStep::Refused;
        }
        insert_flow(&mut self.flows, name.as_str(), record);
        self.session_flow_keys.push(key, name.as_str());
        FlowStep::Opened
    }

    /// Notes that a flow has activity from its game server.
    pub fn mark_active(&mut self, name: &str, f: FlowRecord, now: u64)
        ensures
            final(self)@ == old(self)@.with_activity(name@, f, now),
    {
        insert_flow(
            &mut self.flows,
            name,
            FlowRecord { last_activity: now, marked_for_removal: None, ..f },
        );
    }

    /// Forgets a flow.
    pub fn close(&mut self, key: u64, name: &str)
        ensures
            final(self)@ == old(self)@.closed(key, name@),
    {
        remove_flow(&mut self.flows, name);
        remove_v1_session_flow_key(&mut self.session_flow_keys, key, name);
    }

    /// Takes up a keepalive: the session's flows have activity, from this endpoint.
    pub fn refresh(&mut self, key: u64, client_addr: SocketAddr, now: u64)
        ensures
            final(self)@ == old(self)@.kept_alive(key, client_addr, now),
    {
        let ghost start = self@;
        if let Some(names) = self.session_flow_keys.take(key) {
            let ghost all = texts(names@);
            let mut i: usize = 0;
            assert(self@.flows =~= refreshed(start.flows, all.take(0), client_addr, now));
            while i < names.len()
                invariant
                    i <= names@.len(),
                    all == texts(names@),
                    self@.index == start.index.remove(key),
                    self@.flows == refreshed(start.flows, all.take(i as int), client_addr, now),
                decreases names.len() - i,
            {
                let name: &str = names[i].as_str();
                let ghost done = all.take(i as int);
                let ghost next = all.take(i + 1);
                let ghost was = self@.flows;
                assert(next =~= done.push(name@));
                if let Some(f) = get_flow(&self.flows, name) {
                    insert_flow(
                        &mut self.flows,
                        name,
                        FlowRecord { client_addr, last_activity: now, ..f },
                    );
                }
                proof {
                    assert forall|x: Seq<char>| next.contains(x) == (done.contains(x) || x == name@) by {
                        if next.contains(x) {
                            let j = choose|j: int| 0 <= j < next.len() && next[j] == x;
                            if j < i {
                                assert(done[j] == x);
                            }
                        }
                        if done.contains(x) {
                            let j = choose|j: int| 0 <= j < done.len() && done[j] == x;
                            assert(next[j] == x);
                        }
                        if x == name@ {
                            assert(next[i as int] == x);
                        }
                    }
                    assert(self@.flows =~= refreshed(start.flows, next, client_addr, now));
                }
                i = i + 1;
            }
            assert(all.take(i as int) =~= all);
            self.session_flow_keys.put(key, names);
            assert(self@.index =~= start.index);
        }
    }

    /// Ages all flows, and takes the names of those that are gone, and of sessions
    /// that are gone, out of the index.
    pub fn cleanup(&mut self, sessions: &SessionTable, now: u64)
        ensures
            final(self)@ == old(self)@.cleaned_up(sessions@, now),
    {
        let ghost start = self@;
        retain_flows(&mut self.flows, now);
        let ghost flows = self@.flows;
        let ghost want = pruned_index(start.index, flows, sessions@);
        let keys = index_keys(&self.session_flow_keys.keys);
        assert forall|key: u64| keys@.contains(key) <==> start.index.contains_key(key) by {
            assert(self.session_flow_keys@.contains_key(key) == index_of(
                self.session_flow_keys.keys,
            ).contains_key(key));
        }
        let mut i: usize = 0;
        assert forall|j: int| 0 <= j < keys@.len() implies start.index.contains_key(
            #[trigger] keys@[j],
        ) by {
            assert(keys@.contains(keys@[j]));
        }
        while i < keys.len()
            invariant
                i <= keys@.len(),
                keys@.no_duplicates(),
                flows == self@.flows,
                want == pruned_index(start.index, flows, sessions@),
                forall|j: int| 0 <= j < keys@.len() ==> start.index.contains_key(#[trigger] keys@[j]),
                forall|key: u64| keys@.contains(key) <==> start.index.contains_key(key),
                forall|j: int|
                    i <= j < keys@.len() ==> self@.index.contains_key(#[trigger] keys@[j])
                        && self@.index[keys@[j]] == start.index[keys@[j]],
                forall|j: int|
                    0 <= j < i ==> self@.index.contains_key(#[trigger] keys@[j]) == want.contains_key(
                        keys@[j],
                    ) && (want.contains_key(keys@[j]) ==> self@.index[keys@[j]] == want[keys@[j]]),
                forall|key: u64| #[trigger]
                    self@.index.contains_key(key) ==> start.index.contains_key(key),
            decreases keys.len() - i,
        {
            let key: u64 = keys[i];
            let ghost before = self@.index;
            if let Some(names) = self.session_flow_keys.take(key) {
                let kept = self.keep_live(&names);
                if kept.len() > 0 && sessions.contains(key) {
                    self.session_flow_keys.put(key, kept);
                    assert(self@.index =~= before.insert(key, want[key]));
                }
            }
            i = i + 1;
        }
        proof {
            assert forall|key: u64| self@.index.contains_key(key) == want.contains_key(key) by {
                if start.index.contains_key(key) {
                    assert(keys@.contains(key));
                    let j = choose|j: int| 0 <= j < keys@.len() && keys@[j] == key;
                    assert(self@.index.contains_key(keys@[j]) == want.contains_key(keys@[j]));
                }
            }
            assert forall|key: u64| #[trigger] self@.index.contains_key(key) implies self@.index[key]
                == want[key] by {
                assert(keys@.contains(key));
                let j = choose|j: int| 0 <= j < keys@.len() && keys@[j] == key;
                assert(self@.index.contains_key(keys@[j]));
            }
            assert(self@.index =~= want);
        }
    }

    /// The names that are those of flows.
    fn keep_live(&self, names: &Vec<String>) -> (r: Vec<String>)
        ensures
            texts(r@) == live_names(texts(names@), self@.flows),
    {
        let ghost all = texts(names@);
        let mut kept: Vec<String> = Vec::new();
        let mut i: usize = 0;
        assert(texts(kept@) =~= live_names(all.take(0), self@.flows));
        while i < names.len()
            invariant
                i <= names@.len(),
                all == texts(names@),
                texts(kept@) == live_names(all.take(i as int), self@.flows),
            decreases names.len() - i,
        {
            assert(all.take(i + 1).drop_last() =~= all.take(i as int));
            let ghost was = kept@;
            if get_flow(&self.flows, names[i].as_str()).is_some() {
                let copy: String = names[i].clone();
                kept.push(copy);
                assert(texts(kept@) =~= texts(was).push(all[i as int]));
            }
            i = i + 1;
        }
        assert(all.take(i as int) =~= all);
        kept
    }
}

/// Whatever became of a packet: a flow that is in use now is the packet's own. Its answers
/// go to the endpoint the packet came from, as answers to this packet, and it has activity
/// now. No other flow changes, nor do the names of other sessions.
pub proof fn flows_answer_the_latest_packet(
    v: FlowsView,
    l: LimiterView,
    stats: Stats,
    key: u64,
    client_addr: SocketAddr,
    info: OriginalPacketInfo,
    now: u64,
    r: FlowStep,
    v_after: FlowsView,
    l_after: LimiterView,
    stats_after: Stats,
)
    requires
        packet_taken_up(
            v,
            l,
            stats,
            key,
            client_addr,
            info,
            now,
            r,
            v_after,
            l_after,
            stats_after,
        ),
    ensures
        ({
            let name = flow_name(key, info);
            &&& r !is Refused ==> {
                let f = v_after.flows[name];
                &&& v_after.flows.dom() == v.flows.dom().insert(name)
                &&& f.client_addr == client_addr
                &&& f.original_info == info
                &&& f.last_activity == now
                &&& f.marked_for_removal is None
                &&& stats_after == stats
            }
            &&& r is Opened ==> !v.flows.contains_key(name) && v_after.index.contains_key(key)
                && v_after.index[key].len() == names_in(v.index, key) + 1 && v_after.index[key].last() == name
            &&& r is Existing ==> v.flows.contains_key(name) && v_after.index == v.index
            &&& r is Refused ==> !v.flows.contains_key(name) && v_after == v && stats_after.dropped_in
                == next(stats.dropped_in)
            &&& forall|other: Seq<char>| #![trigger v_after.flows[other]]
                other != name && v.flows.contains_key(other) ==> v_after.flows.contains_key(other)
                    && v_after.flows[other] == v.flows[other]
            &&& forall|other: u64| #![trigger v_after.index[other]]
                other != key && v.index.contains_key(other) ==> v_after.index.contains_key(other)
                    && v_after.index[other] == v.index[other]
        }),
{
    let name = flow_name(key, info);
    if r !is Refused {
        assert(v_after.flows.dom() =~= v.flows.dom().insert(name));
    }
}

/// A new flow is opened if and only if there are fewer than 262144 flows in all and fewer
/// than 1024 of the session, and the source has room for another flow in this second; a
/// flow that is there is used again in any case.
pub proof fn flows_are_opened_within_the_limits(
    v: FlowsView,
    l: LimiterView,
    stats: Stats,
    key: u64,
    client_addr: SocketAddr,
    info: OriginalPacketInfo,
    now: u64,
    r: FlowStep,
    v_after: FlowsView,
    l_after: LimiterView,
    stats_after: Stats,
)
    requires
        packet_taken_up(
            v,
            l,
            stats,
            key,
            client_addr,
            info,
            now,
            r,
            v_after,
            l_after,
            stats_after,
        ),
    ensures
        ({
            let mine = if v.index.contains_key(key) {
                v.index[key].len()
            } else {
                0
            };
            let limited = v.flows.dom().len() >= 262_144 || mine >= 1024;
            let room = l.has_room(client_addr.ip, SourceLimitKind::NewFlow, now);
            &&& r is Existing <==> v.flows.contains_key(flow_name(key, info))
            &&& r is Opened <==> !v.flows.contains_key(flow_name(key, info)) && !limited && room
            &&& r is Existing || limited ==> l_after == l
            &&& r !is Existing && !limited ==> l_after == l.after(
                client_addr.ip,
                SourceLimitKind::NewFlow,
                now,
            )
            &&& r is Refused && limited ==> stats_after.drop_reasons == stats.drop_reasons.plus(
                DropReason::Capacity,
            ) && stats_after.throttled_users == stats.throttled_users
            &&& r is Refused && !limited ==> stats_after.drop_reasons == stats.drop_reasons.plus(
                DropReason::RateLimit,
            ) && stats_after.throttled_users == next(stats.throttled_users)
        }),
{
}

/// A flow that was used in the last three minutes stays as it is. After that it is marked
/// and stays for half a minute more: any activity within ten seconds takes the mark off,
/// and without it the flow is gone at the end of that half minute. Nothing else of a flow
/// changes with its age.
pub proof fn idle_flows_have_half_a_minute_of_grace(f: FlowRecord, now: u64)
    ensures
        f.marked_for_removal is None && now < f.last_activity + 180_000_000_000 ==> aged(f, now) == Some(f),
        f.marked_for_removal is None && now >= f.last_activity + 180_000_000_000 ==> aged(f, now) is Some
            && aged(f, now)->Some_0.marked_for_removal == Some(now),
        f.marked_for_removal is Some ==> (aged(f, now) is None <==> now >= f.marked_for_removal->Some_0
            + 30_000_000_000),
        aged(f, now) is Some && now < f.last_activity + 10_000_000_000
            ==> aged(f, now)->Some_0.marked_for_removal is None,
        aged(f, now) is Some && f.marked_for_removal is Some && now >= f.last_activity + 10_000_000_000
            ==> aged(f, now) == Some(f),
        aged(f, now) is Some ==> aged(f, now)->Some_0.client_addr == f.client_addr
            && aged(f, now)->Some_0.original_info == f.original_info && aged(f, now)->Some_0.last_activity
            == f.last_activity,
{
}

/// A cleanup ages each flow by itself. A session that is gone has no names any more; one
/// that is there keeps those of its names that are flows, in their order, and is taken out
/// with the last of them.
pub proof fn cleanups_keep_what_is_live(
    v: FlowsView,
    sessions: Map<u64, SessionView>,
    now: u64,
    name: Seq<char>,
    key: u64,
)
    ensures
        ({
            let after = v.cleaned_up(sessions, now);
            &&& after.flows.contains_key(name) <==> v.flows.contains_key(name) && aged(
                v.flows[name],
                now,
            ) is Some
            &&& after.flows.contains_key(name) ==> Some(after.flows[name]) == aged(v.flows[name], now)
            &&& after.index.contains_key(key) ==> v.index.contains_key(key) && sessions.contains_key(key)
                && after.index[key].len() > 0 && after.index[key] == v.index[key].filter(
                |n: Seq<char>| after.flows.contains_key(n),
            )
            &&& v.index.contains_key(key) && sessions.contains_key(key) && v.index[key].contains(name)
                && after.flows.contains_key(name) ==> after.index.contains_key(key)
                && after.index[key].contains(name)
        }),
{
    let after = v.cleaned_up(sessions, now);
    lemma_live_names_filter(v.index[key], after.flows);
    let live = live_names(v.index[key], after.flows);
    if v.index[key].contains(name) && after.flows.contains_key(name) {
        lemma_live_names_keep(v.index[key], after.flows, name);
    }
}

proof fn lemma_live_names_filter(names: Seq<Seq<char>>, flows: Map<Seq<char>, FlowRecord>)
    ensures
        live_names(names, flows) == names.filter(|n: Seq<char>| flows.contains_key(n)),
    decreases names.len(),
{
    reveal(Seq::filter);
    if names.len() > 0 {
        lemma_live_names_filter(names.drop_last(), flows);
    }
}

proof fn lemma_live_names_keep(
    names: Seq<Seq<char>>,
    flows: Map<Seq<char>, FlowRecord>,
    name: Seq<char>,
)
    requires
        names.contains(name),
        flows.contains_key(name),
    ensures
        live_names(names, flows).contains(name),
    decreases names.len(),
{
    let d = names.drop_last();
    let live = live_names(names, flows);
    if names.last() == name {
        assert(live.last() == name);
    } else {
        let i = choose|i: int| 0 <= i < names.len() && names[i] == name;
        assert(d[i] == name);
        lemma_live_names_keep(d, flows, name);
        let j = choose|j: int| 0 <= j < live_names(d, flows).len() && live_names(d, flows)[j] == name;
        assert(live[j] == name);
    }
}

proof fn lemma_without_filter(names: Seq<Seq<char>>, name: Seq<char>)
    ensures
        without(names, name) == names.filter(|n: Seq<char>| n != name),
    decreases names.len(),
{
    reveal(Seq::filter);
    if names.len() > 0 {
        lemma_without_filter(names.drop_last(), name);
    }
}

/// Closing a flow forgets that flow and its name, and no other: the session's other names
/// stay in their order, and the session goes out of the index with the last of them.
pub proof fn closing_forgets_one_flow(v: FlowsView, key: u64, name: Seq<char>, other: Seq<char>, session: u64)
    ensures
        ({
            let after = v.closed(key, name);
            &&& !after.flows.contains_key(name)
            &&& other != name ==> (after.flows.contains_key(other) <==> v.flows.contains_key(other))
            &&& other != name && v.flows.contains_key(other) ==> after.flows[other] == v.flows[other]
            &&& session != key ==> (after.index.contains_key(session) <==> v.index.contains_key(session))
            &&& session != key && v.index.contains_key(session) ==> after.index[session]
                == v.index[session]
            &&& after.index.contains_key(key) ==> v.index.contains_key(key) && after.index[key].len() > 0
                && after.index[key] == v.index[key].filter(|n: Seq<char>| n != name)
            &&& v.index.contains_key(key) && !after.index.contains_key(key) ==> v.index[key].filter(
                |n: Seq<char>| n != name,
            ).len() == 0
        }),
{
    lemma_without_filter(v.index[key], name);
}

/// Opening a flow and closing it again leaves the flows and the session's names as they
/// were.
pub proof fn closing_undoes_opening(
    v: FlowsView,
    key: u64,
    client_addr: SocketAddr,
    info: OriginalPacketInfo,
    now: u64,
)
    requires
        !v.flows.contains_key(flow_name(key, info)),
        v.index.contains_key(key) ==> v.index[key].len() > 0 && !v.index[key].contains(
            flow_name(key, info),
        ),
    ensures
        ({
            let name = flow_name(key, info);
            let opened = FlowsView {
                index: indexed(v.index, key, name),
                ..v.used(name, client_addr, info, now)
            };
            opened.closed(key, name) == v
        }),
{
    let name = flow_name(key, info);
    let opened = FlowsView { index: indexed(v.index, key, name), ..v.used(name, client_addr, info, now) };
    let after = opened.closed(key, name);
    let names = if v.index.contains_key(key) {
        v.index[key]
    } else {
        Seq::empty()
    };
    lemma_without_nothing(names, name);
    assert(names.push(name).drop_last() =~= names);
    assert(after.flows =~= v.flows);
    assert(after.index =~= v.index);
}

proof fn lemma_without_nothing(names: Seq<Seq<char>>, name: Seq<char>)
    requires
        !names.contains(name),
    ensures
        without(names, name) == names,
    decreases names.len(),
{
    if names.len() > 0 {
        let d = names.drop_last();
        assert(!d.contains(name)) by {
            if d.contains(name) {
                let i = choose|i: int| 0 <= i < d.len() && d[i] == name;
                assert(names[i] == name);
            }
        }
        lemma_without_nothing(d, name);
        assert(d.push(names.last()) =~= names);
    }
}

/// A keepalive is activity of each of the session's flows, from the endpoint it came from,
/// and takes no mark off; other flows, and what the flows answer, stay.
pub proof fn keepalives_reach_the_sessions_flows(
    v: FlowsView,
    key: u64,
    client_addr: SocketAddr,
    now: u64,
    name: Seq<char>,
)
    ensures
        ({
            let after = v.kept_alive(key, client_addr, now);
            let f = v.flows[name];
            let g = after.flows[name];
            let mine = v.index.contains_key(key) && v.index[key].contains(name);
            &&& after.index == v.index
            &&& after.flows.contains_key(name) <==> v.flows.contains_key(name)
            &&& v.flows.contains_key(name) && mine ==> g.client_addr == client_addr && g.last_activity
                == now && g.original_info == f.original_info && g.marked_for_removal
                == f.marked_for_removal
            &&& v.flows.contains_key(name) && !mine ==> g == f
        }),
{
}

/// What a game server sends is activity of its flow and takes the mark off; whom the flow
/// answers and how stays, and so do the other flows.
pub proof fn responses_are_activity(v: FlowsView, name: Seq<char>, f: FlowRecord, now: u64, other: Seq<char>)
    ensures
        ({
            let after = v.with_activity(name, f, now);
            let g = after.flows[name];
            &&& after.flows.contains_key(name)
            &&& g.last_activity == now && g.marked_for_removal is None && g.client_addr == f.client_addr
                && g.original_info == f.original_info
            &&& after.index == v.index
            &&& other != name && v.flows.contains_key(other) ==> after.flows.contains_key(other)
                && after.flows[other] == v.flows[other]
        }),
{
}

/// A flow's name tells its session, and its game server's address and port.
pub proof fn names_tell_flows_apart(
    x: u64,
    a: OriginalPacketInfo,
    y: u64,
    b: OriginalPacketInfo,
)
    requires
        flow_name(x, a) == flow_name(y, b),
    ensures
        x == y,
        a.dst_ip == b.dst_ip,
        a.dst_port == b.dst_port,
{
    lemma_name_pieces(x, a);
    lemma_name_pieces(y, b);
    let p = split(flow_name(x, a), ':');
    assert(p[0] == hex(x as nat, 16) && p[0] == hex(y as nat, 16));
    assert(p[1] == dotted_text(a.dst_ip) && p[1] == dotted_text(b.dst_ip));
    assert(p[2] == decimal(a.dst_port as nat) && p[2] == decimal(b.dst_port as nat));
    session_texts_tell_sessions_apart(x, y);
    dotted_texts_read_back(a.dst_ip);
    dotted_texts_read_back(b.dst_ip);
    decimals_read_back(a.dst_port as nat, 0);
    decimals_read_back(b.dst_port as nat, 0);
}

proof fn lemma_no_mark_in_decimal(n: nat)
    ensures
        !decimal(n).contains(':'),
        !decimal(n).contains('.'),
{
    decimals_read_back(n, 0);
    let d = decimal(n);
    if d.contains(':') {
        let i = choose|i: int| 0 <= i < d.len() && d[i] == ':';
        assert(is_digit(d[i]));
    }
    if d.contains('.') {
        let i = choose|i: int| 0 <= i < d.len() && d[i] == '.';
        assert(is_digit(d[i]));
    }
}

proof fn lemma_name_pieces(key: u64, info: OriginalPacketInfo)
    ensures
        split(flow_name(key, info), ':') == seq![
            hex(key as nat, 16),
            dotted_text(info.dst_ip),
            decimal(info.dst_port as nat),
        ],
{
    let h = hex(key as nat, 16);
    let t = dotted_text(info.dst_ip);
    let d = decimal(info.dst_port as nat);
    session_texts_tell_sessions_apart(key, key);
    assert(!h.contains(':')) by {
        reveal_with_fuel(hex_range, 17);
        hex_reads_back(key as nat, 16);
        if h.contains(':') {
            let i = choose|i: int| 0 <= i < h.len() && h[i] == ':';
            assert(48 <= hex(key as nat, 16)[i] as int <= 57 || 97 <= h[i] as int <= 102);
        }
    }
    dotted_texts_have_four_pieces(info.dst_ip, ':');
    lemma_no_mark_in_decimal(info.dst_port as nat);
    reveal_strlit(":");
    assert(":"@ =~= seq![':']);
    assert(flow_name(key, info) =~= h + seq![':'] + (t + seq![':'] + d));
    splitting_goes_from_piece_to_piece(d, ':', Seq::empty());
    splitting_goes_from_piece_to_piece(t, ':', d);
    splitting_goes_from_piece_to_piece(h, ':', t + seq![':'] + d);
    assert(split(flow_name(key, info), ':') =~= seq![h, t, d]);
}

} // verus!
