//! Account-wide budgets, shared by all sessions of an account and by both directions.
//!
//! A limit of zero means that there is none. The counters measure the packets and
//! bytes that were offered, those that a budget refused among them. Times are seconds
//! of a monotonic clock.

use crate::addr::{ipv4_at, read_ipv4, Ipv4Addr};
use crate::auth::SessionAuthState;
use crate::bytes::{be16, read_be16};
use crate::limits::{MAX_FLOWS_TOTAL, MAX_SESSIONS_TOTAL};
use crate::num::{larger, max_of, next, sat_add};
use crate::rewrite::{fragment_offset, header_len, IPPROTO_TCP, IPPROTO_UDP};
use crate::session::{SessionEntry, SessionTable, SessionView};
use crate::text::{
    chars_of, decimal, decimals_read_back, is_text, only_digits_are_numbers, opt_view, parse_decimal,
    read_decimal,
};
use dashmap::DashMap;
use vstd::prelude::*;

verus! {

/// How long a flow is tracked after its last packet.
pub const FLOW_IDLE_SECONDS: u64 = 120;

/// How long an account is tracked after its last packet.
pub const ACCOUNT_IDLE_SECONDS: u64 = 600;

/// How many past seconds an account's sample holds.
pub const SAMPLE_SECONDS: usize = 60;

/// The configured limits.
#[derive(Clone, Copy, PartialEq, Eq, Structural, Debug)]
pub struct Policy {
    pub enforce: bool,
    pub packets: u64,
    pub bytes: u64,
    pub new_flows: u64,
}

/// The limit that a setting gives; none, if it gives no number.
pub open spec fn limit_of(raw: Option<Seq<char>>) -> u64 {
    match raw {
        Some(s) => match parse_decimal(s, u64::MAX as nat) {
            Some(n) => n as u64,
            None => 0,
        },
        None => 0,
    }
}

fn parse_limit(raw: Option<&str>) -> (r: u64)
    ensures
        r == limit_of(opt_view(raw)),
{
    match raw {
        Some(text) => {
            let chars = chars_of(text);
            match read_decimal(&chars, u64::MAX) {
                Some(n) => n,
                None => 0,
            }
        },
        None => 0,
    }
}

/// The policy that the settings give: it is enforced only if that is asked for.
pub open spec fn policy_of(
    mode: Option<Seq<char>>,
    packets: Option<Seq<char>>,
    bytes: Option<Seq<char>>,
    new_flows: Option<Seq<char>>,
) -> Policy {
    Policy {
        enforce: mode == Some("enforce"@),
        packets: limit_of(packets),
        bytes: limit_of(bytes),
        new_flows: limit_of(new_flows),
    }
}

impl Policy {
    /// The policy that the settings give: it is enforced only if that is asked for.
    pub fn from_env(
        mode: Option<&str>,
        packets: Option<&str>,
        bytes: Option<&str>,
        new_flows: Option<&str>,
    ) -> (r: Policy)
        ensures
            r == policy_of(opt_view(mode), opt_view(packets), opt_view(bytes), opt_view(new_flows)),
    {
        let enforce: bool = match mode {
            Some(text) => {
                let chars = chars_of(text);
                is_text(&chars, "enforce")
            },
            None => false,
        };
        Policy {
            enforce,
            packets: parse_limit(packets),
            bytes: parse_limit(bytes),
            new_flows: parse_limit(new_flows),
        }
    }
}

impl Default for Policy {
    fn default() -> (r: Policy)
        ensures
            r == (Policy { enforce: false, packets: 0, bytes: 0, new_flows: 0 }),
    {
        Policy { enforce: false, packets: 0, bytes: 0, new_flows: 0 }
    }
}

/// A transport flow inside a session.
#[derive(Clone, Copy, PartialEq, Eq, Structural, Debug)]
pub struct Flow {
    pub sid: u64,
    pub proto: u8,
    pub src: Ipv4Addr,
    pub dst: Ipv4Addr,
    pub sport: u16,
    pub dport: u16,
}

/// The flow that a packet belongs to: known for a TCP or UDP packet that shows its
/// ports, which a later fragment does not.
pub open spec fn flow_of(sid: u64, p: Seq<u8>) -> Option<Flow> {
    let at = header_len(p);
    if p.len() >= 20 && p[0] / 16 == 4 && (p[9] == IPPROTO_TCP || p[9] == IPPROTO_UDP)
        && fragment_offset(p) == 0 && at >= 20 && p.len() >= at + 4 {
        Some(
            Flow {
                sid,
                proto: p[9],
                src: ipv4_at(p, 12),
                dst: ipv4_at(p, 16),
                sport: be16(p, at) as u16,
                dport: be16(p, at + 2) as u16,
            },
        )
    } else {
        None
    }
}

impl Flow {
    /// The flow of a packet of the session `sid`.
    pub fn parse(sid: u64, p: &[u8]) -> (r: Option<Flow>)
        ensures
            r == flow_of(sid, p@),
    {
        if p.len() < 20 || p[0] / 16 != 4 || (p[9] != IPPROTO_TCP && p[9] != IPPROTO_UDP) {
            return None;
        }
        if read_be16(p, 6) % 0x2000 != 0 {
            return None;
        }
        let offset: usize = (p[0] % 16) as usize * 4;
        if offset < 20 || p.len() < offset + 4 {
            return None;
        }
        Some(
            Flow {
                sid,
                proto: p[9],
                src: read_ipv4(p, 12),
                dst: read_ipv4(p, 16),
                sport: read_be16(p, offset),
                dport: read_be16(p, offset + 2),
            },
        )
    }
}

/// A tracked flow and when its last packet came.
#[derive(Clone, Copy, PartialEq, Eq, Structural, Debug)]
pub struct FlowSeen {
    pub flow: Flow,
    pub seen: u64,
}

/// The flows that an account has open, each of them once.
pub struct FlowTable {
    entries: Vec<FlowSeen>,
}

/// Whether no flow occurs twice.
spec fn distinct(s: Seq<FlowSeen>) -> bool {
    forall|i: int, j: int| 0 <= i < j < s.len() ==> s[i].flow != s[j].flow
}

/// The map from flows to times that a list of distinct entries stands for.
spec fn entry_map(s: Seq<FlowSeen>) -> Map<Flow, u64>
    decreases s.len(),
{
    if s.len() == 0 {
        Map::empty()
    } else {
        entry_map(s.drop_last()).insert(s.last().flow, s.last().seen)
    }
}

proof fn lemma_entry_map(s: Seq<FlowSeen>)
    requires
        distinct(s),
    ensures
        entry_map(s).dom().finite(),
        entry_map(s).dom().len() == s.len(),
        forall|i: int|
            0 <= i < s.len() ==> entry_map(s).contains_key(#[trigger] s[i].flow) && entry_map(
                s,
            )[s[i].flow] == s[i].seen,
        forall|f: Flow| #[trigger]
            entry_map(s).contains_key(f) ==> exists|i: int| 0 <= i < s.len() && s[i].flow == f,
    decreases s.len(),
{
    if s.len() > 0 {
        let t = s.drop_last();
        assert(distinct(t));
        lemma_entry_map(t);
        assert forall|f: Flow| #[trigger] entry_map(t).contains_key(f) implies f != s.last().flow by {
            let i = choose|i: int| 0 <= i < t.len() && t[i].flow == f;
            assert(s[i].flow == f);
        }
        assert forall|i: int| 0 <= i < s.len() implies entry_map(s).contains_key(
            #[trigger] s[i].flow,
        ) && entry_map(s)[s[i].flow] == s[i].seen by {
            if i < t.len() {
                assert(t[i] == s[i]);
            }
        }
        assert forall|f: Flow| #[trigger] entry_map(s).contains_key(f) implies exists|i: int|
            0 <= i < s.len() && s[i].flow == f by {
            if f == s.last().flow {
                assert(s[s.len() - 1].flow == f);
            } else {
                let i = choose|i: int| 0 <= i < t.len() && t[i].flow == f;
                assert(s[i].flow == f);
            }
        }
    }
}

/// A list of distinct entries is told by its map, whatever its order.
proof fn lemma_entry_map_unique(s: Seq<FlowSeen>, m: Map<Flow, u64>)
    requires
        distinct(s),
        forall|i: int|
            0 <= i < s.len() ==> m.contains_key(#[trigger] s[i].flow) && m[s[i].flow] == s[i].seen,
        forall|f: Flow| #[trigger]
            m.contains_key(f) ==> exists|i: int| 0 <= i < s.len() && s[i].flow == f,
    ensures
        entry_map(s) == m,
{
    lemma_entry_map(s);
    assert forall|f: Flow| entry_map(s).contains_key(f) == m.contains_key(f) by {
        if entry_map(s).contains_key(f) {
            let i = choose|i: int| 0 <= i < s.len() && s[i].flow == f;
            assert(m.contains_key(s[i].flow));
        }
        if m.contains_key(f) {
            let i = choose|i: int| 0 <= i < s.len() && s[i].flow == f;
            assert(entry_map(s).contains_key(s[i].flow));
        }
    }
    assert forall|f: Flow| #[trigger] entry_map(s).contains_key(f) implies entry_map(s)[f] == m[f] by {
        let i = choose|i: int| 0 <= i < s.len() && s[i].flow == f;
        assert(m[s[i].flow] == s[i].seen);
    }
    assert(entry_map(s) =~= m);
}

/// The flows of `m` that were seen less than [`FLOW_IDLE_SECONDS`] before `now`.
pub open spec fn recent(m: Map<Flow, u64>, now: u64) -> Map<Flow, u64> {
    m.restrict(Set::new(|f: Flow| m.contains_key(f) && now - m[f] < FLOW_IDLE_SECONDS))
}

impl FlowTable {
    pub closed spec fn wf(self) -> bool {
        distinct(self.entries@)
    }

    /// When each flow was last seen.
    pub closed spec fn view(self) -> Map<Flow, u64> {
        entry_map(self.entries@)
    }

    pub fn new() -> (r: FlowTable)
        ensures
            r.wf(),
            r@ == Map::<Flow, u64>::empty(),
    {
        FlowTable { entries: Vec::new() }
    }

    pub fn len(&self) -> (r: usize)
        requires
            self.wf(),
        ensures
            self@.dom().finite(),
            r == self@.dom().len(),
    {
        proof {
            lemma_entry_map(self.entries@);
        }
        self.entries.len()
    }

    fn position(&self, flow: Flow) -> (r: Option<usize>)
        requires
            self.wf(),
        ensures
            match r {
                Some(i) => i < self.entries@.len() && self.entries@[i as int].flow == flow
                    && self@.contains_key(flow) && self@[flow] == self.entries@[i as int].seen,
                None => !self@.contains_key(flow) && forall|i: int|
                    0 <= i < self.entries@.len() ==> self.entries@[i].flow != flow,
            },
    {
        proof {
            lemma_entry_map(self.entries@);
        }
        let mut i: usize = 0;
        while i < self.entries.len()
            invariant
                i <= self.entries@.len(),
                self.wf(),
                forall|j: int| 0 <= j < i ==> self.entries@[j].flow != flow,
            decreases self.entries.len() - i,
        {
            if self.entries[i].flow == flow {
                proof {
                    lemma_entry_map(self.entries@);
                }
                return Some(i);
            }
            i = i + 1;
        }
        None
    }

    pub fn get(&self, flow: Flow) -> (r: Option<u64>)
        requires
            self.wf(),
        ensures
            r == if self@.contains_key(flow) {
                Some(self@[flow])
            } else {
                None
            },
    {
        match self.position(flow) {
            Some(i) => Some(self.entries[i].seen),
            None => None,
        }
    }

    pub fn remove(&mut self, flow: Flow)
        requires
            old(self).wf(),
        ensures
            final(self).wf(),
            final(self)@ == old(self)@.remove(flow),
    {
        let ghost before = self.entries@;
        match self.position(flow) {
            Some(i) => {
                let _ = self.entries.swap_remove(i);
                proof {
                    let s = self.entries@;
                    lemma_entry_map(before);
                    assert forall|j: int| 0 <= j < s.len() implies #[trigger] s[j] == if j == i {
                        before[before.len() - 1]
                    } else {
                        before[j]
                    } by {}
                    assert(distinct(s));
                    let m = entry_map(before).remove(flow);
                    assert forall|f: Flow| #[trigger] m.contains_key(f) implies exists|j: int|
                        0 <= j < s.len() && s[j].flow == f by {
                        let j = choose|j: int| 0 <= j < before.len() && before[j].flow == f;
                        if j == before.len() - 1 {
                            assert(s[i as int].flow == f);
                        } else {
                            assert(s[j].flow == f);
                        }
                    }
                    lemma_entry_map_unique(s, m);
                }
            },
            None => {
                assert(self@ =~= self@.remove(flow));
            },
        }
    }

    pub fn insert(&mut self, flow: Flow, seen: u64)
        requires
            old(self).wf(),
        ensures
            final(self).wf(),
            final(self)@ == old(self)@.insert(flow, seen),
    {
        let ghost before = self.entries@;
        match self.position(flow) {
            Some(i) => {
                self.entries[i] = FlowSeen { flow, seen };
                proof {
                    let s = self.entries@;
                    lemma_entry_map(before);
                    let m = entry_map(before).insert(flow, seen);
                    assert forall|f: Flow| #[trigger] m.contains_key(f) implies exists|j: int|
                        0 <= j < s.len() && s[j].flow == f by {
                        if f == flow {
                            assert(s[i as int].flow == f);
                        } else {
                            let j = choose|j: int| 0 <= j < before.len() && before[j].flow == f;
                            assert(s[j].flow == f);
                        }
                    }
                    lemma_entry_map_unique(s, m);
                }
            },
            None => {
                self.entries.push(FlowSeen { flow, seen });
                proof {
                    assert(self.entries@.drop_last() =~= before);
                }
            },
        }
    }

    /// Drops the flows that are idle at `now`.
    pub fn retain_recent(&mut self, now: u64)
        requires
            old(self).wf(),
        ensures
            final(self).wf(),
            final(self)@ == recent(old(self)@, now),
    {
        let ghost before = self.entries@;
        let mut kept: Vec<FlowSeen> = Vec::new();
        let mut i: usize = 0;
        assert(recent(entry_map(before.take(0)), now) =~= entry_map(kept@));
        while i < self.entries.len()
            invariant
                self.entries@ == before,
                distinct(before),
                i <= before.len(),
                distinct(kept@),
                entry_map(kept@) == recent(entry_map(before.take(i as int)), now),
            decreases before.len() - i,
        {
            let e: FlowSeen = self.entries[i];
            let ghost m = entry_map(before.take(i as int));
            let ghost k0 = kept@;
            proof {
                assert(before.take(i + 1).drop_last() =~= before.take(i as int));
                lemma_entry_map(before.take(i as int));
                lemma_entry_map(k0);
                assert(!m.contains_key(e.flow));
            }
            if now < e.seen || now - e.seen < FLOW_IDLE_SECONDS {
                kept.push(e);
                proof {
                    assert(kept@.drop_last() =~= k0);
                    assert forall|j: int| 0 <= j < k0.len() implies (#[trigger] kept@[j]).flow
                        != e.flow by {
                        assert(entry_map(k0).contains_key(k0[j].flow));
                    }
                    assert(entry_map(kept@) =~= recent(entry_map(before.take(i + 1)), now));
                }
            } else {
                assert(entry_map(kept@) =~= recent(entry_map(before.take(i + 1)), now));
            }
            i = i + 1;
        }
        assert(before.take(i as int) =~= before);
        self.entries = kept;
    }
}

/// Packets and bytes of a span of time, by direction.
#[derive(Clone, Copy, PartialEq, Eq, Structural, Debug)]
pub struct Counts {
    pub packets_in: u64,
    pub bytes_in: u64,
    pub packets_out: u64,
    pub bytes_out: u64,
}

impl Counts {
    pub open spec fn zero() -> Counts {
        Counts { packets_in: 0, bytes_in: 0, packets_out: 0, bytes_out: 0 }
    }

    /// With one packet of `bytes` bytes added; a counter that is full stays full.
    pub open spec fn with(self, out: bool, bytes: u64) -> Counts {
        if out {
            Counts { packets_out: sat_add(self.packets_out, 1), bytes_out: sat_add(self.bytes_out, bytes), ..self }
        } else {
            Counts { packets_in: sat_add(self.packets_in, 1), bytes_in: sat_add(self.bytes_in, bytes), ..self }
        }
    }

    /// The larger of each pair of counters, for the counters of one direction.
    pub open spec fn peak(self, now: Counts, out: bool) -> Counts {
        if out {
            Counts {
                packets_out: max_of(self.packets_out, now.packets_out),
                bytes_out: max_of(self.bytes_out, now.bytes_out),
                ..self
            }
        } else {
            Counts {
                packets_in: max_of(self.packets_in, now.packets_in),
                bytes_in: max_of(self.bytes_in, now.bytes_in),
                ..self
            }
        }
    }

    pub fn none() -> (r: Counts)
        ensures
            r == Counts::zero(),
    {
        Counts { packets_in: 0, bytes_in: 0, packets_out: 0, bytes_out: 0 }
    }

    fn add_packet(self, out: bool, bytes: u64) -> (r: Counts)
        ensures
            r == self.with(out, bytes),
    {
        if out {
            Counts {
                packets_out: self.packets_out.saturating_add(1),
                bytes_out: self.bytes_out.saturating_add(bytes),
                ..self
            }
        } else {
            Counts {
                packets_in: self.packets_in.saturating_add(1),
                bytes_in: self.bytes_in.saturating_add(bytes),
                ..self
            }
        }
    }

    fn raise(self, now: Counts, out: bool) -> (r: Counts)
        ensures
            r == self.peak(now, out),
    {
        if out {
            Counts {
                packets_out: larger(self.packets_out, now.packets_out),
                bytes_out: larger(self.bytes_out, now.bytes_out),
                ..self
            }
        } else {
            Counts {
                packets_in: larger(self.packets_in, now.packets_in),
                bytes_in: larger(self.bytes_in, now.bytes_in),
                ..self
            }
        }
    }
}

/// What is known of one account.
pub struct Account {
    /// The second that `counts` is about.
    pub second: u64,
    /// The minute that `new_flows` is about.
    pub minute: u64,
    pub counts: Counts,
    pub totals: Counts,
    pub peaks: Counts,
    /// The counts of the latest seconds before `second` that had packets.
    pub samples: Vec<Counts>,
    pub new_flows: u64,
    pub total_new_flows: u64,
    pub peak_flows: usize,
    pub breaches: u64,
    pub drops: u64,
    pub untracked: u64,
    pub flows: FlowTable,
    pub last_used: u64,
}

/// The content of an [`Account`].
pub ghost struct AccountView {
    pub second: u64,
    pub minute: u64,
    pub counts: Counts,
    pub totals: Counts,
    pub peaks: Counts,
    pub samples: Seq<Counts>,
    pub new_flows: u64,
    pub total_new_flows: u64,
    pub peak_flows: nat,
    pub breaches: u64,
    pub drops: u64,
    pub untracked: u64,
    pub flows: Map<Flow, u64>,
    pub last_used: u64,
}

impl AccountView {
    /// An account whose first packet comes at `now`.
    pub open spec fn fresh(now: u64) -> AccountView {
        AccountView {
            second: now,
            minute: now / 60,
            counts: Counts::zero(),
            totals: Counts::zero(),
            peaks: Counts::zero(),
            samples: Seq::empty(),
            new_flows: 0,
            total_new_flows: 0,
            peak_flows: 0,
            breaches: 0,
            drops: 0,
            untracked: 0,
            flows: Map::empty(),
            last_used: now,
        }
    }

    /// The account with its windows moved on to the second `t`: the second that ends
    /// joins the sample, which holds the latest [`SAMPLE_SECONDS`].
    pub open spec fn moved_on(self, t: u64) -> AccountView {
        let samples = if self.samples.len() == SAMPLE_SECONDS {
            self.samples.remove(0)
        } else {
            self.samples
        };
        let new_flows = if self.minute != t / 60 {
            0
        } else {
            self.new_flows
        };
        if self.second != t {
            AccountView {
                second: t,
                minute: t / 60,
                counts: Counts::zero(),
                samples: samples.push(self.counts),
                new_flows,
                ..self
            }
        } else {
            AccountView { minute: t / 60, new_flows, ..self }
        }
    }

    /// The flow, if it is there and its last packet is [`FLOW_IDLE_SECONDS`] old at `t`.
    pub open spec fn stale(self, flow: Option<Flow>, t: u64) -> bool {
        flow matches Some(f) && self.flows.contains_key(f) && t - self.flows[f] >= FLOW_IDLE_SECONDS
    }

    /// The account without `flow`.
    pub open spec fn without(self, flow: Flow) -> AccountView {
        AccountView { flows: self.flows.remove(flow), ..self }
    }

    /// The account with a packet counted.
    pub open spec fn counted(self, out: bool, bytes: u64) -> AccountView {
        let counts = self.counts.with(out, bytes);
        AccountView {
            counts,
            totals: self.totals.with(out, bytes),
            peaks: self.peaks.peak(counts, out),
            ..self
        }
    }

    /// Whether a packet takes the account over a limit; `self` has it counted.
    pub open spec fn exceeds(self, policy: Policy, new_flow: bool) -> bool {
        ||| policy.packets > 0 && sat_add(self.counts.packets_in, self.counts.packets_out)
            > policy.packets
        ||| policy.bytes > 0 && sat_add(self.counts.bytes_in, self.counts.bytes_out) > policy.bytes
        ||| new_flow && policy.new_flows > 0 && self.new_flows >= policy.new_flows
    }

    /// The account as it stands when a packet is judged: the windows at the packet's
    /// time, which never goes back, an idle flow forgotten, the packet counted.
    pub open spec fn judged(self, out: bool, bytes: u64, flow: Option<Flow>, now: u64) -> AccountView {
        let t = max_of(now, self.second);
        let a = AccountView { last_used: max_of(now, self.last_used), ..self }.moved_on(t);
        let b = if a.stale(flow, t) {
            a.without(flow->Some_0)
        } else {
            a
        };
        b.counted(out, bytes)
    }

    /// Whether the packet, judged, opens a flow.
    pub open spec fn opens(self, flow: Option<Flow>) -> bool {
        flow matches Some(f) && !self.flows.contains_key(f)
    }

    /// The judged account with its flow seen at `t`.
    pub open spec fn tracking(self, flow: Flow, t: u64) -> AccountView {
        let flows = self.flows.insert(flow, t);
        AccountView {
            new_flows: if self.flows.contains_key(flow) {
                self.new_flows
            } else {
                next(self.new_flows)
            },
            total_new_flows: if self.flows.contains_key(flow) {
                self.total_new_flows
            } else {
                next(self.total_new_flows)
            },
            flows,
            peak_flows: if self.peak_flows >= flows.dom().len() {
                self.peak_flows
            } else {
                flows.dom().len()
            },
            ..self
        }
    }
}

/// The outcome of a packet for its account.
pub ghost struct Verdict {
    pub account: AccountView,
    /// Tracked flows of all accounts afterwards.
    pub slots: int,
    pub allowed: bool,
}

/// What a packet does. A limit that is exceeded is a breach, which is refused when
/// the policy is enforced. A flow for which no slot is left goes untracked, and is
/// refused then too.
pub open spec fn verdict(
    policy: Policy,
    slots: int,
    flow_limit: usize,
    account: AccountView,
    out: bool,
    bytes: u64,
    flow: Option<Flow>,
    now: u64,
) -> Verdict {
    let t = max_of(now, account.second);
    let a = account.judged(out, bytes, flow, now);
    let free = slots + a.flows.dom().len() - account.flows.dom().len();
    let over = a.exceeds(policy, a.opens(flow));
    let b = if over {
        AccountView { breaches: next(a.breaches), ..a }
    } else {
        a
    };
    if over && policy.enforce {
        Verdict { account: AccountView { drops: next(b.drops), ..b }, slots: free, allowed: false }
    } else if a.opens(flow) && free >= flow_limit {
        let c = AccountView { untracked: next(b.untracked), ..b };
        if policy.enforce {
            Verdict { account: AccountView { drops: next(c.drops), ..c }, slots: free, allowed: false }
        } else {
            Verdict { account: c, slots: free, allowed: true }
        }
    } else if let Some(f) = flow {
        let c = b.tracking(f, t);
        Verdict { account: c, slots: free + c.flows.dom().len() - b.flows.dom().len(), allowed: true }
    } else {
        Verdict { account: b, slots: free, allowed: true }
    }
}

impl Account {
    pub open spec fn wf(self) -> bool {
        self.flows.wf() && self.samples@.len() <= SAMPLE_SECONDS
    }

    pub open spec fn view(self) -> AccountView {
        AccountView {
            second: self.second,
            minute: self.minute,
            counts: self.counts,
            totals: self.totals,
            peaks: self.peaks,
            samples: self.samples@,
            new_flows: self.new_flows,
            total_new_flows: self.total_new_flows,
            peak_flows: self.peak_flows as nat,
            breaches: self.breaches,
            drops: self.drops,
            untracked: self.untracked,
            flows: self.flows@,
            last_used: self.last_used,
        }
    }

    pub fn new(now: u64) -> (r: Account)
        ensures
            r.wf(),
            r@ == AccountView::fresh(now),
    {
        let r = Account {
            second: now,
            minute: now / 60,
            counts: Counts::none(),
            totals: Counts::none(),
            peaks: Counts::none(),
            samples: Vec::with_capacity(SAMPLE_SECONDS),
            new_flows: 0,
            total_new_flows: 0,
            peak_flows: 0,
            breaches: 0,
            drops: 0,
            untracked: 0,
            flows: FlowTable::new(),
            last_used: now,
        };
        assert(r@.samples =~= Seq::<Counts>::empty());
        r
    }

    fn move_on(&mut self, t: u64)
        requires
            old(self).wf(),
        ensures
            final(self).wf(),
            final(self)@ == old(self)@.moved_on(t),
            final(self).flows == old(self).flows,
    {
        if self.second != t {
            let sample: Counts = self.counts;
            if self.samples.len() == SAMPLE_SECONDS {
                let _ = self.samples.remove(0);
            }
            self.samples.push(sample);
            self.counts = Counts::none();
            self.second = t;
        }
        if self.minute != t / 60 {
            self.new_flows = 0;
            self.minute = t / 60;
        }
    }

    /// Judges one packet; `slots` counts the tracked flows of all accounts.
    pub fn event(
        &mut self,
        policy: Policy,
        slots: &mut usize,
        flow_limit: usize,
        out: bool,
        bytes: u64,
        flow: Option<Flow>,
        now: u64,
    ) -> (r: bool)
        requires
            old(self).wf(),
            old(self)@.flows.dom().len() <= *old(slots),
        ensures
            final(self).wf(),
            ({
                let v = verdict(policy, *old(slots) as int, flow_limit, old(self)@, out, bytes, flow, now);
                &&& final(self)@ == v.account
                &&& *final(slots) == v.slots
                &&& r == v.allowed
            }),
            final(self)@.flows.dom().finite(),
            old(self)@.flows.dom().finite(),
            *final(slots) - *old(slots) == final(self)@.flows.dom().len() - old(self)@.flows.dom().len(),
    {
        let ghost start = self@;
        let ghost slots0 = *slots;
        let before: usize = self.flows.len();
        self.last_used = larger(now, self.last_used);
        let t: u64 = larger(now, self.second);
        self.move_on(t);
        let ghost a = self@;
        assert(a.flows == start.flows);
        if let Some(key) = flow {
            if let Some(seen) = self.flows.get(key) {
                if t >= seen && t - seen >= FLOW_IDLE_SECONDS {
                    self.flows.remove(key);
                    *slots = *slots - 1;
                }
            }
        }
        self.counts = self.counts.add_packet(out, bytes);
        self.totals = self.totals.add_packet(out, bytes);
        self.peaks = self.peaks.raise(self.counts, out);
        let ghost j = self@;
        assert(j == start.judged(out, bytes, flow, now));
        let held: usize = self.flows.len();
        assert(*slots == slots0 + held - before);
        let new_flow: bool = match flow {
            Some(key) => self.flows.get(key).is_none(),
            None => false,
        };
        assert(new_flow == j.opens(flow));
        let exceeded: bool = (policy.packets > 0 && self.counts.packets_in.saturating_add(
            self.counts.packets_out,
        ) > policy.packets) || (policy.bytes > 0 && self.counts.bytes_in.saturating_add(
            self.counts.bytes_out,
        ) > policy.bytes) || (new_flow && policy.new_flows > 0 && self.new_flows >= policy.new_flows);
        if exceeded {
            self.breaches = self.breaches.wrapping_add(1);
            if policy.enforce {
                self.drops = self.drops.wrapping_add(1);
                return false;
            }
        }
        if let Some(key) = flow {
            if new_flow {
                if *slots >= flow_limit {
                    self.untracked = self.untracked.wrapping_add(1);
                    if policy.enforce {
                        self.drops = self.drops.wrapping_add(1);
                    }
                    return !policy.enforce;
                }
                *slots = *slots + 1;
                self.new_flows = self.new_flows.wrapping_add(1);
                self.total_new_flows = self.total_new_flows.wrapping_add(1);
            }
            self.flows.insert(key, t);
            let len: usize = self.flows.len();
            if self.peak_flows < len {
                self.peak_flows = len;
            }
        }
        true
    }
}

/// What a map from account names to accounts holds.
pub uninterp spec fn accounts_of(m: DashMap<String, Account>) -> Map<Seq<char>, Account>;

/// `DashMap::new`: the map is empty.
#[verifier::external_body]
fn new_accounts() -> (r: DashMap<String, Account>)
    ensures
        accounts_of(r) == (Map::<Seq<char>, Account>::empty()),
{
    DashMap::new()
}

/// `DashMap::len`: the number of entries.
#[verifier::external_body]
fn count_accounts(m: &DashMap<String, Account>) -> (r: usize)
    ensures
        r == accounts_of(*m).dom().len(),
{
    m.len()
}

/// `DashMap::remove`: the account under `name` comes out of the map, if there is one.
#[verifier::external_body]
fn take_account(m: &mut DashMap<String, Account>, name: &str) -> (r: Option<Account>)
    ensures
        accounts_of(*final(m)) == accounts_of(*old(m)).remove(name@),
        r == if accounts_of(*old(m)).contains_key(name@) {
            Some(accounts_of(*old(m))[name@])
        } else {
            None
        },
{
    m.remove(name).map(|e| e.1)
}

/// `DashMap::insert`: the account under `name` becomes `account`.
#[verifier::external_body]
fn put_account(m: &mut DashMap<String, Account>, name: &str, account: Account)
    ensures
        accounts_of(*final(m)) == accounts_of(*old(m)).insert(name@, account),
{
    m.insert(name.to_string(), account);
}

/// `DashMap::iter`, the keys alone: each name once, in no stated order.
#[verifier::external_body]
fn account_names(m: &DashMap<String, Account>) -> (r: Vec<String>)
    ensures
        forall|i: int, j: int| 0 <= i < j < r@.len() ==> r@[i]@ != r@[j]@,
        forall|i: int|
            0 <= i < r@.len() ==> accounts_of(*m).contains_key(#[trigger] r@[i]@),
        forall|name: Seq<char>| #[trigger]
            accounts_of(*m).contains_key(name) ==> exists|i: int|
                0 <= i < r@.len() && #[trigger] r@[i]@ == name,
{
    m.iter().map(|e| e.key().clone()).collect()
}

/// All accounts and what they share.
pub struct Budgets {
    pub policy: Policy,
    pub accounts: DashMap<String, Account>,
    /// The flows of all accounts that are held.
    pub slots: usize,
    /// Packets of accounts for which there was no room.
    pub capacity_packets: u64,
    /// Those of them that were refused.
    pub capacity_drops: u64,
    pub account_limit: usize,
    pub flow_limit: usize,
}

/// The number of flows of all accounts together.
pub open spec fn flow_total(m: Map<Seq<char>, AccountView>) -> int
    decreases m.dom().len(),
    when m.dom().finite()
{
    if m.dom().len() == 0 {
        0
    } else {
        let name = m.dom().choose();
        m[name].flows.dom().len() + flow_total(m.remove(name))
    }
}

/// Any account can be taken out of the sum first.
pub proof fn lemma_flow_total_split(m: Map<Seq<char>, AccountView>, name: Seq<char>)
    requires
        m.dom().finite(),
        m.contains_key(name),
    ensures
        flow_total(m) == m[name].flows.dom().len() + flow_total(m.remove(name)),
    decreases m.dom().len(),
{
    let first = m.dom().choose();
    if first != name {
        lemma_flow_total_split(m.remove(first), name);
        lemma_flow_total_split(m.remove(name), first);
        assert(m.remove(first).remove(name) =~= m.remove(name).remove(first));
    }
}

/// Exchanging one account moves the sum by the difference.
pub proof fn lemma_flow_total_insert(m: Map<Seq<char>, AccountView>, name: Seq<char>, a: AccountView)
    requires
        m.dom().finite(),
    ensures
        flow_total(m.insert(name, a)) == flow_total(m.remove(name)) + a.flows.dom().len(),
        flow_total(m) == flow_total(m.remove(name)) + if m.contains_key(name) {
            m[name].flows.dom().len() as int
        } else {
            0
        },
{
    lemma_flow_total_split(m.insert(name, a), name);
    assert(m.insert(name, a).remove(name) =~= m.remove(name));
    if m.contains_key(name) {
        lemma_flow_total_split(m, name);
    } else {
        assert(m.remove(name) =~= m);
    }
}

pub proof fn lemma_flow_total_nonnegative(m: Map<Seq<char>, AccountView>)
    requires
        m.dom().finite(),
    ensures
        flow_total(m) >= 0,
    decreases m.dom().len(),
{
    if m.dom().len() != 0 {
        lemma_flow_total_nonnegative(m.remove(m.dom().choose()));
    }
}

/// The account that a packet of `user` is judged against.
pub open spec fn account_for(m: Map<Seq<char>, AccountView>, user: Seq<char>, now: u64) -> AccountView {
    if m.contains_key(user) {
        m[user]
    } else {
        AccountView::fresh(now)
    }
}

/// Whether the account is idle at `now`.
pub open spec fn idle(a: AccountView, now: u64) -> bool {
    now - a.last_used >= ACCOUNT_IDLE_SECONDS
}

/// The accounts after maintenance at `now`: idle ones are gone, the others have lost
/// their idle flows.
pub open spec fn maintained(m: Map<Seq<char>, AccountView>, now: u64) -> Map<Seq<char>, AccountView> {
    Map::new(
        |name: Seq<char>| m.contains_key(name) && !idle(m[name], now),
        |name: Seq<char>| AccountView { flows: recent(m[name].flows, now), ..m[name] },
    )
}

/// Whether `after` and `allowed` are what a packet of `user` makes of `before`. A
/// packet of an account for which there is no room is counted as such, and refused if
/// the policy is enforced. Any other is judged for its account, and for no other.
pub open spec fn judged_by(
    before: Budgets,
    after: Budgets,
    allowed: bool,
    user: Seq<char>,
    out: bool,
    bytes: u64,
    flow: Option<Flow>,
    now: u64,
) -> bool {
    let m = before@;
    let policy = before.policy;
    &&& after.policy == policy
    &&& after.account_limit == before.account_limit
    &&& after.flow_limit == before.flow_limit
    &&& if !m.contains_key(user) && m.dom().len() >= before.account_limit {
        &&& allowed == !policy.enforce
        &&& after@ == m
        &&& after.slots == before.slots
        &&& after.capacity_packets == next(before.capacity_packets)
        &&& after.capacity_drops == if policy.enforce {
            next(before.capacity_drops)
        } else {
            before.capacity_drops
        }
    } else {
        let v = verdict(
            policy,
            before.slots as int,
            before.flow_limit,
            account_for(m, user, now),
            out,
            bytes,
            flow,
            now,
        );
        &&& allowed == v.allowed
        &&& after@ == m.insert(user, v.account)
        &&& after.slots == v.slots
        &&& after.capacity_packets == before.capacity_packets
        &&& after.capacity_drops == before.capacity_drops
    }
}

impl Budgets {
    /// What is known of each account.
    pub open spec fn view(self) -> Map<Seq<char>, AccountView> {
        accounts_of(self.accounts).map_values(|a: Account| a@)
    }

    /// Every account is in order, and the slots in use are the flows of all accounts.
    pub open spec fn wf(self) -> bool {
        &&& self@.dom().finite()
        &&& forall|name: Seq<char>| #[trigger]
            accounts_of(self.accounts).contains_key(name) ==> accounts_of(self.accounts)[name].wf()
                && accounts_of(self.accounts)[name]@.flows.dom().finite()
        &&& self.slots == flow_total(self@)
    }

    pub fn new(policy: Policy) -> (r: Budgets)
        ensures
            r.wf(),
            r.policy == policy,
            r@ == (Map::<Seq<char>, AccountView>::empty()),
            r.slots == 0,
            r.capacity_packets == 0,
            r.capacity_drops == 0,
            r.account_limit == MAX_SESSIONS_TOTAL,
            r.flow_limit == MAX_FLOWS_TOTAL,
    {
        let r = Budgets {
            policy,
            accounts: new_accounts(),
            slots: 0,
            capacity_packets: 0,
            capacity_drops: 0,
            account_limit: MAX_SESSIONS_TOTAL,
            flow_limit: MAX_FLOWS_TOTAL,
        };
        assert(r@ =~= Map::<Seq<char>, AccountView>::empty());
        r
    }

    /// Judges a packet of the account `user`: whether it is let through.
    #[verifier::rlimit(30)]
    pub fn event(&mut self, user: &str, out: bool, bytes: u64, flow: Option<Flow>, now: u64) -> (r: bool)
        requires
            old(self).wf(),
        ensures
            final(self).wf(),
            old(self)@.dom().len() <= old(self).account_limit ==> final(self)@.dom().len()
                <= final(self).account_limit,
            old(self).slots <= old(self).flow_limit ==> final(self).slots <= final(self).flow_limit,
            judged_by(*old(self), *final(self), r, user@, out, bytes, flow, now),
    {
        let ghost m = self@;
        let ghost raw = accounts_of(self.accounts);
        assert(raw.dom() =~= m.dom());
        let held = take_account(&mut self.accounts, user);
        assert(self@ =~= m.remove(user@));
        let mut account: Account = match held {
            Some(account) => account,
            None => {
                assert(m.remove(user@) =~= m);
                assert(accounts_of(self.accounts).dom() =~= m.dom());
                if count_accounts(&self.accounts) >= self.account_limit {
                    self.capacity_packets = self.capacity_packets.wrapping_add(1);
                    if self.policy.enforce {
                        self.capacity_drops = self.capacity_drops.wrapping_add(1);
                    }
                    return !self.policy.enforce;
                }
                Account::new(now)
            },
        };
        let ghost base = account@;
        assert(base == account_for(m, user@, now));
        proof {
            lemma_flow_total_insert(m, user@, base);
            lemma_flow_total_nonnegative(m.remove(user@));
        }
        let allowed: bool = account.event(
            self.policy,
            &mut self.slots,
            self.flow_limit,
            out,
            bytes,
            flow,
            now,
        );
        let ghost after = account@;
        proof {
            lemma_flow_total_insert(m, user@, after);
        }
        put_account(&mut self.accounts, user, account);
        assert(self@ =~= m.insert(user@, after));
        allowed
    }

    /// Forgets idle accounts and idle flows.
    pub fn maintain(&mut self, now: u64)
        requires
            old(self).wf(),
        ensures
            final(self).wf(),
            final(self)@ == maintained(old(self)@, now),
            final(self).policy == old(self).policy,
            final(self).account_limit == old(self).account_limit,
            final(self).flow_limit == old(self).flow_limit,
            final(self).capacity_packets == old(self).capacity_packets,
            final(self).capacity_drops == old(self).capacity_drops,
    {
        let ghost m = self@;
        let ghost start = *self;
        let names = account_names(&self.accounts);
        assert(accounts_of(self.accounts).dom() =~= m.dom());
        let mut i: usize = 0;
        while i < names.len()
            invariant
                i <= names.len(),
                self.wf(),
                m.dom().finite(),
                self.policy == start.policy,
                self.account_limit == start.account_limit,
                self.flow_limit == start.flow_limit,
                self.capacity_packets == start.capacity_packets,
                self.capacity_drops == start.capacity_drops,
                forall|a: int, b: int| 0 <= a < b < names@.len() ==> names@[a]@ != names@[b]@,
                forall|a: int| 0 <= a < names@.len() ==> m.contains_key(#[trigger] names@[a]@),
                forall|name: Seq<char>| #[trigger]
                    m.contains_key(name) ==> exists|a: int|
                        0 <= a < names@.len() && #[trigger] names@[a]@ == name,
                forall|a: int|
                    i <= a < names@.len() ==> self@.contains_key(#[trigger] names@[a]@)
                        && self@[names@[a]@] == m[names@[a]@],
                forall|a: int|
                    0 <= a < i ==> self@.contains_key(#[trigger] names@[a]@) == maintained(
                        m,
                        now,
                    ).contains_key(names@[a]@) && (self@.contains_key(names@[a]@)
                        ==> self@[names@[a]@] == maintained(m, now)[names@[a]@]),
                forall|name: Seq<char>| #[trigger]
                    self@.contains_key(name) ==> m.contains_key(name),
            decreases names.len() - i,
        {
            let name: &str = names[i].as_str();
            let ghost before = self@;
            assert(accounts_of(self.accounts).contains_key(name@)) by {
                assert(self@.contains_key(names@[i as int]@));
            }
            let held = take_account(&mut self.accounts, name);
            assert(self@ =~= before.remove(name@));
            proof {
                lemma_flow_total_split(before, name@);
                lemma_flow_total_nonnegative(before.remove(name@));
            }
            if let Some(account) = held {
                let mut account: Account = account;
                let ghost a0 = account@;
                assert(a0 == m[name@]);
                let flows: usize = account.flows.len();
                if now < account.last_used || now - account.last_used < ACCOUNT_IDLE_SECONDS {
                    account.flows.retain_recent(now);
                    proof {
                        let kept = recent(a0.flows, now).dom();
                        assert(kept.subset_of(a0.flows.dom()));
                        vstd::set_lib::lemma_len_subset(kept, a0.flows.dom());
                    }
                    let left: usize = account.flows.len();
                    self.slots = self.slots - (flows - left);
                    let ghost a1 = account@;
                    proof {
                        lemma_flow_total_insert(before, name@, a1);
                    }
                    put_account(&mut self.accounts, name, account);
                    assert(self@ =~= before.insert(name@, a1));
                    assert(a1 == maintained(m, now)[name@]);
                } else {
                    self.slots = self.slots - flows;
                    assert(self@ =~= before.remove(name@));
                }
            }
            i = i + 1;
        }
        proof {
            let want = maintained(m, now);
            assert forall|name: Seq<char>| self@.contains_key(name) == want.contains_key(name) by {
                if m.contains_key(name) {
                    let a = choose|a: int| 0 <= a < names@.len() && #[trigger] names@[a]@ == name;
                    assert(self@.contains_key(names@[a]@) == want.contains_key(names@[a]@));
                }
            }
            assert forall|name: Seq<char>| #[trigger] self@.contains_key(name) implies self@[name]
                == want[name] by {
                let a = choose|a: int| 0 <= a < names@.len() && #[trigger] names@[a]@ == name;
                assert(self@.contains_key(names@[a]@));
            }
            assert(self@ =~= want);
        }
    }
}

/// Whether `s` is in ascending order.
pub open spec fn ascending(s: Seq<u64>) -> bool {
    forall|i: int, j: int| 0 <= i < j < s.len() ==> s[i] <= s[j]
}

/// Whether `r` is the 95th percentile of `values`: the value that stands, in ascending
/// order, at 95 of 100 of the length, rounded up.
pub open spec fn is_p95(values: Seq<u64>, r: u64) -> bool {
    exists|s: Seq<u64>|
        ascending(s) && #[trigger] s.to_multiset() == values.to_multiset() && r == s[(values.len() * 95
            + 99) / 100 - 1]
}

/// Puts `x` where it belongs in the ascending `v`.
fn insert_ascending(v: &mut Vec<u64>, x: u64)
    requires
        ascending(old(v)@),
    ensures
        ascending(final(v)@),
        final(v)@.to_multiset() == old(v)@.to_multiset().insert(x),
        final(v)@.len() == old(v)@.len() + 1,
{
    let ghost before = v@;
    let mut i: usize = 0;
    while i < v.len() && v[i] <= x
        invariant
            i <= v@.len(),
            v@ == before,
            forall|j: int| 0 <= j < i ==> v@[j] <= x,
        decreases v.len() - i,
    {
        i = i + 1;
    }
    v.insert(i, x);
    proof {
        let after = v@;
        assert(after.remove(i as int) =~= before);
        vstd::seq_lib::to_multiset_remove(after, i as int);
        after.to_multiset_ensures();
        assert(after.contains(after[i as int]));
        assert(after.to_multiset() =~= before.to_multiset().insert(x));
    }
}

/// The 95th percentile.
pub fn p95(values: &Vec<u64>) -> (r: u64)
    requires
        values@.len() > 0,
        values@.len() * 95 <= usize::MAX,
    ensures
        is_p95(values@, r),
{
    let mut sorted: Vec<u64> = Vec::new();
    let mut i: usize = 0;
    assert(values@.take(0) =~= sorted@);
    while i < values.len()
        invariant
            i <= values@.len(),
            ascending(sorted@),
            sorted@.len() == i,
            sorted@.to_multiset() == values@.take(i as int).to_multiset(),
        decreases values.len() - i,
    {
        insert_ascending(&mut sorted, values[i]);
        proof {
            values@.take(i as int).to_multiset_ensures();
            assert(values@.take(i + 1) =~= values@.take(i as int).push(values@[i as int]));
        }
        i = i + 1;
    }
    assert(values@.take(i as int) =~= values@);
    let scaled: usize = values.len() * 95;
    let rank: usize = if scaled % 100 == 0 {
        scaled / 100
    } else {
        scaled / 100 + 1
    };
    sorted[rank - 1]
}

/// One account as it is reported.
pub struct AccountRow {
    pub account: String,
    pub totals: Counts,
    pub peak_per_second: Counts,
    pub p95_recent_active_seconds: Counts,
    pub new_flows_this_minute: u64,
    pub total_new_flows: u64,
    pub flows_seen_within_120s: usize,
    pub peak_tracked_flows: usize,
    pub budget_breaches: u64,
    pub dropped_packets: u64,
    pub untracked_flow_packets: u64,
}

/// One of the four counters.
#[derive(Clone, Copy, PartialEq, Eq, Structural, Debug)]
pub enum Counter {
    PacketsIn,
    BytesIn,
    PacketsOut,
    BytesOut,
}

impl Counts {
    pub open spec fn at(self, which: Counter) -> u64 {
        match which {
            Counter::PacketsIn => self.packets_in,
            Counter::BytesIn => self.bytes_in,
            Counter::PacketsOut => self.packets_out,
            Counter::BytesOut => self.bytes_out,
        }
    }

    pub fn get(&self, which: Counter) -> (r: u64)
        ensures
            r == self.at(which),
    {
        match which {
            Counter::PacketsIn => self.packets_in,
            Counter::BytesIn => self.bytes_in,
            Counter::PacketsOut => self.packets_out,
            Counter::BytesOut => self.bytes_out,
        }
    }
}

/// The values of one counter over the sample and the current second.
pub open spec fn series(a: AccountView, which: Counter) -> Seq<u64> {
    a.samples.map_values(|c: Counts| c.at(which)).push(a.counts.at(which))
}

/// Whether `r` is the 95th percentile, counter by counter, over the sample and the
/// current second.
pub open spec fn p95_counts(a: AccountView, r: Counts) -> bool {
    &&& is_p95(series(a, Counter::PacketsIn), r.packets_in)
    &&& is_p95(series(a, Counter::BytesIn), r.bytes_in)
    &&& is_p95(series(a, Counter::PacketsOut), r.packets_out)
    &&& is_p95(series(a, Counter::BytesOut), r.bytes_out)
}

/// Whether `row` is the report of the account `a` at `now`.
pub open spec fn reports(row: AccountRow, name: Seq<char>, a: AccountView, now: u64) -> bool {
    &&& row.account@ == name
    &&& row.totals == a.totals
    &&& row.peak_per_second == a.peaks
    &&& p95_counts(a, row.p95_recent_active_seconds)
    &&& row.new_flows_this_minute == if a.minute == now / 60 {
        a.new_flows
    } else {
        0
    }
    &&& row.total_new_flows == a.total_new_flows
    &&& row.flows_seen_within_120s == recent(a.flows, now).dom().len()
    &&& row.peak_tracked_flows == a.peak_flows
    &&& row.budget_breaches == a.breaches
    &&& row.dropped_packets == a.drops
    &&& row.untracked_flow_packets == a.untracked
}

impl FlowTable {
    /// How many flows were seen less than [`FLOW_IDLE_SECONDS`] before `now`.
    pub fn count_recent(&self, now: u64) -> (r: usize)
        requires
            self.wf(),
        ensures
            r == recent(self@, now).dom().len(),
    {
        let ghost all = self.entries@;
        let mut count: usize = 0;
        let mut i: usize = 0;
        assert(recent(entry_map(all.take(0)), now).dom() =~= Set::<Flow>::empty());
        while i < self.entries.len()
            invariant
                self.entries@ == all,
                distinct(all),
                i <= all.len(),
                count <= i,
                recent(entry_map(all.take(i as int)), now).dom().finite(),
                count == recent(entry_map(all.take(i as int)), now).dom().len(),
            decreases all.len() - i,
        {
            let e: FlowSeen = self.entries[i];
            let ghost m = entry_map(all.take(i as int));
            proof {
                assert(all.take(i + 1).drop_last() =~= all.take(i as int));
                lemma_entry_map(all.take(i as int));
                assert(!m.contains_key(e.flow));
            }
            if now < e.seen || now - e.seen < FLOW_IDLE_SECONDS {
                count = count + 1;
                assert(recent(entry_map(all.take(i + 1)), now).dom() =~= recent(m, now).dom().insert(
                    e.flow,
                ));
            } else {
                assert(recent(entry_map(all.take(i + 1)), now).dom() =~= recent(m, now).dom());
            }
            i = i + 1;
        }
        assert(all.take(i as int) =~= all);
        count
    }
}

impl Account {
    /// The 95th percentile of one counter.
    fn p95_series(&self, which: Counter) -> (r: u64)
        requires
            self.wf(),
        ensures
            is_p95(series(self@, which), r),
    {
        let mut values: Vec<u64> = Vec::new();
        let mut i: usize = 0;
        while i < self.samples.len()
            invariant
                i <= self.samples@.len(),
                values@ =~= self.samples@.take(i as int).map_values(|c: Counts| c.at(which)),
            decreases self.samples.len() - i,
        {
            values.push(self.samples[i].get(which));
            i = i + 1;
        }
        values.push(self.counts.get(which));
        assert(values@ =~= series(self@, which));
        p95(&values)
    }

    /// The account as it is reported at `now`.
    pub fn row(&self, name: &str, now: u64) -> (r: AccountRow)
        requires
            self.wf(),
        ensures
            reports(r, name@, self@, now),
    {
        AccountRow {
            account: name.to_owned(),
            totals: self.totals,
            peak_per_second: self.peaks,
            p95_recent_active_seconds: Counts {
                packets_in: self.p95_series(Counter::PacketsIn),
                bytes_in: self.p95_series(Counter::BytesIn),
                packets_out: self.p95_series(Counter::PacketsOut),
                bytes_out: self.p95_series(Counter::BytesOut),
            },
            new_flows_this_minute: if self.minute == now / 60 {
                self.new_flows
            } else {
                0
            },
            total_new_flows: self.total_new_flows,
            flows_seen_within_120s: self.flows.count_recent(now),
            peak_tracked_flows: self.peak_flows,
            budget_breaches: self.breaches,
            dropped_packets: self.drops,
            untracked_flow_packets: self.untracked,
        }
    }
}

/// `DashMap::view`, with [`Account::row`]: the report of the account under `name`, if
/// there is one.
#[verifier::external_body]
fn view_account_row(m: &DashMap<String, Account>, name: &str, now: u64) -> (r: Option<AccountRow>)
    requires
        accounts_of(*m).contains_key(name@) ==> accounts_of(*m)[name@].wf(),
    ensures
        match r {
            Some(row) => accounts_of(*m).contains_key(name@) && reports(
                row,
                name@,
                accounts_of(*m)[name@]@,
                now,
            ),
            None => !accounts_of(*m).contains_key(name@),
        },
{
    m.view(name, |k, a| a.row(k, now))
}

/// The budgets as they are reported.
pub struct BudgetsSnapshot {
    pub mode: &'static str,
    pub packets_per_second: u64,
    pub bytes_per_second: u64,
    pub new_flows_per_minute: u64,
    pub untracked_account_packets: u64,
    pub capacity_dropped_packets: u64,
    /// One row for each account, in no stated order.
    pub accounts: Vec<AccountRow>,
}

/// Whether `r` is the report of some budgets at `now`.
pub open spec fn reports_budgets(r: BudgetsSnapshot, b: Budgets, now: u64) -> bool {
    &&& r.mode@ == if b.policy.enforce {
        "enforce"@
    } else {
        "observe"@
    }
    &&& r.packets_per_second == b.policy.packets
    &&& r.bytes_per_second == b.policy.bytes
    &&& r.new_flows_per_minute == b.policy.new_flows
    &&& r.untracked_account_packets == b.capacity_packets
    &&& r.capacity_dropped_packets == b.capacity_drops
    &&& (forall|i: int, j: int|
        0 <= i < j < r.accounts@.len() ==> r.accounts@[i].account@ != r.accounts@[j].account@)
    &&& (forall|i: int|
        0 <= i < r.accounts@.len() ==> b@.contains_key(
            (#[trigger] r.accounts@[i]).account@,
        ) && reports(
            r.accounts@[i],
            r.accounts@[i].account@,
            b@[r.accounts@[i].account@],
            now,
        ))
    &&& (forall|name: Seq<char>| #[trigger]
        b@.contains_key(name) ==> exists|i: int|
            0 <= i < r.accounts@.len() && (#[trigger] r.accounts@[i]).account@ == name)
}

impl Budgets {
    /// The report at `now`.
    pub fn snapshot(&self, now: u64) -> (r: BudgetsSnapshot)
        requires
            self.wf(),
        ensures
            reports_budgets(r, *self, now),
    {
        let names = account_names(&self.accounts);
        let mut rows: Vec<AccountRow> = Vec::new();
        let mut i: usize = 0;
        while i < names.len()
            invariant
                i <= names@.len(),
                self.wf(),
                forall|a: int|
                    0 <= a < names@.len() ==> accounts_of(self.accounts).contains_key(
                        #[trigger] names@[a]@,
                    ),
                rows@.len() == i,
                forall|a: int|
                    0 <= a < i ==> (#[trigger] rows@[a]).account@ == names@[a]@ && self@.contains_key(
                        names@[a]@,
                    ) && reports(rows@[a], names@[a]@, self@[names@[a]@], now),
            decreases names.len() - i,
        {
            let name: &str = names[i].as_str();
            assert(accounts_of(self.accounts).contains_key(names@[i as int]@));
            let row = view_account_row(&self.accounts, name, now);
            if let Some(row) = row {
                rows.push(row);
            }
            i = i + 1;
        }
        let ghost listed = rows@;
        let r = BudgetsSnapshot {
            mode: if self.policy.enforce {
                "enforce"
            } else {
                "observe"
            },
            packets_per_second: self.policy.packets,
            bytes_per_second: self.policy.bytes,
            new_flows_per_minute: self.policy.new_flows,
            untracked_account_packets: self.capacity_packets,
            capacity_dropped_packets: self.capacity_drops,
            accounts: rows,
        };
        proof {
            assert forall|name: Seq<char>| #[trigger] self@.contains_key(name) implies exists|a: int|
                0 <= a < r.accounts@.len() && (#[trigger] r.accounts@[a]).account@ == name by {
                assert(accounts_of(self.accounts).contains_key(name));
                let a = choose|a: int| 0 <= a < names@.len() && #[trigger] names@[a]@ == name;
                assert(listed[a].account@ == names@[a]@);
                assert(r.accounts@[a].account@ == name);
            }
        }
        r
    }
}

/// Without enforcement every packet is let through, whatever the limits say.
pub proof fn observing_never_refuses(
    policy: Policy,
    slots: int,
    flow_limit: usize,
    account: AccountView,
    out: bool,
    bytes: u64,
    flow: Option<Flow>,
    now: u64,
)
    requires
        !policy.enforce,
    ensures
        verdict(policy, slots, flow_limit, account, out, bytes, flow, now).allowed,
{
}

/// What an enforced policy lets through in a second, both directions and all sessions
/// together, stays within its limits, and so do the new flows of a minute.
pub proof fn enforced_limits_hold(
    policy: Policy,
    slots: int,
    flow_limit: usize,
    account: AccountView,
    out: bool,
    bytes: u64,
    flow: Option<Flow>,
    now: u64,
)
    requires
        policy.enforce,
    ensures
        ({
            let v = verdict(policy, slots, flow_limit, account, out, bytes, flow, now);
            let c = v.account.counts;
            &&& v.allowed && policy.packets > 0 ==> sat_add(c.packets_in, c.packets_out)
                <= policy.packets
            &&& v.allowed && policy.bytes > 0 ==> sat_add(c.bytes_in, c.bytes_out) <= policy.bytes
            &&& policy.new_flows > 0 && account.new_flows <= policy.new_flows ==> v.account.new_flows
                <= policy.new_flows
        }),
{
}

/// A packet with an old time does not open a past window again: the account's second
/// never goes back, and within it the counters only grow.
pub proof fn a_window_never_reopens(
    policy: Policy,
    slots: int,
    flow_limit: usize,
    account: AccountView,
    out: bool,
    bytes: u64,
    flow: Option<Flow>,
    now: u64,
)
    ensures
        ({
            let v = verdict(policy, slots, flow_limit, account, out, bytes, flow, now);
            &&& v.account.second >= account.second
            &&& now <= account.second ==> v.account.second == account.second && v.account.counts
                == account.counts.with(out, bytes)
        }),
{
}

/// Every packet is counted, whether it is let through or refused.
pub proof fn offered_packets_are_counted(
    policy: Policy,
    slots: int,
    flow_limit: usize,
    account: AccountView,
    out: bool,
    bytes: u64,
    flow: Option<Flow>,
    now: u64,
)
    ensures
        verdict(policy, slots, flow_limit, account, out, bytes, flow, now).account.totals
            == account.totals.with(out, bytes),
{
}

/// Whether `after` and `allowed` are what a packet of a session makes of `before`.
pub open spec fn within_budget(
    before: Budgets,
    after: Budgets,
    allowed: bool,
    sessions: Map<u64, SessionView>,
    key: u64,
    out: bool,
    packet: Seq<u8>,
    now_secs: u64,
) -> bool {
    if !sessions.contains_key(key) {
        !allowed && after == before
    } else if sessions[key].auth_state != SessionAuthState::Authenticated {
        allowed && after == before
    } else {
        judged_by(
            before,
            after,
            allowed,
            sessions[key].user_id,
            out,
            packet.len() as u64,
            if out {
                None
            } else {
                flow_of(key, packet)
            },
            now_secs,
        )
    }
}

/// Whether a packet of a session is within its account's budget. Without a session it
/// is refused; a session that has shown no ticket has no budget.
pub fn allow(
    budgets: &mut Budgets,
    sessions: &SessionTable,
    key: u64,
    out: bool,
    packet: &[u8],
    now_secs: u64,
) -> (r: bool)
    requires
        old(budgets).wf(),
    ensures
        final(budgets).wf(),
        within_budget(*old(budgets), *final(budgets), r, sessions@, key, out, packet@, now_secs),
{
    let session: SessionEntry = match sessions.get(key) {
        Some(session) => session,
        None => {
            return false;
        },
    };
    if session.auth_state != SessionAuthState::Authenticated {
        return true;
    }
    let flow: Option<Flow> = if out {
        None
    } else {
        Flow::parse(key, packet)
    };
    budgets.event(session.user_id.as_str(), out, packet.len() as u64, flow, now_secs)
}

/// A limit is the number that its setting is in decimal; what is no number, or is not
/// there, sets none.
pub proof fn limits_are_numbers(n: u64, s: Seq<char>, i: int)
    ensures
        limit_of(Some(decimal(n as nat))) == n,
        limit_of(None) == 0,
        0 <= i < s.len() && !(48 <= s[i] as int <= 57) && !(i == 0 && s[i] == '+') ==> limit_of(Some(s))
            == 0,
{
    decimals_read_back(n as nat, u64::MAX as nat);
    if 0 <= i < s.len() && !(48 <= s[i] as int <= 57) && !(i == 0 && s[i] == '+') {
        only_digits_are_numbers(s, i, u64::MAX as nat);
    }
}

/// A packet belongs to a flow if and only if it is an IPv4 packet of TCP or UDP that is
/// long enough to show its ports and does not continue a fragmented one. The flow is told
/// by the session, the protocol, both addresses and both ports.
pub proof fn flows_are_told_by_addresses_and_ports(sid: u64, p: Seq<u8>)
    requires
        p.len() >= 20,
    ensures
        ({
            let at = p[0] as int % 16 * 4;
            let offset = (p[6] as int * 256 + p[7] as int) % 8192;
            let r = flow_of(sid, p);
            &&& r is Some <==> p[0] as int / 16 == 4 && (p[9] == 6 || p[9] == 17) && offset == 0 && at >= 20
                && p.len() >= at + 4
            &&& r is Some ==> {
                let f = r->Some_0;
                &&& f.sid == sid
                &&& f.proto == p[9]
                &&& f.src == (Ipv4Addr { a: p[12], b: p[13], c: p[14], d: p[15] })
                &&& f.dst == (Ipv4Addr { a: p[16], b: p[17], c: p[18], d: p[19] })
                &&& f.sport == p[at] as int * 256 + p[at + 1] as int
                &&& f.dport == p[at + 2] as int * 256 + p[at + 3] as int
            }
        }),
{
}

/// A packet is one more packet and its bytes more in its own direction, up to the end of
/// the range, and nothing in the other one.
pub proof fn packets_count_in_their_direction(c: Counts, bytes: u64)
    ensures
        ({
            let full = 0xFFFF_FFFF_FFFF_FFFFint;
            let i = c.with(false, bytes);
            let o = c.with(true, bytes);
            &&& i.packets_in == if c.packets_in + 1 <= full {
                c.packets_in + 1
            } else {
                full
            }
            &&& i.bytes_in == if c.bytes_in + bytes <= full {
                c.bytes_in + bytes
            } else {
                full
            }
            &&& i.packets_out == c.packets_out && i.bytes_out == c.bytes_out
            &&& o.packets_out == if c.packets_out + 1 <= full {
                c.packets_out + 1
            } else {
                full
            }
            &&& o.bytes_out == if c.bytes_out + bytes <= full {
                c.bytes_out + bytes
            } else {
                full
            }
            &&& o.packets_in == c.packets_in && o.bytes_in == c.bytes_in
        }),
{
}

/// When another second begins, the counts of the one before join the sample at its end and
/// start at nothing. The sample keeps its order and the latest sixty seconds. The new
/// flows start at nothing with another minute. Nothing else changes.
pub proof fn seconds_join_the_sample(a: AccountView, t: u64)
    requires
        a.samples.len() <= 60,
    ensures
        ({
            let b = a.moved_on(t);
            &&& b.second == t
            &&& b.minute == t as int / 60
            &&& t == a.second ==> b.counts == a.counts && b.samples == a.samples
            &&& t != a.second ==> {
                &&& b.counts.packets_in == 0 && b.counts.bytes_in == 0 && b.counts.packets_out == 0
                    && b.counts.bytes_out == 0
                &&& b.samples.len() == if a.samples.len() < 60 {
                    a.samples.len() as int + 1
                } else {
                    60
                }
                &&& b.samples.last() == a.counts
                &&& forall|i: int|
                    1 <= i < b.samples.len() ==> b.samples[b.samples.len() - 1 - i]
                        == #[trigger] a.samples[a.samples.len() - i]
            }
            &&& b.new_flows == if a.minute == t as int / 60 {
                a.new_flows
            } else {
                0
            }
            &&& b.totals == a.totals && b.peaks == a.peaks && b.flows == a.flows && b.last_used
                == a.last_used && b.total_new_flows == a.total_new_flows && b.breaches == a.breaches
                && b.drops == a.drops && b.untracked == a.untracked && b.peak_flows == a.peak_flows
        }),
{
}

/// What a packet meets, and what comes of it. It counts with what its account had in the
/// same second, and opens a flow unless the flow was seen less than two minutes ago. It is
/// over a limit that is set if the second's packets or bytes then exceed it, or if it opens
/// a flow when the minute has as many as allowed. A packet over a limit is a breach. It is
/// refused if and only if the limits are enforced and it is over one, or its new flow finds
/// no place; and each refusal is counted.
#[verifier::rlimit(40)]
pub proof fn packets_are_judged_by_the_limits(
    policy: Policy,
    slots: int,
    flow_limit: usize,
    account: AccountView,
    out: bool,
    bytes: u64,
    flow: Option<Flow>,
    now: u64,
)
    requires
        account.flows.dom().finite(),
        account.counts.packets_in + account.counts.packets_out < u64::MAX,
        account.counts.bytes_in + account.counts.bytes_out + bytes <= u64::MAX,
    ensures
        ({
            let v = verdict(policy, slots, flow_limit, account, out, bytes, flow, now);
            let a = account.counts;
            let t = if now >= account.second {
                now
            } else {
                account.second
            };
            let packets = 1 + if t == account.second {
                a.packets_in + a.packets_out
            } else {
                0
            };
            let total = bytes + if t == account.second {
                a.bytes_in + a.bytes_out
            } else {
                0
            };
            let fresh = if t as int / 60 == account.minute {
                account.new_flows as int
            } else {
                0
            };
            let held = flow is Some && account.flows.contains_key(flow->Some_0);
            let known = held && t - account.flows[flow->Some_0] < 120;
            let opens = flow is Some && !known;
            let over = policy.packets > 0 && packets > policy.packets || policy.bytes > 0 && total
                > policy.bytes || opens && policy.new_flows > 0 && fresh >= policy.new_flows;
            let in_use = if held && !known {
                slots - 1
            } else {
                slots
            };
            let full = opens && in_use >= flow_limit;
            &&& v.allowed <==> !(policy.enforce && (over || full))
            &&& v.account.breaches == if over {
                next(account.breaches)
            } else {
                account.breaches
            }
            &&& v.account.drops == if v.allowed {
                account.drops
            } else {
                next(account.drops)
            }
            &&& v.account.untracked == if full && !(over && policy.enforce) {
                next(account.untracked)
            } else {
                account.untracked
            }
            &&& v.account.new_flows == if opens && v.allowed && !full {
                next(fresh as u64) as int
            } else {
                fresh
            }
            &&& v.account.total_new_flows == if opens && v.allowed && !full {
                next(account.total_new_flows)
            } else {
                account.total_new_flows
            }
            &&& v.slots == if opens && v.allowed && !full {
                in_use + 1
            } else {
                in_use
            }
            &&& flow is Some && v.allowed && !full ==> v.account.flows.contains_key(flow->Some_0)
                && v.account.flows[flow->Some_0] == t
            &&& opens && (!v.allowed || full) ==> !v.account.flows.contains_key(flow->Some_0)
            &&& v.account.second == t
            &&& v.account.last_used == if now >= account.last_used {
                now
            } else {
                account.last_used
            }
        }),
{
    let t = max_of(now, account.second);
    let m = account.flows;
    let a = account.judged(out, bytes, flow, now);
    if flow is Some {
        let f = flow->Some_0;
        if m.contains_key(f) {
            assert(m.remove(f).dom() =~= m.dom().remove(f));
            assert(m.dom().contains(f));
            assert(m.remove(f).dom().len() == m.dom().len() - 1);
        }
        assert(a.flows.dom().finite());
        assert(a.flows.insert(f, t).dom() =~= a.flows.dom().insert(f));
        if a.flows.contains_key(f) {
            assert(a.flows.dom().insert(f) =~= a.flows.dom());
        } else {
            assert(a.flows.insert(f, t).dom().len() == a.flows.dom().len() + 1);
        }
    }
}

/// No packet changes what is known of another flow of its account.
pub proof fn packets_touch_their_own_flow(
    policy: Policy,
    slots: int,
    flow_limit: usize,
    account: AccountView,
    out: bool,
    bytes: u64,
    flow: Option<Flow>,
    now: u64,
    other: Flow,
)
    requires
        flow != Some(other),
    ensures
        ({
            let v = verdict(policy, slots, flow_limit, account, out, bytes, flow, now);
            &&& v.account.flows.contains_key(other) <==> account.flows.contains_key(other)
            &&& account.flows.contains_key(other) ==> v.account.flows[other] == account.flows[other]
        }),
{
}

/// A peak is the most that a second has had: no second exceeds it in the packet's
/// direction, and it goes up only to a second's own count.
pub proof fn peaks_are_the_most_of_a_second(
    policy: Policy,
    slots: int,
    flow_limit: usize,
    account: AccountView,
    out: bool,
    bytes: u64,
    flow: Option<Flow>,
    now: u64,
)
    ensures
        ({
            let v = verdict(policy, slots, flow_limit, account, out, bytes, flow, now).account;
            let p = v.peaks;
            let q = account.peaks;
            &&& out ==> p.packets_out >= v.counts.packets_out && p.bytes_out >= v.counts.bytes_out
                && p.packets_in == q.packets_in && p.bytes_in == q.bytes_in
            &&& !out ==> p.packets_in >= v.counts.packets_in && p.bytes_in >= v.counts.bytes_in
                && p.packets_out == q.packets_out && p.bytes_out == q.bytes_out
            &&& p.packets_out == q.packets_out || p.packets_out == v.counts.packets_out && p.packets_out
                > q.packets_out
            &&& p.bytes_out == q.bytes_out || p.bytes_out == v.counts.bytes_out && p.bytes_out
                > q.bytes_out
            &&& p.packets_in == q.packets_in || p.packets_in == v.counts.packets_in && p.packets_in
                > q.packets_in
            &&& p.bytes_in == q.bytes_in || p.bytes_in == v.counts.bytes_in && p.bytes_in > q.bytes_in
            &&& v.peak_flows >= account.peak_flows
            &&& flow is Some && v.flows.contains_key(flow->Some_0) && v.flows[flow->Some_0] == v.second
                && v.total_new_flows != account.total_new_flows ==> v.peak_flows >= v.flows.dom().len()
        }),
{
}

/// Maintenance forgets an account ten minutes after its last packet, and of the others the
/// flows whose last packet is two minutes old; all else stays.
pub proof fn maintenance_forgets_what_is_idle(
    m: Map<Seq<char>, AccountView>,
    now: u64,
    name: Seq<char>,
    flow: Flow,
)
    ensures
        ({
            let after = maintained(m, now);
            let a = m[name];
            let b = after[name];
            &&& after.contains_key(name) <==> m.contains_key(name) && now < a.last_used + 600
            &&& after.contains_key(name) ==> {
                &&& b.flows.contains_key(flow) <==> a.flows.contains_key(flow) && now < a.flows[flow] + 120
                &&& b.flows.contains_key(flow) ==> b.flows[flow] == a.flows[flow]
                &&& b.counts == a.counts && b.totals == a.totals && b.peaks == a.peaks && b.samples
                    == a.samples
                &&& b.second == a.second && b.minute == a.minute && b.new_flows == a.new_flows
                    && b.total_new_flows == a.total_new_flows && b.peak_flows == a.peak_flows
                    && b.breaches == a.breaches && b.drops == a.drops && b.untracked == a.untracked
                    && b.last_used == a.last_used
            }
        }),
{
}

/// Without a session a packet is refused; a session that has shown no ticket has no budget.
/// Any other packet is judged for its session's user and for nobody else. One of a new
/// user for whom there is no place is only counted, and refused if the limits are enforced.
pub proof fn budgets_are_kept_by_user(
    before: Budgets,
    after: Budgets,
    allowed: bool,
    sessions: Map<u64, SessionView>,
    key: u64,
    out: bool,
    packet: Seq<u8>,
    now_secs: u64,
    other: Seq<char>,
)
    requires
        within_budget(before, after, allowed, sessions, key, out, packet, now_secs),
        packet.len() <= u64::MAX,
    ensures
        ({
            let user = sessions[key].user_id;
            let judged = sessions.contains_key(key) && sessions[key].auth_state
                == SessionAuthState::Authenticated;
            let known = before@.contains_key(user);
            let crowded = !known && before@.dom().len() >= before.account_limit;
            &&& !sessions.contains_key(key) ==> !allowed
            &&& sessions.contains_key(key) && !judged ==> allowed
            &&& !judged ==> after == before
            &&& other != user ==> (after@.contains_key(other) <==> before@.contains_key(other))
            &&& other != user && before@.contains_key(other) ==> after@[other] == before@[other]
            &&& judged && crowded ==> allowed == !before.policy.enforce && after@ == before@
                && after.capacity_packets == next(before.capacity_packets)
            &&& judged && crowded ==> after.capacity_drops == if allowed {
                before.capacity_drops
            } else {
                next(before.capacity_drops)
            }
            &&& judged && !crowded ==> {
                let start = if known {
                    before@[user].totals
                } else {
                    Counts { packets_in: 0, bytes_in: 0, packets_out: 0, bytes_out: 0 }
                };
                &&& after@.contains_key(user)
                &&& after@[user].totals == start.with(out, packet.len() as u64)
                &&& after.capacity_packets == before.capacity_packets
                &&& after.capacity_drops == before.capacity_drops
                &&& out && known ==> after@[user].flows == before@[user].flows
            }
            &&& after.policy == before.policy
        }),
{
}

/// What is shown of an account is what it holds.
pub proof fn accounts_show_their_fields(a: Account)
    ensures
        a@.second == a.second && a@.minute == a.minute && a@.counts == a.counts && a@.totals == a.totals
            && a@.peaks == a.peaks && a@.samples == a.samples@ && a@.new_flows == a.new_flows,
        a@.total_new_flows == a.total_new_flows && a@.peak_flows == a.peak_flows && a@.breaches == a.breaches
            && a@.drops == a.drops && a@.untracked == a.untracked && a@.flows == a.flows@ && a@.last_used
            == a.last_used,
{
}

/// A report has the account's own figures: those of this minute only while it is this
/// minute, and the flows that were seen in the last two minutes.
pub proof fn rows_report_their_account(row: AccountRow, name: Seq<char>, a: AccountView, now: u64)
    requires
        reports(row, name, a, now),
    ensures
        row.account@ == name,
        row.totals == a.totals && row.peak_per_second == a.peaks,
        row.total_new_flows == a.total_new_flows && row.peak_tracked_flows == a.peak_flows,
        row.budget_breaches == a.breaches && row.dropped_packets == a.drops && row.untracked_flow_packets
            == a.untracked,
        a.minute == now as int / 60 ==> row.new_flows_this_minute == a.new_flows,
        a.minute != now as int / 60 ==> row.new_flows_this_minute == 0,
        row.flows_seen_within_120s == a.flows.dom().filter(|f: Flow| now < a.flows[f] + 120).len(),
{
    assert(recent(a.flows, now).dom() =~= a.flows.dom().filter(|f: Flow| now < a.flows[f] + 120));
}

/// The 95th percentile is one of the values; at least 95 of 100 of the values are no larger,
/// and fewer than 95 of 100 are smaller.
pub proof fn most_values_are_no_larger_than_the_percentile(values: Seq<u64>, r: u64)
    requires
        values.len() > 0,
        is_p95(values, r),
    ensures
        values.contains(r),
        values.filter(|x: u64| x <= r).len() * 100 >= values.len() * 95,
        values.filter(|x: u64| x < r).len() * 100 < values.len() * 95,
{
    let n = values.len() as int;
    let k = (values.len() * 95 + 99) / 100 - 1;
    let s = choose|s: Seq<u64>|
        ascending(s) && #[trigger] s.to_multiset() == values.to_multiset() && r == s[(values.len() * 95
            + 99) / 100 - 1];
    s.to_multiset_ensures();
    values.to_multiset_ensures();
    assert(s.len() == n);
    assert(0 <= k < n);
    assert(s.contains(s[k]));
    assert(values.to_multiset().count(r) > 0);
    let le = |x: u64| x <= r;
    let lt = |x: u64| x < r;
    lemma_filter_len(s, le);
    lemma_filter_len(values, le);
    lemma_filter_len(s, lt);
    lemma_filter_len(values, lt);
    assert forall|i: int| 0 <= i < k + 1 implies le(#[trigger] s[i]) by {
        if i < k {
            assert(s[i] <= s[k]);
        }
    }
    assert forall|i: int| k <= i < s.len() implies !lt(#[trigger] s[i]) by {
        if k < i {
            assert(s[k] <= s[i]);
        }
    }
    lemma_filter_at_least(s, le, k + 1);
    lemma_filter_at_most(s, lt, k);
}

proof fn lemma_filter_len(s: Seq<u64>, p: spec_fn(u64) -> bool)
    ensures
        s.filter(p).len() == s.to_multiset().filter(p).len(),
    decreases s.len(),
{
    reveal(Seq::filter);
    s.to_multiset_ensures();
    if s.len() == 0 {
        assert(s.to_multiset().filter(p) =~= vstd::multiset::Multiset::empty());
    } else {
        let d = s.drop_last();
        let x = s.last();
        lemma_filter_len(d, p);
        d.to_multiset_ensures();
        assert(d.push(x) =~= s);
        assert(s.to_multiset() =~= d.to_multiset().insert(x));
        if p(x) {
            assert(s.to_multiset().filter(p) =~= d.to_multiset().filter(p).insert(x));
        } else {
            assert(s.to_multiset().filter(p) =~= d.to_multiset().filter(p));
        }
    }
}

proof fn lemma_filter_at_least(s: Seq<u64>, p: spec_fn(u64) -> bool, k: int)
    requires
        0 <= k <= s.len(),
        forall|i: int| 0 <= i < k ==> p(#[trigger] s[i]),
    ensures
        s.filter(p).len() >= k,
    decreases s.len(),
{
    reveal(Seq::filter);
    if s.len() > 0 {
        let d = s.drop_last();
        assert forall|i: int| 0 <= i < k && i < d.len() implies p(#[trigger] d[i]) by {
            assert(d[i] == s[i]);
        }
        if k == s.len() {
            assert(p(s[k - 1]));
            lemma_filter_at_least(d, p, k - 1);
        } else {
            lemma_filter_at_least(d, p, k);
        }
    }
}

proof fn lemma_filter_at_most(s: Seq<u64>, p: spec_fn(u64) -> bool, k: int)
    requires
        0 <= k <= s.len(),
        forall|i: int| k <= i < s.len() ==> !p(#[trigger] s[i]),
    ensures
        s.filter(p).len() <= k,
    decreases s.len(),
{
    reveal(Seq::filter);
    if s.len() > 0 {
        let d = s.drop_last();
        assert forall|i: int| k <= i < d.len() implies !p(#[trigger] d[i]) by {
            assert(d[i] == s[i]);
        }
        if k == s.len() {
            lemma_filter_at_most(d, p, k - 1);
        } else {
            assert(!p(s[s.len() - 1]));
            lemma_filter_at_most(d, p, k);
        }
    }
}

/// The percentiles of an account are taken counter by counter over the seconds of its
/// sample and the current one.
pub proof fn percentiles_are_taken_by_counter(a: AccountView, r: Counts, i: int)
    requires
        p95_counts(a, r),
        0 <= i <= a.samples.len(),
    ensures
        ({
            let c = if i < a.samples.len() {
                a.samples[i]
            } else {
                a.counts
            };
            let p = series(a, Counter::PacketsIn);
            let q = series(a, Counter::BytesIn);
            let s = series(a, Counter::PacketsOut);
            let t = series(a, Counter::BytesOut);
            &&& p.len() == a.samples.len() + 1 && q.len() == p.len() && s.len() == p.len() && t.len()
                == p.len()
            &&& p[i] == c.packets_in && q[i] == c.bytes_in && s[i] == c.packets_out && t[i] == c.bytes_out
            &&& is_p95(p, r.packets_in) && is_p95(q, r.bytes_in) && is_p95(s, r.packets_out) && is_p95(
                t,
                r.bytes_out,
            )
        }),
{
}

/// A report has the limits under their own names and says whether they are enforced. It has
/// each account once, and no other.
pub proof fn reports_have_every_account_once(
    r: BudgetsSnapshot,
    b: Budgets,
    now: u64,
    i: int,
    j: int,
    name: Seq<char>,
)
    requires
        reports_budgets(r, b, now),
    ensures
        b.policy.enforce ==> r.mode@ == "enforce"@,
        !b.policy.enforce ==> r.mode@ == "observe"@,
        r.packets_per_second == b.policy.packets && r.bytes_per_second == b.policy.bytes
            && r.new_flows_per_minute == b.policy.new_flows,
        r.untracked_account_packets == b.capacity_packets && r.capacity_dropped_packets
            == b.capacity_drops,
        0 <= i < r.accounts@.len() && 0 <= j < r.accounts@.len() && r.accounts@[i].account@
            == r.accounts@[j].account@ ==> i == j,
        0 <= i < r.accounts@.len() ==> b@.contains_key(r.accounts@[i].account@)
            && r.accounts@[i].dropped_packets == b@[r.accounts@[i].account@].drops,
        b@.contains_key(name) ==> exists|k: int|
            0 <= k < r.accounts@.len() && (#[trigger] r.accounts@[k]).account@ == name,
{
    if 0 <= i < r.accounts@.len() && 0 <= j < r.accounts@.len() {
        if i < j {
            assert(r.accounts@[i].account@ != r.accounts@[j].account@);
        }
        if j < i {
            assert(r.accounts@[j].account@ != r.accounts@[i].account@);
        }
    }
}

/// Each limit is that of its own setting, and the limits are enforced if the mode is the
/// word `enforce`, as it stands, and only then.
pub proof fn policies_follow_their_settings(
    mode: Option<Seq<char>>,
    p: u64,
    b: u64,
    f: u64,
)
    ensures
        ({
            let r = policy_of(
                mode,
                Some(decimal(p as nat)),
                Some(decimal(b as nat)),
                Some(decimal(f as nat)),
            );
            &&& r.packets == p && r.bytes == b && r.new_flows == f
            &&& r.enforce <==> mode is Some && mode->Some_0 == "enforce"@
        }),
        policy_of(None, None, None, None).packets == 0,
        policy_of(None, None, None, None).bytes == 0,
        policy_of(None, None, None, None).new_flows == 0,
        !policy_of(None, None, None, None).enforce,
{
    limits_are_numbers(p, Seq::empty(), 0);
    limits_are_numbers(b, Seq::empty(), 0);
    limits_are_numbers(f, Seq::empty(), 0);
}

} // verus!
