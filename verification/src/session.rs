//! Sessions: who uses the relay, from which endpoint, and until when.

use crate::addr::{ip_key, lemma_ip_key_injective, session_key, IpAddr, SocketAddr};
use crate::auth::{hex, push_hex, session_texts_tell_sessions_apart, SessionAuthState};
use crate::bytes::be64;
use crate::limits::{MAX_SESSIONS_PER_SRC_IP, MAX_SESSIONS_TOTAL};
use crate::source::{
    count_in, decremented, incremented, rebound, source_session_count, SourceSessionCounts,
};
use crate::stats::{DropReason, Stats};
use dashmap::DashMap;
use vstd::prelude::*;
use vstd::string::*;

verus! {

/// A session. `last_activity` is nanoseconds of a monotonic clock.
pub struct SessionEntry {
    pub user_id: String,
    pub auth_state: SessionAuthState,
    /// When the session has to show a new ticket, if its ticket is a lease.
    pub lease_expires_at_unix: Option<u64>,
    pub client_addr: SocketAddr,
    pub created_at_unix: u64,
    pub last_activity: u64,
    pub last_activity_unix: u64,
}

/// The content of a [`SessionEntry`].
pub ghost struct SessionView {
    pub user_id: Seq<char>,
    pub auth_state: SessionAuthState,
    pub lease_expires_at_unix: Option<u64>,
    pub client_addr: SocketAddr,
    pub created_at_unix: u64,
    pub last_activity: u64,
    pub last_activity_unix: u64,
}

impl SessionView {
    /// Whether the session's ticket holds at `now_unix`.
    pub open spec fn current(self, now_unix: u64) -> bool {
        self.auth_state == SessionAuthState::Authenticated && match self.lease_expires_at_unix {
            Some(expires_at) => now_unix < expires_at,
            None => true,
        }
    }

    /// The session with activity now.
    pub open spec fn active(self, now: u64, now_unix: u64) -> SessionView {
        SessionView { last_activity: now, last_activity_unix: now_unix, ..self }
    }

    /// The session at another endpoint.
    pub open spec fn at(self, client_addr: SocketAddr) -> SessionView {
        SessionView { client_addr, ..self }
    }
}

impl SessionEntry {
    pub open spec fn view(self) -> SessionView {
        SessionView {
            user_id: self.user_id@,
            auth_state: self.auth_state,
            lease_expires_at_unix: self.lease_expires_at_unix,
            client_addr: self.client_addr,
            created_at_unix: self.created_at_unix,
            last_activity: self.last_activity,
            last_activity_unix: self.last_activity_unix,
        }
    }

    pub fn copy(&self) -> (r: SessionEntry)
        ensures
            r@ == self@,
    {
        SessionEntry {
            user_id: self.user_id.clone(),
            auth_state: self.auth_state,
            lease_expires_at_unix: self.lease_expires_at_unix,
            client_addr: self.client_addr,
            created_at_unix: self.created_at_unix,
            last_activity: self.last_activity,
            last_activity_unix: self.last_activity_unix,
        }
    }
}

/// Whether the session's ticket holds.
pub fn session_auth_is_current(session: &SessionEntry, now_unix: u64) -> (r: bool)
    ensures
        r == session@.current(now_unix),
{
    match session.auth_state {
        SessionAuthState::Legacy => false,
        SessionAuthState::Authenticated => match session.lease_expires_at_unix {
            Some(expires_at) => now_unix < expires_at,
            None => true,
        },
    }
}

/// Whether a frame may come from this address: where tickets are needed, a session
/// that has shown one is bound to its address, except to show another.
pub open spec fn source_allowed(
    session: SessionView,
    auth_required: bool,
    client_addr: SocketAddr,
    is_auth_hello: bool,
) -> bool {
    !auth_required || session.auth_state != SessionAuthState::Authenticated || is_auth_hello
        || session.client_addr.ip == client_addr.ip
}

pub fn authenticated_session_source_allowed(
    session: &SessionEntry,
    auth_required: bool,
    client_addr: SocketAddr,
    is_auth_hello: bool,
) -> (r: bool)
    ensures
        r == source_allowed(session@, auth_required, client_addr, is_auth_hello),
{
    if !auth_required || session.auth_state != SessionAuthState::Authenticated {
        return true;
    }
    is_auth_hello || session.client_addr.ip == client_addr.ip
}

/// The name of a session's user until a better one is known.
pub open spec fn default_user_id(key: nat) -> Seq<char> {
    "session-"@ + hex(key, 16)
}

pub fn derive_user_id(session_id: [u8; 8]) -> (r: String)
    ensures
        r@ == default_user_id(be64(session_id@) as nat),
{
    let mut s = String::new();
    s.append("session-");
    push_hex(&mut s, session_key(&session_id), 16);
    assert(s@ =~= default_user_id(be64(session_id@) as nat));
    s
}

/// What a map from session keys to sessions holds.
pub uninterp spec fn sessions_of(m: DashMap<u64, SessionEntry>) -> Map<u64, SessionEntry>;

/// `DashMap::new`: the map is empty.
#[verifier::external_body]
fn new_sessions() -> (r: DashMap<u64, SessionEntry>)
    ensures
        sessions_of(r) == (Map::<u64, SessionEntry>::empty()),
{
    DashMap::new()
}

/// `DashMap::len`: the number of entries.
#[verifier::external_body]
fn count_sessions(m: &DashMap<u64, SessionEntry>) -> (r: usize)
    ensures
        r == sessions_of(*m).dom().len(),
{
    m.len()
}

/// `DashMap::contains_key`: whether there is an entry for the key.
#[verifier::external_body]
fn has_session(m: &DashMap<u64, SessionEntry>, key: u64) -> (r: bool)
    ensures
        r == sessions_of(*m).contains_key(key),
{
    m.contains_key(&key)
}

/// `DashMap::view`, with [`SessionEntry::copy`]: the session under `key`, if there is
/// one.
#[verifier::external_body]
fn view_session(m: &DashMap<u64, SessionEntry>, key: u64) -> (r: Option<SessionEntry>)
    ensures
        match r {
            Some(session) => sessions_of(*m).contains_key(key) && session@ == sessions_of(*m)[key]@,
            None => !sessions_of(*m).contains_key(key),
        },
{
    m.view(&key, |_, session| session.copy())
}

/// `DashMap::remove`: the session under `key` comes out of the map, if there is one.
#[verifier::external_body]
fn take_session(m: &mut DashMap<u64, SessionEntry>, key: u64) -> (r: Option<SessionEntry>)
    ensures
        sessions_of(*final(m)) == sessions_of(*old(m)).remove(key),
        r == if sessions_of(*old(m)).contains_key(key) {
            Some(sessions_of(*old(m))[key])
        } else {
            None
        },
{
    m.remove(&key).map(|e| e.1)
}

/// `DashMap::insert`: the session under `key` becomes `session`.
#[verifier::external_body]
fn put_session(m: &mut DashMap<u64, SessionEntry>, key: u64, session: SessionEntry)
    ensures
        sessions_of(*final(m)) == sessions_of(*old(m)).insert(key, session),
{
    m.insert(key, session);
}

/// `DashMap::iter`, the keys alone: each key once, in no stated order.
#[verifier::external_body]
fn list_sessions(m: &DashMap<u64, SessionEntry>) -> (r: Vec<u64>)
    ensures
        r@.no_duplicates(),
        forall|key: u64| r@.contains(key) <==> sessions_of(*m).contains_key(key),
{
    m.iter().map(|e| *e.key()).collect()
}

/// All sessions, by the number that their id stands for.
pub struct SessionTable {
    pub sessions: DashMap<u64, SessionEntry>,
}

impl SessionTable {
    pub open spec fn view(self) -> Map<u64, SessionView> {
        sessions_of(self.sessions).map_values(|s: SessionEntry| s@)
    }

    pub fn new() -> (r: SessionTable)
        ensures
            r@ == (Map::<u64, SessionView>::empty()),
    {
        let r = SessionTable { sessions: new_sessions() };
        assert(r@ =~= Map::<u64, SessionView>::empty());
        r
    }

    pub fn len(&self) -> (r: usize)
        ensures
            r == self@.dom().len(),
    {
        assert(self@.dom() =~= sessions_of(self.sessions).dom());
        count_sessions(&self.sessions)
    }

    pub fn contains(&self, key: u64) -> (r: bool)
        ensures
            r == self@.contains_key(key),
    {
        has_session(&self.sessions, key)
    }

    pub fn get(&self, key: u64) -> (r: Option<SessionEntry>)
        ensures
            match r {
                Some(session) => self@.contains_key(key) && session@ == self@[key],
                None => !self@.contains_key(key),
            },
    {
        view_session(&self.sessions, key)
    }

    pub fn take(&mut self, key: u64) -> (r: Option<SessionEntry>)
        ensures
            final(self)@ == old(self)@.remove(key),
            match r {
                Some(session) => old(self)@.contains_key(key) && session@ == old(self)@[key],
                None => !old(self)@.contains_key(key) && final(self)@ == old(self)@,
            },
    {
        let ghost before = self@;
        let r = take_session(&mut self.sessions, key);
        assert(self@ =~= before.remove(key));
        assert(r is None ==> before.remove(key) =~= before);
        r
    }

    pub fn put(&mut self, key: u64, session: SessionEntry)
        ensures
            final(self)@ == old(self)@.insert(key, session@),
    {
        let ghost before = self@;
        let ghost view = session@;
        put_session(&mut self.sessions, key, session);
        assert(self@ =~= before.insert(key, view));
    }

    pub fn keys(&self) -> (r: Vec<u64>)
        ensures
            r@.no_duplicates(),
            forall|key: u64| r@.contains(key) <==> self@.contains_key(key),
    {
        list_sessions(&self.sessions)
    }
}

/// Whether there is room for another session, in all and of this source.
pub open spec fn room_for_session(
    sessions: Map<u64, SessionView>,
    counts: Map<(u8, u128), u64>,
    ip: IpAddr,
) -> bool {
    sessions.dom().len() < MAX_SESSIONS_TOTAL && count_in(counts, ip) < MAX_SESSIONS_PER_SRC_IP
}

/// Whether there is room for another session of the source; a refusal is counted.
pub fn v1_session_capacity_available(
    sessions: &SessionTable,
    source_session_counts: &SourceSessionCounts,
    stats: &mut Stats,
    source_ip: IpAddr,
) -> (r: bool)
    ensures
        r == room_for_session(sessions@, source_session_counts@, source_ip),
        *final(stats) == if r {
            *old(stats)
        } else {
            old(stats).with_drop_in(DropReason::Capacity)
        },
{
    if sessions.len() >= MAX_SESSIONS_TOTAL {
        stats.drop_in(DropReason::Capacity);
        return false;
    }
    if source_session_count(source_session_counts, source_ip) >= MAX_SESSIONS_PER_SRC_IP as u64 {
        stats.drop_in(DropReason::Capacity);
        return false;
    }
    true
}

/// The sessions of a source.
pub open spec fn sessions_from(m: Map<u64, SessionView>, ip: IpAddr) -> Set<u64> {
    Set::new(|key: u64| m.contains_key(key) && m[key].client_addr.ip == ip)
}

/// Whether the counts are those of the sessions, source by source.
pub open spec fn counts_match(m: Map<u64, SessionView>, counts: Map<(u8, u128), u64>) -> bool {
    forall|ip: IpAddr| #[trigger] count_in(counts, ip) == sessions_from(m, ip).len()
}

/// A session put into the table belongs to its source.
proof fn lemma_sessions_from_insert(m: Map<u64, SessionView>, key: u64, s: SessionView, ip: IpAddr)
    requires
        m.dom().finite(),
    ensures
        sessions_from(m, ip).finite(),
        sessions_from(m, ip).len() <= m.dom().len(),
        sessions_from(m.insert(key, s), ip).len() == sessions_from(m.remove(key), ip).len() + if s.client_addr.ip
            == ip {
            1int
        } else {
            0
        },
        sessions_from(m, ip).len() == sessions_from(m.remove(key), ip).len() + if m.contains_key(key)
            && m[key].client_addr.ip == ip {
            1int
        } else {
            0
        },
{
    let rest = sessions_from(m.remove(key), ip);
    assert(rest.subset_of(m.dom()));
    vstd::set_lib::lemma_len_subset(rest, m.dom());
    let whole = sessions_from(m, ip);
    assert(whole.subset_of(m.dom()));
    vstd::set_lib::lemma_len_subset(whole, m.dom());
    let with = sessions_from(m.insert(key, s), ip);
    if s.client_addr.ip == ip {
        assert(with =~= rest.insert(key));
    } else {
        assert(with =~= rest);
    }
    if m.contains_key(key) && m[key].client_addr.ip == ip {
        assert(whole =~= rest.insert(key));
    } else {
        assert(whole =~= rest);
    }
}

/// Counting a new session keeps the counts right.
pub proof fn lemma_counts_open(
    m: Map<u64, SessionView>,
    counts: Map<(u8, u128), u64>,
    key: u64,
    s: SessionView,
)
    requires
        m.dom().finite(),
        m.dom().len() < u64::MAX,
        !m.contains_key(key),
        counts_match(m, counts),
    ensures
        counts_match(m.insert(key, s), incremented(counts, s.client_addr.ip)),
{
    let ip0 = s.client_addr.ip;
    let after = incremented(counts, ip0);
    assert forall|ip: IpAddr| #[trigger] count_in(after, ip) == sessions_from(m.insert(key, s), ip).len() by {
        lemma_sessions_from_insert(m, key, s, ip);
        assert(count_in(counts, ip) == sessions_from(m, ip).len());
        if ip != ip0 && ip_key(ip) == ip_key(ip0) {
            lemma_ip_key_injective(ip, ip0);
        }
    }
}

/// Counting a session that is over keeps the counts right.
pub proof fn lemma_counts_close(m: Map<u64, SessionView>, counts: Map<(u8, u128), u64>, key: u64)
    requires
        m.dom().finite(),
        m.dom().len() <= u64::MAX,
        m.contains_key(key),
        counts_match(m, counts),
    ensures
        counts_match(m.remove(key), decremented(counts, m[key].client_addr.ip)),
{
    let ip0 = m[key].client_addr.ip;
    let after = decremented(counts, ip0);
    assert forall|ip: IpAddr| #[trigger] count_in(after, ip) == sessions_from(m.remove(key), ip).len() by {
        lemma_sessions_from_insert(m, key, m[key], ip);
        lemma_sessions_from_insert(m, key, m[key], ip0);
        assert(count_in(counts, ip) == sessions_from(m, ip).len());
        assert(count_in(counts, ip0) == sessions_from(m, ip0).len());
        if ip != ip0 && ip_key(ip) == ip_key(ip0) {
            lemma_ip_key_injective(ip, ip0);
        }
    }
}

/// Counting a session that moves to another endpoint keeps the counts right.
pub proof fn lemma_counts_rebind(
    m: Map<u64, SessionView>,
    counts: Map<(u8, u128), u64>,
    key: u64,
    s: SessionView,
)
    requires
        m.dom().finite(),
        m.dom().len() <= u64::MAX,
        m.contains_key(key),
        counts_match(m, counts),
    ensures
        counts_match(m.insert(key, s), rebound(counts, m[key].client_addr.ip, s.client_addr.ip)),
{
    let ip0 = m[key].client_addr.ip;
    let ip1 = s.client_addr.ip;
    if ip0 == ip1 {
        assert forall|ip: IpAddr| #[trigger] count_in(counts, ip) == sessions_from(
            m.insert(key, s),
            ip,
        ).len() by {
            lemma_sessions_from_insert(m, key, s, ip);
            assert(count_in(counts, ip) == sessions_from(m, ip).len());
        }
    } else {
        lemma_counts_close(m, counts, key);
        lemma_counts_open(m.remove(key), decremented(counts, ip0), key, s);
        assert(m.remove(key).insert(key, s) =~= m.insert(key, s));
    }
}

/// The content of an entry is that of its fields, each under its own name.
pub proof fn entries_show_their_fields(s: SessionEntry)
    ensures
        s@.user_id == s.user_id@,
        s@.auth_state == s.auth_state,
        s@.lease_expires_at_unix == s.lease_expires_at_unix,
        s@.client_addr == s.client_addr,
        s@.created_at_unix == s.created_at_unix,
        s@.last_activity == s.last_activity,
        s@.last_activity_unix == s.last_activity_unix,
{
}

/// A ticket holds from when it was shown, for good or until its lease ends; a session
/// that has shown none never has one that holds.
pub proof fn tickets_hold_until_their_lease_ends(s: SessionView, now_unix: u64)
    ensures
        s.auth_state == SessionAuthState::Legacy ==> !s.current(now_unix),
        s.auth_state == SessionAuthState::Authenticated && s.lease_expires_at_unix is None ==> s.current(
            now_unix,
        ),
        s.auth_state == SessionAuthState::Authenticated && s.lease_expires_at_unix is Some ==> (s.current(
            now_unix,
        ) <==> now_unix < s.lease_expires_at_unix->Some_0),
{
}

/// There is room for another session below 65536 in all and below 512 of its source.
pub proof fn room_is_below_both_limits(
    sessions: Map<u64, SessionView>,
    counts: Map<(u8, u128), u64>,
    ip: IpAddr,
)
    ensures
        room_for_session(sessions, counts, ip) <==> sessions.dom().len() < 65_536 && count_in(counts, ip)
            < 512,
{
}

/// Where tickets are needed, a session that has shown one takes frames from its own
/// address alone, hellos excepted; everything else may come from anywhere.
pub proof fn sources_are_bound_by_a_ticket(
    s: SessionView,
    auth_required: bool,
    client_addr: SocketAddr,
    is_auth_hello: bool,
)
    ensures
        !source_allowed(s, auth_required, client_addr, is_auth_hello) <==> auth_required && s.auth_state
            == SessionAuthState::Authenticated && !is_auth_hello && s.client_addr.ip != client_addr.ip,
{
}

/// Sessions without a ticket have different users.
pub proof fn open_sessions_have_their_own_user(x: u64, y: u64)
    ensures
        default_user_id(x as nat).len() == 24,
        default_user_id(x as nat).subrange(0, 8) == "session-"@,
        default_user_id(x as nat) == default_user_id(y as nat) ==> x == y,
{
    reveal_strlit("session-");
    let a = default_user_id(x as nat);
    let b = default_user_id(y as nat);
    session_texts_tell_sessions_apart(x, y);
    session_texts_tell_sessions_apart(y, x);
    assert(a.subrange(0, 8) =~= "session-"@);
    assert(a.subrange(8, 24) =~= hex(x as nat, 16));
    assert(b.subrange(8, 24) =~= hex(y as nat, 16));
}

} // verus!
