//! The TUN address table: which session owns which address of `10.200.0.0/16`, and
//! what happens to a packet on its way into and out of the device.

use crate::addr::{
    ipv4_at, ipv4_of, lemma_bits_of_ipv4, lemma_ipv4_bits_injective, lemma_session_key_injective,
    read_ipv4, session_id_of, session_key, Ipv4Addr, SocketAddr,
};
use crate::bytes::be64;
use crate::rewrite::{
    rewrite_dst_ip, rewrite_src_ip, rewriting_keeps_everything_else, rewritten, IPPROTO_TCP, IPPROTO_UDP, IP_DST_OFFSET,
    IP_HEADER_MIN, IP_SRC_OFFSET,
};
use dashmap::DashMap;
use vstd::prelude::*;

verus! {

/// A packet to send back to a client.
pub struct TxPacket {
    pub session_id: [u8; 8],
    pub client_addr: SocketAddr,
    pub ip_packet: Vec<u8>,
}

/// An IPv4 packet that a client sent through the tunnel.
pub struct InboundTunPacket {
    pub session_id: [u8; 8],
    pub client_addr: SocketAddr,
    pub raw_ip_packet: Vec<u8>,
}

/// Who owns an address of the device's network.
#[derive(Clone, Copy)]
pub struct SessionMapping {
    pub session_id: [u8; 8],
    pub client_addr: SocketAddr,
    pub original_src_ip: Ipv4Addr,
}

/// `dashmap::DashMap`, a hash map; its contents are named for each pair of types that
/// the library uses.
#[verifier::external_type_specification]
#[verifier::external_body]
#[verifier::reject_recursive_types(K)]
#[verifier::reject_recursive_types(V)]
#[verifier::reject_recursive_types(S)]
pub struct ExDashMap<K, V, S>(dashmap::DashMap<K, V, S>);

/// What a map from device addresses to sessions holds.
pub uninterp spec fn routes_of(m: DashMap<u32, SessionMapping>) -> Map<u32, SessionMapping>;

/// What a map from session keys to device addresses holds.
pub uninterp spec fn addrs_of(m: DashMap<u64, u32>) -> Map<u64, u32>;

/// `DashMap::new`: the map is empty.
#[verifier::external_body]
fn new_routes() -> (r: DashMap<u32, SessionMapping>)
    ensures
        routes_of(r) == (Map::<u32, SessionMapping>::empty()),
{
    DashMap::new()
}

/// `DashMap::get`, copied out: the value under `ip`, if there is one.
#[verifier::external_body]
fn get_route(m: &DashMap<u32, SessionMapping>, ip: u32) -> (r: Option<SessionMapping>)
    ensures
        r == if routes_of(*m).contains_key(ip) {
            Some(routes_of(*m)[ip])
        } else {
            None
        },
{
    m.get(&ip).map(|e| *e)
}

/// `DashMap::insert`: the value under `ip` becomes `v`.
#[verifier::external_body]
fn insert_route(m: &mut DashMap<u32, SessionMapping>, ip: u32, v: SessionMapping)
    ensures
        routes_of(*final(m)) == routes_of(*old(m)).insert(ip, v),
{
    m.insert(ip, v);
}

/// `DashMap::remove`: nothing is left under `ip`.
#[verifier::external_body]
fn remove_route(m: &mut DashMap<u32, SessionMapping>, ip: u32)
    ensures
        routes_of(*final(m)) == routes_of(*old(m)).remove(ip),
{
    m.remove(&ip);
}

/// `DashMap::new`: the map is empty.
#[verifier::external_body]
fn new_addrs() -> (r: DashMap<u64, u32>)
    ensures
        addrs_of(r) == (Map::<u64, u32>::empty()),
{
    DashMap::new()
}

/// `DashMap::get`, copied out: the value under `key`, if there is one.
#[verifier::external_body]
fn get_addr(m: &DashMap<u64, u32>, key: u64) -> (r: Option<u32>)
    ensures
        r == if addrs_of(*m).contains_key(key) {
            Some(addrs_of(*m)[key])
        } else {
            None
        },
{
    m.get(&key).map(|e| *e)
}

/// `DashMap::insert`: the value under `key` becomes `v`.
#[verifier::external_body]
fn insert_addr(m: &mut DashMap<u64, u32>, key: u64, v: u32)
    ensures
        addrs_of(*final(m)) == addrs_of(*old(m)).insert(key, v),
{
    m.insert(key, v);
}

/// `DashMap::remove`: nothing is left under `key`.
#[verifier::external_body]
fn remove_addr(m: &mut DashMap<u64, u32>, key: u64)
    ensures
        addrs_of(*final(m)) == addrs_of(*old(m)).remove(key),
{
    m.remove(&key);
}

/// `DashMap::iter`, the keys alone: each key once, in no stated order.
#[verifier::external_body]
fn addr_keys(m: &DashMap<u64, u32>) -> (r: Vec<u64>)
    ensures
        r@.no_duplicates(),
        forall|key: u64| r@.contains(key) <==> addrs_of(*m).contains_key(key),
{
    m.iter().map(|e| *e.key()).collect()
}

/// The two directions of the address table.
pub struct TunSessionCleanup {
    /// From a device address to the session that uses it.
    pub ip_to_session: DashMap<u32, SessionMapping>,
    /// From a session to its device address.
    pub session_to_ip: DashMap<u64, u32>,
}

impl TunSessionCleanup {
    pub open spec fn routes(self) -> Map<u32, SessionMapping> {
        routes_of(self.ip_to_session)
    }

    pub open spec fn addrs(self) -> Map<u64, u32> {
        addrs_of(self.session_to_ip)
    }

    /// Forgets every session for which `session_alive` answers no, with the route
    /// under its address.
    pub fn remove_expired<F: Fn(&[u8; 8]) -> bool>(&mut self, session_alive: F)
        requires
            forall|id: [u8; 8]| call_requires(session_alive, (&id,)),
        ensures
            expired_forgotten(*old(self), *final(self), session_alive),
    {
        let ghost start = self.addrs();
        let ghost routes = self.routes();
        let keys = addr_keys(&self.session_to_ip);
        let mut i: usize = 0;
        assert(self.routes() =~= routes.remove_keys(freed(start, self.addrs())));
        assert forall|j: int| 0 <= j < keys.len() implies start.contains_key(#[trigger] keys[j]) by {
            assert(keys@.contains(keys@[j]));
        }
        while i < keys.len()
            invariant
                i <= keys.len(),
                keys@.no_duplicates(),
                forall|key: u64| keys@.contains(key) <==> start.contains_key(key),
                forall|id: [u8; 8]| call_requires(session_alive, (&id,)),
                forall|key: u64| #[trigger]
                    self.addrs().contains_key(key) ==> start.contains_key(key)
                        && self.addrs()[key] == start[key],
                forall|j: int| i <= j < keys.len() ==> self.addrs().contains_key(#[trigger] keys[j]),
                forall|j: int|
                    0 <= j < i ==> answered(
                        session_alive,
                        #[trigger] keys[j],
                        self.addrs().contains_key(keys[j]),
                    ),
                self.routes() == routes.remove_keys(freed(start, self.addrs())),
            decreases keys.len() - i,
        {
            let key: u64 = keys[i];
            let id: [u8; 8] = session_id_of(key);
            let ghost before = self.addrs();
            assert(keys@.contains(key));
            let alive: bool = session_alive(&id);
            assert(answered(session_alive, key, alive));
            if !alive {
                if let Some(ip) = get_addr(&self.session_to_ip, key) {
                    remove_route(&mut self.ip_to_session, ip);
                    remove_addr(&mut self.session_to_ip, key);
                    proof {
                        assert(freed(start, self.addrs()) =~= freed(start, before).insert(ip)) by {
                            assert forall|x: u32| #[trigger]
                                freed(start, self.addrs()).contains(x) implies freed(
                                start,
                                before,
                            ).insert(ip).contains(x) by {
                                let k = choose|k: u64| #[trigger]
                                    start.contains_key(k) && !self.addrs().contains_key(k) && start[k]
                                        == x;
                                if k != key {
                                    assert(!before.contains_key(k));
                                }
                            }
                            assert forall|x: u32| #[trigger]
                                freed(start, before).insert(ip).contains(x) implies freed(
                                start,
                                self.addrs(),
                            ).contains(x) by {
                                if x == ip {
                                    assert(start.contains_key(key) && !self.addrs().contains_key(key));
                                } else {
                                    let k = choose|k: u64| #[trigger]
                                        start.contains_key(k) && !before.contains_key(k) && start[k] == x;
                                    assert(start.contains_key(k) && !self.addrs().contains_key(k));
                                }
                            }
                        }
                        assert(self.routes() =~= routes.remove_keys(freed(start, self.addrs())));
                    }
                }
            }
            i = i + 1;
        }
        proof {
            assert forall|key: u64| #[trigger] start.contains_key(key) implies answered(
                session_alive,
                key,
                self.addrs().contains_key(key),
            ) by {
                assert(keys@.contains(key));
                let j = choose|j: int| 0 <= j < keys.len() && keys@[j] == key;
                assert(answered(session_alive, keys[j], self.addrs().contains_key(keys[j])));
            }
        }
    }
}

/// Whether `after` is `before` without the sessions for which `session_alive` answered no,
/// and without the routes under their addresses.
pub open spec fn expired_forgotten<F: Fn(&[u8; 8]) -> bool>(
    before: TunSessionCleanup,
    after: TunSessionCleanup,
    session_alive: F,
) -> bool {
    &&& forall|key: u64| #[trigger]
        after.addrs().contains_key(key) ==> before.addrs().contains_key(key) && after.addrs()[key]
            == before.addrs()[key] && answered(session_alive, key, true)
    &&& forall|key: u64| #[trigger]
        before.addrs().contains_key(key) && !after.addrs().contains_key(key) ==> answered(
            session_alive,
            key,
            false,
        )
    &&& after.routes() == before.routes().remove_keys(freed(before.addrs(), after.addrs()))
}

/// Whether `f` gave `kept` for the session under `key`.
pub open spec fn answered<F: Fn(&[u8; 8]) -> bool>(f: F, key: u64, kept: bool) -> bool {
    exists|id: [u8; 8]| #[trigger] be64(id@) == key && call_ensures(f, (&id,), kept)
}

/// The addresses of the sessions that are in `before` and not in `after`.
pub open spec fn freed(before: Map<u64, u32>, after: Map<u64, u32>) -> Set<u32> {
    Set::new(
        |ip: u32|
            exists|key: u64| #[trigger]
                before.contains_key(key) && !after.contains_key(key) && before[key] == ip,
    )
}

/// The device address made of the byte pair `i` of a session id.
pub open spec fn candidate(id: Seq<u8>, i: int) -> Ipv4Addr {
    Ipv4Addr { a: 10, b: 200, c: id[2 * i], d: id[2 * i + 1] }
}

/// Whether the byte pair `i` makes the first or the last address of the network.
pub open spec fn reserved(id: Seq<u8>, i: int) -> bool {
    id[2 * i] == 0 && id[2 * i + 1] == 0 || id[2 * i] == 255 && id[2 * i + 1] == 255
}

/// Whether the session can have the address of its byte pair `i`: it is not reserved
/// and no other session is under it.
pub open spec fn available(id: Seq<u8>, routes: Map<u32, SessionMapping>, i: int) -> bool {
    let key = candidate(id, i).bits() as u32;
    !reserved(id, i) && !(routes.contains_key(key) && routes[key].session_id@ != id)
}

/// The address that a session gets: that of its first byte pair that is available;
/// else, taking it over, that of its last byte pair that is not reserved; else
/// `10.200.0.1`.
pub open spec fn assigned(id: Seq<u8>, routes: Map<u32, SessionMapping>) -> Ipv4Addr {
    if available(id, routes, 0) {
        candidate(id, 0)
    } else if available(id, routes, 1) {
        candidate(id, 1)
    } else if available(id, routes, 2) {
        candidate(id, 2)
    } else if available(id, routes, 3) {
        candidate(id, 3)
    } else if !reserved(id, 3) {
        candidate(id, 3)
    } else if !reserved(id, 2) {
        candidate(id, 2)
    } else if !reserved(id, 1) {
        candidate(id, 1)
    } else if !reserved(id, 0) {
        candidate(id, 0)
    } else {
        Ipv4Addr { a: 10, b: 200, c: 0, d: 1 }
    }
}

/// Picks the device address of a session.
pub fn assign_session_ip(session_id: &[u8; 8], ip_to_session: &DashMap<u32, SessionMapping>) -> (r:
    Ipv4Addr)
    ensures
        r == assigned(session_id@, routes_of(*ip_to_session)),
{
    let mut fallback: Option<Ipv4Addr> = None;
    let ghost id = session_id@;
    let ghost routes = routes_of(*ip_to_session);
    let mut i: usize = 0;
    while i < 4
        invariant
            i <= 4,
            id == session_id@,
            routes == routes_of(*ip_to_session),
            forall|j: int| 0 <= j < i ==> !available(id, routes, j),
            fallback == if i > 3 && !reserved(id, 3) {
                Some(candidate(id, 3))
            } else if i > 2 && !reserved(id, 2) {
                Some(candidate(id, 2))
            } else if i > 1 && !reserved(id, 1) {
                Some(candidate(id, 1))
            } else if i > 0 && !reserved(id, 0) {
                Some(candidate(id, 0))
            } else {
                None
            },
        decreases 4 - i,
    {
        let a: u8 = session_id[i * 2];
        let b: u8 = session_id[i * 2 + 1];
        if !((a == 0 && b == 0) || (a == 255 && b == 255)) {
            let ip = Ipv4Addr::new(10, 200, a, b);
            fallback = Some(ip);
            let collision: bool = match get_route(ip_to_session, ip.to_bits()) {
                None => false,
                Some(m) => {
                    proof {
                        if be64(m.session_id@) == be64(id) {
                            lemma_session_key_injective(m.session_id@, id);
                        }
                    }
                    session_key(&m.session_id) != session_key(session_id)
                },
            };
            if !collision {
                assert(ip == candidate(id, i as int));
                assert(available(id, routes, i as int));
                return ip;
            }
        }
        i = i + 1;
    }
    match fallback {
        Some(ip) => ip,
        None => Ipv4Addr::new(10, 200, 0, 1),
    }
}

/// Whether a client's packet goes into the device: IPv4 with a whole minimal header
/// that carries TCP or UDP.
pub open spec fn tunnelled(p: Seq<u8>) -> bool {
    p.len() >= 20 && p[0] / 16 == 4 && (p[9] == IPPROTO_TCP || p[9] == IPPROTO_UDP)
}

/// The address under which the session's packets go into the device.
pub open spec fn device_ip(id: Seq<u8>, addrs: Map<u64, u32>, routes: Map<u32, SessionMapping>) -> u32 {
    let key = be64(id) as u64;
    if addrs.contains_key(key) {
        addrs[key]
    } else {
        assigned(id, routes).bits() as u32
    }
}

/// The session whose id replies to `ip` carry, once a packet of `id` has left under it:
/// the one that had the route first.
pub open spec fn route_session(routes: Map<u32, SessionMapping>, ip: u32, id: Seq<u8>) -> Seq<u8> {
    if routes.contains_key(ip) {
        routes[ip].session_id@
    } else {
        id
    }
}

/// What a client's packet does: `out` goes into the device, the session has its
/// address, and the route back goes to the packet's client, with its source address. A
/// route that is there keeps its session id.
pub open spec fn sent_out(
    before: TunSessionCleanup,
    after: TunSessionCleanup,
    id: Seq<u8>,
    client: SocketAddr,
    p: Seq<u8>,
    out: Seq<u8>,
) -> bool {
    let ip = device_ip(id, before.addrs(), before.routes());
    &&& out == rewritten(p, IP_SRC_OFFSET as int, ipv4_of(ip as int))
    &&& after.addrs() == before.addrs().insert(be64(id) as u64, ip)
    &&& after.routes() == before.routes().insert(ip, after.routes()[ip])
    &&& after.routes()[ip].session_id@ == route_session(before.routes(), ip, id)
    &&& after.routes()[ip].client_addr == client
    &&& after.routes()[ip].original_src_ip == ipv4_at(p, IP_SRC_OFFSET as int)
}

/// What a packet from the device does: it goes to the session under its destination,
/// with the client's own address put back.
pub open spec fn comes_back(t: TunSessionCleanup, p: Seq<u8>, r: Option<TxPacket>) -> bool {
    let ip = ipv4_at(p, IP_DST_OFFSET as int).bits() as u32;
    if p.len() >= 20 && t.routes().contains_key(ip) {
        &&& r is Some
        &&& r->Some_0.session_id == t.routes()[ip].session_id
        &&& r->Some_0.client_addr == t.routes()[ip].client_addr
        &&& r->Some_0.ip_packet@ == rewritten(p, IP_DST_OFFSET as int, t.routes()[ip].original_src_ip)
    } else {
        r is None
    }
}

/// A reply to the address under which a session's packet left goes to that session's
/// client, addressed as the packet's source was. It carries the session's id, unless
/// another session had the address first.
pub proof fn a_reply_reaches_the_sender(
    before: TunSessionCleanup,
    after: TunSessionCleanup,
    id: Seq<u8>,
    client: SocketAddr,
    p: Seq<u8>,
    out: Seq<u8>,
    reply: Seq<u8>,
    r: Option<TxPacket>,
)
    requires
        sent_out(before, after, id, client, p, out),
        ipv4_at(reply, IP_DST_OFFSET as int).bits() == device_ip(
            id,
            before.addrs(),
            before.routes(),
        ),
        reply.len() >= 20,
        comes_back(after, reply, r),
    ensures
        r is Some,
        r->Some_0.session_id@ == route_session(
            before.routes(),
            device_ip(id, before.addrs(), before.routes()),
            id,
        ),
        r->Some_0.client_addr == client,
        r->Some_0.ip_packet@ == rewritten(
            reply,
            IP_DST_OFFSET as int,
            ipv4_at(p, IP_SRC_OFFSET as int),
        ),
{
    let ip = device_ip(id, before.addrs(), before.routes());
    assert(before.routes().insert(ip, after.routes()[ip]).contains_key(ip));
}

/// A session keeps the address that it was given, whichever session sends next.
pub proof fn sessions_keep_their_addresses(
    before: TunSessionCleanup,
    after: TunSessionCleanup,
    id: Seq<u8>,
    client: SocketAddr,
    p: Seq<u8>,
    out: Seq<u8>,
    other: Seq<u8>,
)
    requires
        sent_out(before, after, id, client, p, out),
        id.len() == 8,
        other.len() == 8,
        other == id || before.addrs().contains_key(be64(other) as u64),
    ensures
        device_ip(other, after.addrs(), after.routes()) == device_ip(
            other,
            before.addrs(),
            before.routes(),
        ),
{
}

/// The packets' way through the device.
pub struct TunHandler {
    pub sessions: TunSessionCleanup,
}

impl TunHandler {
    pub fn new() -> (r: TunHandler)
        ensures
            r.sessions.routes() == (Map::<u32, SessionMapping>::empty()),
            r.sessions.addrs() == (Map::<u64, u32>::empty()),
    {
        TunHandler {
            sessions: TunSessionCleanup { ip_to_session: new_routes(), session_to_ip: new_addrs() },
        }
    }

    /// A client's packet on its way into the device: what is written to it, if the
    /// packet is not dropped. The session keeps the address that it has, or gets one;
    /// the route back follows the packet's client and source address, and keeps the
    /// session id that it has.
    pub fn outbound(&mut self, pkt: InboundTunPacket) -> (r: Option<Vec<u8>>)
        ensures
            !tunnelled(pkt.raw_ip_packet@) ==> r is None && *final(self) == *old(self),
            tunnelled(pkt.raw_ip_packet@) ==> r is Some && sent_out(
                old(self).sessions,
                final(self).sessions,
                pkt.session_id@,
                pkt.client_addr,
                pkt.raw_ip_packet@,
                r->Some_0@,
            ),
    {
        let mut ip_packet: Vec<u8> = pkt.raw_ip_packet;
        if ip_packet.len() < IP_HEADER_MIN {
            return None;
        }
        if ip_packet[0] / 16 != 4 {
            return None;
        }
        if ip_packet[9] != IPPROTO_TCP && ip_packet[9] != IPPROTO_UDP {
            return None;
        }
        let original_src_ip: Ipv4Addr = read_ipv4(&ip_packet, IP_SRC_OFFSET);
        let key: u64 = session_key(&pkt.session_id);
        let tun_ip: u32 = match get_addr(&self.sessions.session_to_ip, key) {
            Some(ip) => ip,
            None => {
                let ip = assign_session_ip(&pkt.session_id, &self.sessions.ip_to_session);
                ip.to_bits()
            },
        };
        insert_addr(&mut self.sessions.session_to_ip, key, tun_ip);
        let session_id: [u8; 8] = match get_route(&self.sessions.ip_to_session, tun_ip) {
            Some(mapping) => mapping.session_id,
            None => pkt.session_id,
        };
        let mapping = SessionMapping {
            session_id,
            client_addr: pkt.client_addr,
            original_src_ip,
        };
        insert_route(&mut self.sessions.ip_to_session, tun_ip, mapping);
        rewrite_src_ip(&mut ip_packet, Ipv4Addr::from_bits(tun_ip));
        Some(ip_packet)
    }

    /// A packet that came out of the device: what goes to which client, if its
    /// destination belongs to a session.
    pub fn inbound(&self, packet: &[u8]) -> (r: Option<TxPacket>)
        ensures
            comes_back(self.sessions, packet@, r),
    {
        if packet.len() < IP_HEADER_MIN {
            return None;
        }
        let dst_ip: Ipv4Addr = read_ipv4(packet, IP_DST_OFFSET);
        match get_route(&self.sessions.ip_to_session, dst_ip.to_bits()) {
            None => None,
            Some(mapping) => {
                let mut ip_packet: Vec<u8> = Vec::new();
                ip_packet.extend_from_slice(packet);
                assert(ip_packet@ =~= packet@);
                rewrite_dst_ip(&mut ip_packet, mapping.original_src_ip);
                Some(
                    TxPacket {
                        session_id: mapping.session_id,
                        client_addr: mapping.client_addr,
                        ip_packet,
                    },
                )
            },
        }
    }
}

/// An assigned address lies inside the device's network and is neither its first nor
/// its last one.
pub proof fn assigned_addresses_are_host_addresses(id: Seq<u8>, routes: Map<u32, SessionMapping>)
    requires
        id.len() == 8,
    ensures
        ({
            let ip = assigned(id, routes);
            &&& ip.a == 10 && ip.b == 200
            &&& !(ip.c == 0 && ip.d == 0)
            &&& !(ip.c == 255 && ip.d == 255)
        }),
{
}

/// An assigned address is one that no other session has, unless every byte pair of
/// the session id is reserved or taken.
pub proof fn assigned_address_is_free_if_any_is(
    id: Seq<u8>,
    routes: Map<u32, SessionMapping>,
    i: int,
)
    requires
        id.len() == 8,
        0 <= i < 4,
        available(id, routes, i),
    ensures
        ({
            let key = assigned(id, routes).bits() as u32;
            routes.contains_key(key) ==> routes[key].session_id@ == id
        }),
{
    assert(i == 0 || i == 1 || i == 2 || i == 3);
}

/// A session's packet takes the address that the session has. One that has none gets the
/// address of the first byte pair of its id that is neither all zeros nor all ones and
/// that no other session is under; if there is none, that of the last pair that is
/// neither, and if there is none either, `10.200.0.1`.
pub proof fn addresses_come_from_the_id(
    id: Seq<u8>,
    addrs: Map<u64, u32>,
    routes: Map<u32, SessionMapping>,
    i: int,
)
    requires
        id.len() == 8,
        0 <= i < 4,
    ensures
        ({
            let key = (((id[0] as int * 256 + id[1] as int) * 256 + id[2] as int) * 256 + id[3] as int)
                * 0x1_0000_0000 + (((id[4] as int * 256 + id[5] as int) * 256 + id[6] as int) * 256
                + id[7] as int);
            let number = |j: int| 0x0AC8_0000 + id[2 * j] as int * 256 + id[2 * j + 1] as int;
            let odd = |j: int|
                id[2 * j] == 0 && id[2 * j + 1] == 0 || id[2 * j] == 255 && id[2 * j + 1] == 255;
            let free = |j: int|
                !odd(j) && (!routes.contains_key(number(j) as u32) || routes[number(
                    j,
                ) as u32].session_id@ == id);
            let none = !free(0) && !free(1) && !free(2) && !free(3);
            let r = device_ip(id, addrs, routes);
            &&& addrs.contains_key(key as u64) ==> r == addrs[key as u64]
            &&& !addrs.contains_key(key as u64) ==> {
                &&& free(i) && (forall|j: int| 0 <= j < i ==> !#[trigger] free(j)) ==> r == number(i)
                &&& none && !odd(i) && (forall|j: int| i < j < 4 ==> #[trigger] odd(j)) ==> r == number(i)
                &&& odd(0) && odd(1) && odd(2) && odd(3) ==> r == 0x0AC8_0001
            }
        }),
{
    let number = |j: int| 0x0AC8_0000 + id[2 * j] as int * 256 + id[2 * j + 1] as int;
    let odd = |j: int|
        id[2 * j] == 0 && id[2 * j + 1] == 0 || id[2 * j] == 255 && id[2 * j + 1] == 255;
    let free = |j: int|
        !odd(j) && (!routes.contains_key(number(j) as u32) || routes[number(j) as u32].session_id@ == id);
    assert(candidate(id, 0).bits() == number(0) && candidate(id, 1).bits() == number(1) && candidate(
        id,
        2,
    ).bits() == number(2) && candidate(id, 3).bits() == number(3));
    assert(available(id, routes, 0) == free(0) && available(id, routes, 1) == free(1) && available(
        id,
        routes,
        2,
    ) == free(2) && available(id, routes, 3) == free(3));
    assert(reserved(id, 0) == odd(0) && reserved(id, 1) == odd(1) && reserved(id, 2) == odd(2)
        && reserved(id, 3) == odd(3));
    assert(i == 0 || i == 1 || i == 2 || i == 3);
    if forall|j: int| 0 <= j < i ==> !#[trigger] free(j) {
        assert(i > 0 ==> !free(0));
        assert(i > 1 ==> !free(1));
        assert(i > 2 ==> !free(2));
    }
    if forall|j: int| i < j < 4 ==> #[trigger] odd(j) {
        assert(i < 1 ==> odd(1));
        assert(i < 2 ==> odd(2));
        assert(i < 3 ==> odd(3));
    }
}

/// What goes into the device: packets of TCP and UDP over IPv4, and nothing else.
pub proof fn tcp_and_udp_are_tunnelled(p: Seq<u8>)
    ensures
        tunnelled(p) <==> p.len() >= 20 && p[0] as int / 16 == 4 && (p[9] == 6 || p[9] == 17),
{
}

/// A packet leaves under an address of the session, and the answer to that address comes
/// back to the client that sent it, to the source address that the packet had. On either
/// way the length and the other address stay.
pub proof fn answers_come_back_to_the_client(
    before: TunSessionCleanup,
    after: TunSessionCleanup,
    id: Seq<u8>,
    client: SocketAddr,
    p: Seq<u8>,
    out: Seq<u8>,
    answer: Seq<u8>,
    r: Option<TxPacket>,
    i: int,
)
    requires
        sent_out(before, after, id, client, p, out),
        p.len() >= 20,
        20 <= p[0] as int % 16 * 4 <= p.len(),
        comes_back(after, answer, r),
        answer.len() >= 20,
        20 <= answer[0] as int % 16 * 4 <= answer.len(),
        answer[16] == out[12] && answer[17] == out[13] && answer[18] == out[14] && answer[19] == out[15],
        0 <= i < 4,
    ensures
        out.len() == p.len(),
        r is Some,
        r->Some_0.client_addr == client,
        r->Some_0.ip_packet@.len() == answer.len(),
        r->Some_0.ip_packet@[16 + i] == p[12 + i],
        out[16 + i] == p[16 + i],
        r->Some_0.ip_packet@[12 + i] == answer[12 + i],
        !before.routes().contains_key(device_ip(id, before.addrs(), before.routes()))
            ==> r->Some_0.session_id@ == id,
{
    let ip = device_ip(id, before.addrs(), before.routes());
    let new_ip = ipv4_of(ip as int);
    lemma_bits_of_ipv4(ip);
    rewriting_keeps_everything_else(p, 12, new_ip, 16 + i);
    lemma_ipv4_bits_injective(ipv4_at(answer, 16), new_ip);
    assert(before.routes().insert(ip, after.routes()[ip]).contains_key(ip));
    let own = after.routes()[ip].original_src_ip;
    rewriting_keeps_everything_else(answer, 16, own, 12 + i);
    assert(i == 0 || i == 1 || i == 2 || i == 3);
}

/// A packet of one session changes no other session's address and no route under another
/// address.
pub proof fn sessions_leave_each_other_alone(
    before: TunSessionCleanup,
    after: TunSessionCleanup,
    id: Seq<u8>,
    client: SocketAddr,
    p: Seq<u8>,
    out: Seq<u8>,
    other: u64,
    ip: u32,
)
    requires
        sent_out(before, after, id, client, p, out),
    ensures
        after.addrs().contains_key(be64(id) as u64),
        other != be64(id) as u64 ==> (after.addrs().contains_key(other) <==> before.addrs().contains_key(
            other,
        )),
        other != be64(id) as u64 && before.addrs().contains_key(other) ==> after.addrs()[other]
            == before.addrs()[other],
        ip != after.addrs()[be64(id) as u64] ==> (after.routes().contains_key(ip)
            <==> before.routes().contains_key(ip)),
        ip != after.addrs()[be64(id) as u64] && before.routes().contains_key(ip) ==> after.routes()[ip]
            == before.routes()[ip],
{
    let mine = device_ip(id, before.addrs(), before.routes());
    let m = before.routes().insert(mine, after.routes()[mine]);
    assert(after.routes() == m);
    assert(m.contains_key(ip) <==> before.routes().contains_key(ip) || ip == mine);
}

/// A session that is not alive loses its address and the route under it; one that is alive
/// keeps its address, and the route under an address that nobody lost stays.
pub proof fn only_dead_sessions_are_forgotten<F: Fn(&[u8; 8]) -> bool>(
    before: TunSessionCleanup,
    after: TunSessionCleanup,
    session_alive: F,
    key: u64,
    ip: u32,
)
    requires
        expired_forgotten(before, after, session_alive),
        before.addrs().contains_key(key),
    ensures
        !answered(session_alive, key, true) ==> !after.addrs().contains_key(key)
            && !after.routes().contains_key(before.addrs()[key]),
        !answered(session_alive, key, false) ==> after.addrs().contains_key(key) && after.addrs()[key]
            == before.addrs()[key],
        (forall|k: u64| #[trigger]
            before.addrs().contains_key(k) && before.addrs()[k] == ip ==> after.addrs().contains_key(k))
            && before.routes().contains_key(ip) ==> after.routes().contains_key(ip) && after.routes()[ip]
            == before.routes()[ip],
        after.routes().contains_key(ip) ==> before.routes().contains_key(ip) && after.routes()[ip]
            == before.routes()[ip],
{
    let gone = freed(before.addrs(), after.addrs());
    let m = before.routes().remove_keys(gone);
    if !after.addrs().contains_key(key) {
        assert(gone.contains(before.addrs()[key]));
        assert(!m.contains_key(before.addrs()[key]));
    }
    if after.routes().contains_key(ip) {
        assert(m.contains_key(ip));
    }
}

} // verus!
