//! Resolving Roblox host names for clients that cannot do it themselves.
//!
//! A request is the session id, the frame type, a request id, a count, and as many
//! host names, each behind its length. A response is the session id, the frame type,
//! the request id, a count, and as many answers: a host name behind its length, then a
//! count of IPv4 addresses and the addresses.

use crate::addr::{IpAddr, Ipv4Addr};
use crate::auth::utf8_text;
use crate::bytes::{be16, read_be16};
use crate::limits::SESSION_ID_LEN;
use crate::text::{chars_of, is_text, lower, lowered, texts};
use vstd::prelude::*;
use vstd::string::*;
use vstd::utf8::{decode_utf8, encode_utf8, valid_utf8};

verus! {

pub const RESOLVE_REQUEST_FRAME_TYPE: u8 = 0xA6;

pub const RESOLVE_RESPONSE_FRAME_TYPE: u8 = 0xA7;

pub const RESOLVE_MAX_HOSTS_PER_REQUEST: usize = 16;

pub const RESOLVE_MAX_HOSTNAME_LEN: usize = 64;

pub const RESOLVE_MAX_IPS_PER_HOST: usize = 4;

/// The text without the dots at its end.
pub open spec fn without_final_dots(s: Seq<char>) -> Seq<char>
    decreases s.len(),
{
    if s.len() > 0 && s.last() == '.' {
        without_final_dots(s.drop_last())
    } else {
        s
    }
}

pub open spec fn has_suffix(s: Seq<char>, suffix: Seq<char>) -> bool {
    s.len() >= suffix.len() && s.subrange(s.len() - suffix.len(), s.len() as int) == suffix
}

/// The host names that are resolved: Roblox's own and those of its services, in any
/// case and with or without a final dot.
pub open spec fn resolvable(host: Seq<char>) -> bool {
    let h = lowered(without_final_dots(host));
    ||| h == "roblox.com"@
    ||| has_suffix(h, ".roblox.com"@)
    ||| has_suffix(h, ".rbxcdn.com"@)
    ||| has_suffix(h, ".arkoselabs.com"@)
}

fn ends_with(s: &[char], suffix: &str) -> (r: bool)
    ensures
        r == has_suffix(s@, suffix@),
{
    let suffix = chars_of(suffix);
    let n: usize = s.len();
    if n < suffix.len() {
        return false;
    }
    crate::text::same(&s[n - suffix.len()..n], &suffix)
}

/// Whether the host name is one that is resolved.
pub fn is_resolvable_roblox_host(host: &str) -> (r: bool)
    ensures
        r == resolvable(host@),
{
    let chars = chars_of(host);
    let mut n: usize = chars.len();
    assert(chars@.subrange(0, n as int) =~= chars@);
    while n > 0 && chars[n - 1] == '.'
        invariant
            n <= chars@.len(),
            without_final_dots(chars@) == without_final_dots(chars@.subrange(0, n as int)),
        decreases n,
    {
        assert(chars@.subrange(0, n as int).drop_last() =~= chars@.subrange(0, n - 1));
        n = n - 1;
    }
    let h = lower(&chars[0..n]);
    is_text(&h, "roblox.com") || ends_with(&h, ".roblox.com") || ends_with(&h, ".rbxcdn.com")
        || ends_with(&h, ".arkoselabs.com")
}

/// The `count` host names from `off` on; `None`, if one of them is empty, too long,
/// cut off, or not UTF-8.
pub open spec fn host_names(frame: Seq<u8>, len: int, off: int, count: nat) -> Option<Seq<Seq<char>>>
    decreases count,
{
    if count == 0 {
        Some(Seq::empty())
    } else if off >= len {
        None
    } else {
        let n = frame[off] as int;
        let name = frame.subrange(off + 1, off + 1 + n);
        if n == 0 || n > RESOLVE_MAX_HOSTNAME_LEN || off + 1 + n > len || !valid_utf8(name) {
            None
        } else {
            match host_names(frame, len, off + 1 + n, (count - 1) as nat) {
                Some(rest) => Some(seq![decode_utf8(name)] + rest),
                None => None,
            }
        }
    }
}

/// The names of a list that are resolved.
pub open spec fn kept(names: Seq<Seq<char>>) -> Seq<Seq<char>>
    decreases names.len(),
{
    if names.len() == 0 {
        Seq::empty()
    } else if resolvable(names.last()) {
        kept(names.drop_last()).push(names.last())
    } else {
        kept(names.drop_last())
    }
}

/// A request's id and the host names that it asks for and that are resolved.
pub ghost struct RequestView {
    pub id: u16,
    pub hosts: Seq<Seq<char>>,
}

/// What the first `len` bytes of a frame request; `None`, if they are malformed.
pub open spec fn request_of(frame: Seq<u8>, len: int) -> Option<RequestView> {
    if len < 12 || frame[11] > RESOLVE_MAX_HOSTS_PER_REQUEST {
        None
    } else {
        match host_names(frame, len, 12, frame[11] as nat) {
            Some(names) => Some(RequestView { id: be16(frame, 9) as u16, hosts: kept(names) }),
            None => None,
        }
    }
}

/// Reads a request: its id and the host names to resolve. Other host names are
/// dropped silently.
pub fn parse_resolve_request(frame: &[u8], len: usize) -> (r: Option<(u16, Vec<String>)>)
    requires
        len <= frame@.len(),
    ensures
        match request_of(frame@, len as int) {
            Some(want) => r matches Some((id, hosts)) && id == want.id && texts(hosts@) == want.hosts,
            None => r is None,
        },
{
    let header: usize = SESSION_ID_LEN + 1;
    if len < header + 3 {
        return None;
    }
    let request_id: u16 = read_be16(frame, header);
    let host_count: usize = frame[header + 2] as usize;
    if host_count > RESOLVE_MAX_HOSTS_PER_REQUEST {
        return None;
    }
    let mut hosts: Vec<String> = Vec::with_capacity(host_count);
    let mut off: usize = header + 3;
    let mut i: usize = 0;
    let ghost want = host_names(frame@, len as int, 12, host_count as nat);
    let ghost mut done: Seq<Seq<char>> = Seq::empty();
    assert(texts(hosts@) =~= kept(done));
    assert(want is Some ==> done + want->Some_0 =~= want->Some_0);
    while i < host_count
        invariant
            len <= frame@.len(),
            i <= host_count,
            host_count <= 16,
            12 <= off <= len,
            host_count == frame@[11],
            want == host_names(frame@, len as int, 12, host_count as nat),
            texts(hosts@) == kept(done),
            ({
                let rest = host_names(frame@, len as int, off as int, (host_count - i) as nat);
                &&& want is Some <==> rest is Some
                &&& want is Some ==> want->Some_0 == done + rest->Some_0
            }),
        decreases host_count - i,
    {
        if off >= len {
            return None;
        }
        let n: usize = frame[off] as usize;
        if n == 0 || n > RESOLVE_MAX_HOSTNAME_LEN || n > len - off - 1 {
            return None;
        }
        let name: &[u8] = &frame[off + 1..off + 1 + n];
        match utf8_text(name) {
            None => {
                return None;
            },
            Some(host) => {
                proof {
                    vstd::utf8::encode_utf8_decode_utf8(host@);
                    let rest = host_names(
                        frame@,
                        len as int,
                        off + 1 + n,
                        (host_count - i - 1) as nat,
                    );
                    assert(decode_utf8(name@) == host@);
                    if rest is Some {
                        assert(done.push(host@) + rest->Some_0 =~= done + (seq![host@] + rest->Some_0));
                    }
                    assert(done.push(host@).drop_last() =~= done);
                }
                let ghost before = hosts@;
                if is_resolvable_roblox_host(host) {
                    let owned: String = host.to_owned();
                    hosts.push(owned);
                    assert(texts(hosts@) =~= texts(before).push(host@));
                }
                proof {
                    done = done.push(host@);
                }
                off = off + 1 + n;
                i = i + 1;
            },
        }
    }
    proof {
        assert(want->Some_0 =~= done);
    }
    Some((request_id, hosts))
}

/// No name that is not Roblox's is ever resolved for a client.
pub proof fn only_roblox_is_resolved(frame: Seq<u8>, len: int, i: int)
    requires
        request_of(frame, len) is Some,
        0 <= i < request_of(frame, len)->Some_0.hosts.len(),
    ensures
        resolvable(request_of(frame, len)->Some_0.hosts[i]),
{
    lemma_kept(host_names(frame, len, 12, frame[11] as nat)->Some_0, i);
}

proof fn lemma_kept(names: Seq<Seq<char>>, i: int)
    requires
        0 <= i < kept(names).len(),
    ensures
        resolvable(kept(names)[i]),
    decreases names.len(),
{
    if names.len() > 0 {
        if !(resolvable(names.last()) && i == kept(names).len() - 1) {
            lemma_kept(names.drop_last(), i);
        }
    }
}

/// Host names as a request carries them: each behind its length in bytes.
pub open spec fn listed_hosts(names: Seq<Seq<char>>) -> Seq<u8>
    decreases names.len(),
{
    if names.len() == 0 {
        Seq::empty()
    } else {
        let name = encode_utf8(names[0]);
        seq![name.len() as u8] + name + listed_hosts(names.drop_first())
    }
}

/// The frame of a request.
pub open spec fn request_frame(session_id: Seq<u8>, id: u16, names: Seq<Seq<char>>) -> Seq<u8> {
    session_id + seq![
        RESOLVE_REQUEST_FRAME_TYPE,
        (id / 256) as u8,
        (id % 256) as u8,
        names.len() as u8,
    ] + listed_hosts(names)
}

/// Whether a request may carry the host names: not too many, each of one byte at least,
/// and none too long.
pub open spec fn may_be_asked(names: Seq<Seq<char>>) -> bool {
    &&& names.len() <= RESOLVE_MAX_HOSTS_PER_REQUEST
    &&& forall|i: int|
        0 <= i < names.len() ==> 1 <= encode_utf8(#[trigger] names[i]).len()
            <= RESOLVE_MAX_HOSTNAME_LEN
}

/// Listed host names read back, and are not there in fewer bytes.
proof fn lemma_listed_hosts(frame: Seq<u8>, off: int, names: Seq<Seq<char>>, len: int)
    requires
        0 <= off <= frame.len(),
        frame.subrange(off, frame.len() as int) == listed_hosts(names),
        forall|i: int|
            0 <= i < names.len() ==> 1 <= encode_utf8(#[trigger] names[i]).len()
                <= RESOLVE_MAX_HOSTNAME_LEN,
        len <= frame.len(),
    ensures
        len == frame.len() ==> host_names(frame, len, off, names.len()) == Some(names),
        off <= len < frame.len() ==> host_names(frame, len, off, names.len()) is None,
    decreases names.len(),
{
    if names.len() == 0 {
        assert(names =~= Seq::empty());
        assert(frame.subrange(off, frame.len() as int).len() == 0);
    } else {
        let name = encode_utf8(names[0]);
        let n = name.len() as int;
        let rest = names.drop_first();
        let tail = listed_hosts(rest);
        let list = frame.subrange(off, frame.len() as int);
        assert(list =~= seq![n as u8] + name + tail);
        assert(list.len() == 1 + n + tail.len());
        assert(frame[off] == list[0]);
        assert(frame.subrange(off + 1, off + 1 + n) =~= name) by {
            assert forall|i: int| 0 <= i < n implies frame[off + 1 + i] == name[i] by {
                assert(frame[off + 1 + i] == list[1 + i]);
            }
        }
        assert(frame.subrange(off + 1 + n, frame.len() as int) =~= tail) by {
            assert forall|i: int| 0 <= i < tail.len() implies frame[off + 1 + n + i] == tail[i] by {
                assert(frame[off + 1 + n + i] == list[1 + n + i]);
            }
        }
        assert forall|i: int| 0 <= i < rest.len() implies 1 <= encode_utf8(#[trigger] rest[i]).len()
            <= RESOLVE_MAX_HOSTNAME_LEN by {
            assert(rest[i] == names[i + 1]);
        }
        vstd::utf8::encode_utf8_valid_utf8(names[0]);
        vstd::utf8::encode_utf8_decode_utf8(names[0]);
        lemma_listed_hosts(frame, off + 1 + n, rest, len);
        assert(names =~= seq![names[0]] + rest);
    }
}

/// A request reads back as its id and those of its host names that are resolved, in
/// their order and as they were spelled; with fewer bytes than it has it is malformed.
pub proof fn requests_read_back(session_id: Seq<u8>, id: u16, names: Seq<Seq<char>>, len: int)
    requires
        session_id.len() == 8,
        may_be_asked(names),
        0 <= len <= request_frame(session_id, id, names).len(),
    ensures
        ({
            let frame = request_frame(session_id, id, names);
            request_of(frame, len) == if len == frame.len() {
                Some(RequestView { id, hosts: kept(names) })
            } else {
                None
            }
        }),
{
    let frame = request_frame(session_id, id, names);
    assert(frame.subrange(12, frame.len() as int) =~= listed_hosts(names));
    assert(be16(frame, 9) == id);
    lemma_listed_hosts(frame, 12, names, len);
}

/// The smaller of two lengths.
pub open spec fn at_most(n: nat, max: nat) -> int {
    if n < max {
        n as int
    } else {
        max as int
    }
}

/// Addresses one behind the other.
pub open spec fn address_bytes(ips: Seq<Ipv4Addr>) -> Seq<u8>
    decreases ips.len(),
{
    if ips.len() == 0 {
        Seq::empty()
    } else {
        address_bytes(ips.drop_last()) + ips.last().seq()
    }
}

/// One answer of a response; the name and the addresses are cut where they are too
/// many.
pub open spec fn answer_bytes(host: Seq<char>, ips: Seq<Ipv4Addr>) -> Seq<u8> {
    let name = encode_utf8(host).take(
        at_most(encode_utf8(host).len(), RESOLVE_MAX_HOSTNAME_LEN as nat),
    );
    let sent = ips.take(at_most(ips.len(), RESOLVE_MAX_IPS_PER_HOST as nat));
    seq![name.len() as u8] + name + seq![sent.len() as u8] + address_bytes(sent)
}

/// Answers one behind the other.
pub open spec fn answers_bytes(answers: Seq<(String, Vec<Ipv4Addr>)>) -> Seq<u8>
    decreases answers.len(),
{
    if answers.len() == 0 {
        Seq::empty()
    } else {
        answers_bytes(answers.drop_last()) + answer_bytes(answers.last().0@, answers.last().1@)
    }
}

/// A response frame.
pub open spec fn response_frame(
    session_id: Seq<u8>,
    request_id: u16,
    answers: Seq<(String, Vec<Ipv4Addr>)>,
) -> Seq<u8> {
    let sent = answers.take(at_most(answers.len(), 255));
    session_id + seq![
        RESOLVE_RESPONSE_FRAME_TYPE,
        (request_id / 256) as u8,
        (request_id % 256) as u8,
        sent.len() as u8,
    ] + answers_bytes(sent)
}

fn push_answer(out: &mut Vec<u8>, host: &str, ips: &Vec<Ipv4Addr>)
    ensures
        final(out)@ == old(out)@ + answer_bytes(host@, ips@),
{
    let ghost before = out@;
    let bytes: &[u8] = host.as_bytes();
    let len: usize = if bytes.len() < RESOLVE_MAX_HOSTNAME_LEN {
        bytes.len()
    } else {
        RESOLVE_MAX_HOSTNAME_LEN
    };
    let name: &[u8] = &bytes[0..len];
    out.push(len as u8);
    out.extend_from_slice(name);
    let count: usize = if ips.len() < RESOLVE_MAX_IPS_PER_HOST {
        ips.len()
    } else {
        RESOLVE_MAX_IPS_PER_HOST
    };
    out.push(count as u8);
    let ghost head = before + seq![len as u8] + name@ + seq![count as u8];
    assert(out@ =~= head);
    let mut i: usize = 0;
    assert(out@ =~= head + address_bytes(ips@.take(0)));
    while i < count
        invariant
            count <= ips@.len(),
            i <= count,
            out@ == head + address_bytes(ips@.take(i as int)),
        decreases count - i,
    {
        assert(ips@.take(i + 1).drop_last() =~= ips@.take(i as int));
        let octets = ips[i].octets();
        let ghost was = out@;
        out.extend_from_slice(&octets);
        assert(out@ =~= was + ips@[i as int].seq());
        assert(out@ =~= head + address_bytes(ips@.take(i + 1)));
        i = i + 1;
    }
    proof {
        let e = encode_utf8(host@);
        assert(name@ =~= e.take(at_most(e.len(), 64)));
        assert(out@ =~= before + answer_bytes(host@, ips@));
    }
}

/// Lays out a response.
pub fn build_resolve_response(
    session_id: &[u8; 8],
    request_id: u16,
    answers: &Vec<(String, Vec<Ipv4Addr>)>,
) -> (r: Vec<u8>)
    ensures
        r@ == response_frame(session_id@, request_id, answers@),
{
    let mut out: Vec<u8> = Vec::with_capacity(64);
    out.extend_from_slice(session_id);
    out.push(RESOLVE_RESPONSE_FRAME_TYPE);
    out.push((request_id / 256) as u8);
    out.push((request_id % 256) as u8);
    let count: usize = if answers.len() < 255 {
        answers.len()
    } else {
        255
    };
    out.push(count as u8);
    let ghost head = session_id@ + seq![
        RESOLVE_RESPONSE_FRAME_TYPE,
        (request_id / 256) as u8,
        (request_id % 256) as u8,
        count as u8,
    ];
    assert(out@ =~= head);
    let mut i: usize = 0;
    assert(out@ =~= head + answers_bytes(answers@.take(0)));
    while i < count
        invariant
            count <= answers@.len(),
            i <= count,
            out@ == head + answers_bytes(answers@.take(i as int)),
        decreases count - i,
    {
        assert(answers@.take(i + 1).drop_last() =~= answers@.take(i as int));
        let ghost was = out@;
        push_answer(&mut out, answers[i].0.as_str(), &answers[i].1);
        assert(out@ =~= head + answers_bytes(answers@.take(i + 1)));
        i = i + 1;
    }
    out
}

/// The IPv4 addresses of a list.
pub open spec fn v4_of(addrs: Seq<IpAddr>) -> Seq<Ipv4Addr>
    decreases addrs.len(),
{
    if addrs.len() == 0 {
        Seq::empty()
    } else {
        match addrs.last() {
            IpAddr::V4(ip) => v4_of(addrs.drop_last()).push(ip),
            IpAddr::V6(_) => v4_of(addrs.drop_last()),
        }
    }
}

/// The list without those addresses that are the same as the one before them.
pub open spec fn deduped(ips: Seq<Ipv4Addr>) -> Seq<Ipv4Addr>
    decreases ips.len(),
{
    if ips.len() <= 1 {
        ips
    } else if ips.last() == ips[ips.len() - 2] {
        deduped(ips.drop_last())
    } else {
        deduped(ips.drop_last()).push(ips.last())
    }
}

/// The addresses to answer with: the IPv4 ones, repetitions dropped, and no more than fit.
pub open spec fn answered_with(addrs: Seq<IpAddr>) -> Seq<Ipv4Addr> {
    let all = deduped(v4_of(addrs));
    all.take(at_most(all.len(), RESOLVE_MAX_IPS_PER_HOST as nat))
}

/// The addresses to answer with, out of those that a lookup gave: the IPv4 ones,
/// repetitions dropped, and no more than fit.
pub fn answer_ips(addrs: &Vec<IpAddr>) -> (r: Vec<Ipv4Addr>)
    ensures
        r@ == answered_with(addrs@),
{
    let mut ips: Vec<Ipv4Addr> = Vec::new();
    let mut last: Option<Ipv4Addr> = None;
    let mut i: usize = 0;
    assert(ips@ =~= deduped(v4_of(addrs@.take(0))));
    while i < addrs.len()
        invariant
            i <= addrs@.len(),
            ips@ == deduped(v4_of(addrs@.take(i as int))),
            ({
                let seen = v4_of(addrs@.take(i as int));
                last == if seen.len() == 0 {
                    None
                } else {
                    Some(seen.last())
                }
            }),
        decreases addrs.len() - i,
    {
        assert(addrs@.take(i + 1).drop_last() =~= addrs@.take(i as int));
        let ghost seen = v4_of(addrs@.take(i as int));
        if let IpAddr::V4(ip) = addrs[i] {
            assert(seen.push(ip).drop_last() =~= seen);
            let repeated: bool = match last {
                Some(before) => before == ip,
                None => false,
            };
            if !repeated {
                ips.push(ip);
            }
            last = Some(ip);
            assert(ips@ =~= deduped(seen.push(ip)));
        }
        i = i + 1;
    }
    assert(addrs@.take(i as int) =~= addrs@);
    let ghost all = ips@;
    ips.truncate(RESOLVE_MAX_IPS_PER_HOST);
    assert(ips@ =~= all.take(at_most(all.len(), RESOLVE_MAX_IPS_PER_HOST as nat)));
    ips
}

/// One answer as a client reads it: a name and addresses.
pub ghost struct AnswerRead {
    pub name: Seq<u8>,
    pub ips: Seq<Ipv4Addr>,
}

/// Reads the answer at `off`: a length and as many bytes of name, a count and as many
/// addresses of four bytes.
pub open spec fn read_answer(frame: Seq<u8>, off: int) -> AnswerRead {
    let n = frame[off] as int;
    let at = off + 2 + n;
    AnswerRead {
        name: frame.subrange(off + 1, off + 1 + n),
        ips: Seq::new(
            frame[off + 1 + n] as nat,
            |j: int|
                Ipv4Addr {
                    a: frame[at + 4 * j],
                    b: frame[at + 4 * j + 1],
                    c: frame[at + 4 * j + 2],
                    d: frame[at + 4 * j + 3],
                },
        ),
    }
}

/// Reads `count` answers from `off` on, and where the last one ends.
pub open spec fn read_answers(frame: Seq<u8>, off: int, count: nat) -> (Seq<AnswerRead>, int)
    decreases count,
{
    if count == 0 {
        (Seq::empty(), off)
    } else {
        let n = frame[off] as int;
        let rest = read_answers(
            frame,
            off + 2 + n + 4 * frame[off + 1 + n] as int,
            (count - 1) as nat,
        );
        (seq![read_answer(frame, off)] + rest.0, rest.1)
    }
}

/// Whether what was read is the answer that was sent: its own name, up to 64 bytes, and
/// its own addresses, up to four.
pub open spec fn is_answer(got: AnswerRead, host: Seq<char>, ips: Seq<Ipv4Addr>) -> bool {
    let name = encode_utf8(host);
    &&& got.name.len() == if name.len() < 64 {
        name.len()
    } else {
        64
    }
    &&& forall|i: int| 0 <= i < got.name.len() ==> #[trigger] got.name[i] == name[i]
    &&& got.ips.len() == if ips.len() < 4 {
        ips.len()
    } else {
        4
    }
    &&& forall|i: int| 0 <= i < got.ips.len() ==> #[trigger] got.ips[i] == ips[i]
}

/// Addresses stand four bytes apart.
proof fn lemma_address_bytes(ips: Seq<Ipv4Addr>, j: int)
    requires
        0 <= j < ips.len(),
    ensures
        address_bytes(ips).len() == 4 * ips.len(),
        address_bytes(ips)[4 * j] == ips[j].a,
        address_bytes(ips)[4 * j + 1] == ips[j].b,
        address_bytes(ips)[4 * j + 2] == ips[j].c,
        address_bytes(ips)[4 * j + 3] == ips[j].d,
    decreases ips.len(),
{
    let rest = ips.drop_last();
    lemma_address_bytes_len(rest);
    if j < rest.len() {
        lemma_address_bytes(rest, j);
    }
}

proof fn lemma_address_bytes_len(ips: Seq<Ipv4Addr>)
    ensures
        address_bytes(ips).len() == 4 * ips.len(),
    decreases ips.len(),
{
    if ips.len() > 0 {
        lemma_address_bytes_len(ips.drop_last());
    }
}

/// The first answer stands first.
proof fn lemma_answers_front(answers: Seq<(String, Vec<Ipv4Addr>)>)
    requires
        answers.len() > 0,
    ensures
        answers_bytes(answers) == answer_bytes(answers[0].0@, answers[0].1@) + answers_bytes(
            answers.drop_first(),
        ),
    decreases answers.len(),
{
    let rest = answers.drop_last();
    if rest.len() == 0 {
        assert(answers_bytes(rest) =~= Seq::<u8>::empty());
        assert(answers.drop_first() =~= Seq::<(String, Vec<Ipv4Addr>)>::empty());
        assert(answers_bytes(answers.drop_first()) =~= Seq::<u8>::empty());
        assert(answers_bytes(answers) =~= answer_bytes(answers[0].0@, answers[0].1@));
    } else {
        lemma_answers_front(rest);
        let tail = answers.drop_first();
        assert(tail.drop_last() =~= rest.drop_first());
        assert(tail.last() == answers.last());
        assert(rest[0] == answers[0]);
        assert(answers_bytes(answers) =~= answer_bytes(answers[0].0@, answers[0].1@) + (answers_bytes(
            tail.drop_last(),
        ) + answer_bytes(answers.last().0@, answers.last().1@)));
    }
}

/// One laid out answer reads back.
proof fn lemma_answer_reads_back(frame: Seq<u8>, off: int, host: Seq<char>, ips: Seq<Ipv4Addr>)
    requires
        0 <= off,
        off + answer_bytes(host, ips).len() <= frame.len(),
        frame.subrange(off, off + answer_bytes(host, ips).len()) == answer_bytes(host, ips),
    ensures
        is_answer(read_answer(frame, off), host, ips),
        off + 2 + frame[off] as int + 4 * frame[off + 1 + frame[off] as int] as int == off
            + answer_bytes(host, ips).len(),
        frame[off] <= 64,
{
    let b = answer_bytes(host, ips);
    let f = frame.subrange(off, off + b.len());
    let e = encode_utf8(host);
    let name = e.take(at_most(e.len(), 64));
    let n = name.len() as int;
    let sent = ips.take(at_most(ips.len(), 4));
    lemma_address_bytes_len(sent);
    assert(f[0] == n && frame[off] == f[0]);
    assert(f[1 + n] == sent.len() && frame[off + 1 + n] == f[1 + n]);
    let got = read_answer(frame, off);
    assert forall|i: int| 0 <= i < n implies #[trigger] got.name[i] == e[i] by {
        assert(frame[off + 1 + i] == f[1 + i]);
        assert(b[1 + i] == name[i]);
    }
    assert forall|j: int| 0 <= j < sent.len() implies #[trigger] got.ips[j] == ips[j] by {
        lemma_address_bytes(sent, j);
        let at = 2 + n;
        assert(b[at + 4 * j] == address_bytes(sent)[4 * j]);
        assert(b[at + 4 * j + 1] == address_bytes(sent)[4 * j + 1]);
        assert(b[at + 4 * j + 2] == address_bytes(sent)[4 * j + 2]);
        assert(b[at + 4 * j + 3] == address_bytes(sent)[4 * j + 3]);
        assert(frame[off + (at + 4 * j)] == f[at + 4 * j]);
        assert(frame[off + (at + 4 * j + 1)] == f[at + 4 * j + 1]);
        assert(frame[off + (at + 4 * j + 2)] == f[at + 4 * j + 2]);
        assert(frame[off + (at + 4 * j + 3)] == f[at + 4 * j + 3]);
    }
}

proof fn lemma_answers_read_back(frame: Seq<u8>, off: int, answers: Seq<(String, Vec<Ipv4Addr>)>)
    requires
        0 <= off <= frame.len(),
        frame.subrange(off, frame.len() as int) == answers_bytes(answers),
    ensures
        ({
            let got = read_answers(frame, off, answers.len());
            &&& got.0.len() == answers.len()
            &&& got.1 == frame.len()
            &&& forall|i: int|
                0 <= i < answers.len() ==> is_answer(
                    #[trigger] got.0[i],
                    answers[i].0@,
                    answers[i].1@,
                )
        }),
    decreases answers.len(),
{
    if answers.len() == 0 {
        assert(answers_bytes(answers) =~= Seq::<u8>::empty());
        assert(frame.subrange(off, frame.len() as int).len() == 0);
    } else {
        lemma_answers_front(answers);
        let rest = answers.drop_first();
        let b = answer_bytes(answers[0].0@, answers[0].1@);
        let all = frame.subrange(off, frame.len() as int);
        assert(all.len() == b.len() + answers_bytes(rest).len());
        assert(frame.subrange(off, off + b.len()) =~= b) by {
            assert forall|i: int| 0 <= i < b.len() implies frame[off + i] == b[i] by {
                assert(frame[off + i] == all[i]);
            }
        }
        assert(frame.subrange(off + b.len(), frame.len() as int) =~= answers_bytes(rest)) by {
            assert forall|i: int| 0 <= i < answers_bytes(rest).len() implies frame[off + b.len() + i]
                == answers_bytes(rest)[i] by {
                assert(frame[off + b.len() + i] == all[b.len() + i]);
            }
        }
        lemma_answer_reads_back(frame, off, answers[0].0@, answers[0].1@);
        lemma_answers_read_back(frame, off + b.len(), rest);
        let got = read_answers(frame, off, answers.len());
        let tail = read_answers(frame, off + b.len(), rest.len());
        assert(got.0 =~= seq![read_answer(frame, off)] + tail.0);
        assert forall|i: int| 0 <= i < answers.len() implies is_answer(
            #[trigger] got.0[i],
            answers[i].0@,
            answers[i].1@,
        ) by {
            if i > 0 {
                assert(got.0[i] == tail.0[i - 1]);
                assert(rest[i - 1] == answers[i]);
            }
        }
    }
}

/// A response reads back: it has the session id, the response's type, the request id and
/// the number of answers, 255 at most, and then each answer in its order, with its own
/// name and its own addresses, and nothing behind them.
pub proof fn responses_read_back(
    session_id: Seq<u8>,
    request_id: u16,
    answers: Seq<(String, Vec<Ipv4Addr>)>,
)
    requires
        session_id.len() == 8,
    ensures
        ({
            let frame = response_frame(session_id, request_id, answers);
            let count = if answers.len() < 255 {
                answers.len()
            } else {
                255
            };
            let got = read_answers(frame, 12, count);
            &&& frame.len() >= 12
            &&& frame.subrange(0, 8) == session_id
            &&& frame[8] == 0xA7
            &&& frame[9] as int * 256 + frame[10] as int == request_id
            &&& frame[11] == count
            &&& got.0.len() == count
            &&& got.1 == frame.len()
            &&& forall|i: int|
                0 <= i < count ==> is_answer(#[trigger] got.0[i], answers[i].0@, answers[i].1@)
        }),
{
    let frame = response_frame(session_id, request_id, answers);
    let sent = answers.take(at_most(answers.len(), 255));
    assert(frame.subrange(0, 8) =~= session_id);
    assert(frame.subrange(12, frame.len() as int) =~= answers_bytes(sent));
    lemma_answers_read_back(frame, 12, sent);
}

/// A name is resolved if and only if, in lower case and without dots at its end, it is
/// `roblox.com` or ends in one of three domains behind a dot. So neither case nor final
/// dots matter.
pub proof fn names_are_judged_by_their_domain(host: Seq<char>)
    ensures
        ({
            let h = lowered(without_final_dots(host));
            resolvable(host) <==> {
                ||| h == "roblox.com"@
                ||| exists|sub: Seq<char>| h == #[trigger] (sub + ".roblox.com"@)
                ||| exists|sub: Seq<char>| h == #[trigger] (sub + ".rbxcdn.com"@)
                ||| exists|sub: Seq<char>| h == #[trigger] (sub + ".arkoselabs.com"@)
            }
        }),
        resolvable(host.push('.')) == resolvable(host),
{
    let h = lowered(without_final_dots(host));
    lemma_suffix(h, ".roblox.com"@);
    lemma_suffix(h, ".rbxcdn.com"@);
    lemma_suffix(h, ".arkoselabs.com"@);
    assert(host.push('.').drop_last() =~= host);
}

proof fn lemma_suffix(s: Seq<char>, suffix: Seq<char>)
    ensures
        has_suffix(s, suffix) <==> exists|sub: Seq<char>| s == #[trigger] (sub + suffix),
{
    if has_suffix(s, suffix) {
        let sub = s.subrange(0, s.len() - suffix.len());
        assert(s =~= sub + suffix);
    }
    if exists|sub: Seq<char>| s == #[trigger] (sub + suffix) {
        let sub = choose|sub: Seq<char>| s == #[trigger] (sub + suffix);
        assert(s.subrange(s.len() - suffix.len(), s.len() as int) =~= suffix);
    }
}

/// The addresses that are answered with are IPv4 addresses out of the lookup, no two
/// neighbours the same.
pub proof fn answered_addresses_come_from_the_lookup(addrs: Seq<IpAddr>, i: int)
    requires
        0 <= i < deduped(v4_of(addrs)).len(),
    ensures
        addrs.contains(IpAddr::V4(deduped(v4_of(addrs))[i])),
        i > 0 ==> deduped(v4_of(addrs))[i] != deduped(v4_of(addrs))[i - 1],
{
    lemma_deduped(v4_of(addrs), i);
    let ip = deduped(v4_of(addrs))[i];
    let k = choose|k: int| 0 <= k < v4_of(addrs).len() && v4_of(addrs)[k] == ip;
    lemma_v4_of(addrs, k);
}

proof fn lemma_v4_of(addrs: Seq<IpAddr>, k: int)
    requires
        0 <= k < v4_of(addrs).len(),
    ensures
        addrs.contains(IpAddr::V4(v4_of(addrs)[k])),
    decreases addrs.len(),
{
    let rest = addrs.drop_last();
    if k < v4_of(rest).len() {
        lemma_v4_of(rest, k);
        let j = choose|j: int| 0 <= j < rest.len() && rest[j] == IpAddr::V4(v4_of(rest)[k]);
        assert(addrs[j] == rest[j]);
    } else {
        assert(addrs[addrs.len() - 1] == addrs.last());
    }
}

proof fn lemma_deduped(ips: Seq<Ipv4Addr>, i: int)
    requires
        0 <= i < deduped(ips).len(),
    ensures
        ips.contains(deduped(ips)[i]),
        i > 0 ==> deduped(ips)[i] != deduped(ips)[i - 1],
        ips.len() > 0 ==> deduped(ips).len() > 0 && deduped(ips).last() == ips.last(),
    decreases ips.len(),
{
    if ips.len() == 1 {
        assert(ips.contains(ips[0]));
    } else if ips.len() > 1 {
        let rest = ips.drop_last();
        lemma_deduped_last(rest);
        if i < deduped(rest).len() {
            lemma_deduped(rest, i);
            let j = choose|j: int| 0 <= j < rest.len() && rest[j] == deduped(rest)[i];
            assert(ips[j] == rest[j]);
        } else {
            assert(ips[ips.len() - 1] == ips.last());
        }
    }
}

proof fn lemma_deduped_last(ips: Seq<Ipv4Addr>)
    requires
        ips.len() > 0,
    ensures
        deduped(ips).len() > 0,
        deduped(ips).last() == ips.last(),
    decreases ips.len(),
{
    if ips.len() > 1 {
        lemma_deduped_last(ips.drop_last());
    }
}

/// Every IPv4 address of a lookup is among those that are answered with, before they are
/// cut.
pub proof fn no_address_is_lost(addrs: Seq<IpAddr>, k: int)
    requires
        0 <= k < addrs.len(),
        addrs[k] is V4,
    ensures
        deduped(v4_of(addrs)).contains(addrs[k]->V4_0),
    decreases addrs.len(),
{
    lemma_v4_has(addrs, k);
    let all = v4_of(addrs);
    let j = choose|j: int| 0 <= j < all.len() && all[j] == addrs[k]->V4_0;
    lemma_deduped_has(all, j);
}

proof fn lemma_v4_has(addrs: Seq<IpAddr>, k: int)
    requires
        0 <= k < addrs.len(),
        addrs[k] is V4,
    ensures
        v4_of(addrs).contains(addrs[k]->V4_0),
    decreases addrs.len(),
{
    let rest = addrs.drop_last();
    let all = v4_of(addrs);
    if k < rest.len() {
        lemma_v4_has(rest, k);
        let j = choose|j: int| 0 <= j < v4_of(rest).len() && v4_of(rest)[j] == rest[k]->V4_0;
        assert(all[j] == rest[k]->V4_0);
    } else {
        assert(all[all.len() - 1] == addrs[k]->V4_0);
    }
}

proof fn lemma_deduped_has(ips: Seq<Ipv4Addr>, k: int)
    requires
        0 <= k < ips.len(),
    ensures
        deduped(ips).contains(ips[k]),
    decreases ips.len(),
{
    let d = deduped(ips);
    if ips.len() > 1 {
        let rest = ips.drop_last();
        lemma_deduped_last(rest);
        if k < rest.len() {
            lemma_deduped_has(rest, k);
            let j = choose|j: int| 0 <= j < deduped(rest).len() && deduped(rest)[j] == rest[k];
            assert(d[j] == ips[k]);
        } else {
            assert(d[d.len() - 1] == ips[k]);
        }
    } else {
        assert(d[k] == ips[k]);
    }
}

/// The addresses of a lookup that are of IPv6 do not matter for the answer.
pub proof fn ipv6_addresses_do_not_count(a: Seq<IpAddr>, bits: u128, b: Seq<IpAddr>)
    ensures
        answered_with(a + seq![IpAddr::V6(bits)] + b) == answered_with(a + b),
{
    let x = seq![IpAddr::V6(bits)];
    lemma_v4_concat(a + x, b);
    lemma_v4_concat(a, x);
    lemma_v4_concat(a, b);
    reveal_with_fuel(v4_of, 2);
    assert(x.drop_last().len() == 0);
    assert(x.last() == IpAddr::V6(bits));
    assert(v4_of(x) =~= Seq::<Ipv4Addr>::empty());
    assert(v4_of(a) + v4_of(x) =~= v4_of(a));
}

/// An address that comes twice in a row is answered as if it had come once.
pub proof fn repetitions_do_not_count(a: Seq<IpAddr>, ip: Ipv4Addr, b: Seq<IpAddr>)
    ensures
        answered_with(a + seq![IpAddr::V4(ip), IpAddr::V4(ip)] + b) == answered_with(
            a + seq![IpAddr::V4(ip)] + b,
        ),
{
    let one = seq![IpAddr::V4(ip)];
    let two = seq![IpAddr::V4(ip), IpAddr::V4(ip)];
    lemma_v4_concat(a + two, b);
    lemma_v4_concat(a, two);
    lemma_v4_concat(a + one, b);
    lemma_v4_concat(a, one);
    lemma_v4_concat(one, one);
    reveal_with_fuel(v4_of, 2);
    assert(one.drop_last().len() == 0);
    assert(one.last() == IpAddr::V4(ip));
    assert(v4_of(one) =~= seq![ip]);
    assert(two =~= one + one);
    assert(v4_of(two) =~= seq![ip, ip]);
    lemma_deduped_twice(v4_of(a), ip, v4_of(b));
}

/// IPv4 addresses that differ from their neighbours are answered in their order, the first
/// four of them.
pub proof fn the_first_four_are_answered(ips: Seq<Ipv4Addr>, i: int)
    requires
        forall|k: int| 0 < k < ips.len() ==> #[trigger] ips[k] != ips[k - 1],
    ensures
        ({
            let r = answered_with(Seq::new(ips.len(), |k: int| IpAddr::V4(ips[k])));
            &&& r.len() == if ips.len() < 4 {
                ips.len()
            } else {
                4
            }
            &&& 0 <= i < r.len() ==> r[i] == ips[i]
        }),
{
    let addrs = Seq::new(ips.len(), |k: int| IpAddr::V4(ips[k]));
    lemma_v4_of_v4(ips);
    lemma_deduped_nothing(ips);
}

proof fn lemma_v4_concat(a: Seq<IpAddr>, b: Seq<IpAddr>)
    ensures
        v4_of(a + b) == v4_of(a) + v4_of(b),
    decreases b.len(),
{
    if b.len() == 0 {
        assert(a + b =~= a);
        assert(v4_of(a) + v4_of(b) =~= v4_of(a));
    } else {
        lemma_v4_concat(a, b.drop_last());
        assert((a + b).drop_last() =~= a + b.drop_last());
        assert((a + b).last() == b.last());
        assert(v4_of(a + b) =~= v4_of(a) + v4_of(b));
    }
}

proof fn lemma_v4_of_v4(ips: Seq<Ipv4Addr>)
    ensures
        v4_of(Seq::new(ips.len(), |k: int| IpAddr::V4(ips[k]))) == ips,
    decreases ips.len(),
{
    let addrs = Seq::new(ips.len(), |k: int| IpAddr::V4(ips[k]));
    if ips.len() > 0 {
        let d = ips.drop_last();
        lemma_v4_of_v4(d);
        assert(addrs.drop_last() =~= Seq::new(d.len(), |k: int| IpAddr::V4(d[k])));
        assert(d.push(ips.last()) =~= ips);
    } else {
        assert(v4_of(addrs) =~= ips);
    }
}

proof fn lemma_deduped_nothing(ips: Seq<Ipv4Addr>)
    requires
        forall|k: int| 0 < k < ips.len() ==> #[trigger] ips[k] != ips[k - 1],
    ensures
        deduped(ips) == ips,
    decreases ips.len(),
{
    if ips.len() > 1 {
        let d = ips.drop_last();
        assert forall|k: int| 0 < k < d.len() implies #[trigger] d[k] != d[k - 1] by {
            assert(ips[k] != ips[k - 1]);
        }
        lemma_deduped_nothing(d);
        assert(ips[ips.len() - 1] != ips[ips.len() - 2]);
        assert(d.push(ips.last()) =~= ips);
    }
}

proof fn lemma_deduped_twice(a: Seq<Ipv4Addr>, ip: Ipv4Addr, b: Seq<Ipv4Addr>)
    ensures
        deduped(a + seq![ip, ip] + b) == deduped(a + seq![ip] + b),
    decreases b.len(),
{
    let s = a + seq![ip, ip] + b;
    let t = a + seq![ip] + b;
    if b.len() == 0 {
        assert(s.drop_last() =~= t);
        assert(s.last() == ip && s[s.len() - 2] == ip);
    } else {
        lemma_deduped_twice(a, ip, b.drop_last());
        assert(s.drop_last() =~= a + seq![ip, ip] + b.drop_last());
        assert(t.drop_last() =~= a + seq![ip] + b.drop_last());
        assert(s.last() == b.last() && t.last() == b.last());
        assert(s[s.len() - 2] == t[t.len() - 2]);
    }
}

/// Of the names that are asked for, those that are resolved are kept, in their order.
pub proof fn resolvable_names_are_kept(names: Seq<Seq<char>>)
    ensures
        kept(names) == names.filter(|n: Seq<char>| resolvable(n)),
    decreases names.len(),
{
    reveal(Seq::filter);
    if names.len() > 0 {
        resolvable_names_are_kept(names.drop_last());
    }
}

/// A request is refused if it is cut short, asks for more than 16 names, or has a name
/// that is empty, longer than 64 bytes, or no UTF-8; one that asks for nothing is read.
pub proof fn malformed_requests_are_refused(frame: Seq<u8>, len: int)
    requires
        len <= frame.len(),
    ensures
        len < 12 ==> request_of(frame, len) is None,
        len >= 12 && frame[11] > 16 ==> request_of(frame, len) is None,
        len >= 12 && frame[11] == 0 ==> request_of(frame, len) is Some,
        len == 12 && frame[11] > 0 ==> request_of(frame, len) is None,
        len > 12 && frame[11] > 0 && (frame[12] == 0 || frame[12] > 64 || 13 + frame[12] as int > len)
            ==> request_of(frame, len) is None,
        len > 12 && frame[11] > 0 && 13 + frame[12] as int <= len && !valid_utf8(
            frame.subrange(13, 13 + frame[12] as int),
        ) ==> request_of(frame, len) is None,
        len >= 12 && request_of(frame, len) is Some ==> request_of(frame, len)->Some_0.id == frame[9] as int
            * 256 + frame[10] as int,
{
}

} // verus!
