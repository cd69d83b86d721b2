//! The report of the live connections.

use crate::auth::{hex, hex_range, hex_reads_back, push_hex, SessionAuthState};
use crate::endpoint::{endpoint_text, push_endpoint};
use crate::num::{larger, max_of};
use crate::session::{SessionEntry, SessionTable, SessionView};
use crate::stats::{SessionTraffic, TrafficTable};
use crate::text::{
    chars_of, decimal, decimals_read_back, is_digit, push_decimal, split, splitting_goes_from_piece_to_piece,
};
use vstd::prelude::*;
use vstd::string::*;

verus! {

/// A character inside a JSON string.
pub open spec fn escaped_char(c: char) -> Seq<char> {
    if c == '"' {
        seq!['\\', '"']
    } else if c == '\\' {
        seq!['\\', '\\']
    } else if c == '\n' {
        seq!['\\', 'n']
    } else if c == '\r' {
        seq!['\\', 'r']
    } else if c == '\t' {
        seq!['\\', 't']
    } else {
        seq![c]
    }
}

/// A text inside a JSON string.
pub open spec fn escaped(s: Seq<char>) -> Seq<char>
    decreases s.len(),
{
    if s.len() == 0 {
        Seq::empty()
    } else {
        escaped(s.drop_last()) + escaped_char(s.last())
    }
}

fn push_escaped(out: &mut String, value: &str)
    ensures
        final(out)@ == old(out)@ + escaped(value@),
{
    let ghost before = out@;
    let chars = chars_of(value);
    let mut i: usize = 0;
    assert(out@ =~= before + escaped(chars@.take(0)));
    while i < chars.len()
        invariant
            i <= chars@.len(),
            out@ == before + escaped(chars@.take(i as int)),
        decreases chars.len() - i,
    {
        let c: char = chars[i];
        assert(chars@.take(i + 1).drop_last() =~= chars@.take(i as int));
        if c == '"' {
            out.push('\\');
            out.push('"');
        } else if c == '\\' {
            out.push('\\');
            out.push('\\');
        } else if c == '\n' {
            out.push('\\');
            out.push('n');
        } else if c == '\r' {
            out.push('\\');
            out.push('r');
        } else if c == '\t' {
            out.push('\\');
            out.push('t');
        } else {
            out.push(c);
        }
        assert(out@ =~= before + escaped(chars@.take(i + 1)));
        i = i + 1;
    }
    assert(chars@.take(i as int) =~= chars@);
}

/// Makes a text fit into a JSON string.
pub fn escape_json(value: &str) -> (r: String)
    ensures
        r@ == escaped(value@),
{
    let mut out = String::new();
    push_escaped(&mut out, value);
    assert(out@ =~= escaped(value@));
    out
}

/// A connection as it is reported.
pub struct ConnectionSnapshot {
    pub key: u64,
    pub session: SessionEntry,
    pub traffic: SessionTraffic,
}

/// The content of a [`ConnectionSnapshot`].
pub ghost struct ConnectionView {
    pub key: u64,
    pub session: SessionView,
    pub traffic: SessionTraffic,
}

impl ConnectionSnapshot {
    pub open spec fn view(self) -> ConnectionView {
        ConnectionView { key: self.key, session: self.session@, traffic: self.traffic }
    }
}

/// The traffic that is reported for a session: its own, connected no earlier than the
/// session was opened; or none, since the session was opened.
pub open spec fn reported_traffic(s: SessionView, t: Option<SessionTraffic>) -> SessionTraffic {
    match t {
        Some(t) => SessionTraffic {
            connected_at_unix: max_of(t.connected_at_unix, s.created_at_unix),
            ..t
        },
        None => SessionTraffic {
            connected_at_unix: s.created_at_unix,
            bytes_in: 0,
            bytes_out: 0,
            packets_in: 0,
            packets_out: 0,
            last_activity_unix: s.last_activity_unix,
            last_rtt_us: 0,
        },
    }
}

/// The report of a session.
pub open spec fn connection_of(
    sessions: Map<u64, SessionView>,
    traffic: Map<u64, SessionTraffic>,
    key: u64,
) -> ConnectionView {
    ConnectionView {
        key,
        session: sessions[key],
        traffic: reported_traffic(
            sessions[key],
            if traffic.contains_key(key) {
                Some(traffic[key])
            } else {
                None
            },
        ),
    }
}

/// Whether the rows report each session once, the latest activity first.
pub open spec fn reports_sessions(
    rows: Seq<ConnectionView>,
    sessions: Map<u64, SessionView>,
    traffic: Map<u64, SessionTraffic>,
) -> bool {
    &&& forall|i: int, j: int|
        #![trigger rows[i], rows[j]]
        0 <= i < j < rows.len() ==> rows[i].key != rows[j].key && rows[i].traffic.last_activity_unix
            >= rows[j].traffic.last_activity_unix
    &&& forall|i: int|
        0 <= i < rows.len() ==> sessions.contains_key((#[trigger] rows[i]).key) && rows[i] == connection_of(
            sessions,
            traffic,
            rows[i].key,
        )
    &&& forall|key: u64| #[trigger]
        sessions.contains_key(key) ==> exists|i: int| 0 <= i < rows.len() && (#[trigger] rows[i]).key
            == key
}

/// A connection in JSON.
pub open spec fn connection_json(c: ConnectionView) -> Seq<char> {
    "{\"user_id\":\""@ + escaped(c.session.user_id) + "\",\"session_id\":\""@ + hex(c.key as nat, 16)
        + "\",\"auth_state\":\""@ + c.session.auth_state.name() + "\",\"connected_at\":"@ + decimal(
        c.traffic.connected_at_unix as nat,
    ) + ",\"last_activity_at\":"@ + decimal(c.traffic.last_activity_unix as nat) + ",\"bytes_in\":"@
        + decimal(c.traffic.bytes_in as nat) + ",\"bytes_out\":"@ + decimal(c.traffic.bytes_out as nat)
        + ",\"client_endpoint\":\""@ + endpoint_text(c.session.client_addr) + "\",\"packets_in\":"@
        + decimal(c.traffic.packets_in as nat) + ",\"packets_out\":"@ + decimal(
        c.traffic.packets_out as nat,
    ) + ",\"rtt_us\":"@ + decimal(c.traffic.last_rtt_us as nat) + "}"@
}

/// Connections in JSON, with commas between them.
pub open spec fn connections_json(rows: Seq<ConnectionView>) -> Seq<char>
    decreases rows.len(),
{
    if rows.len() == 0 {
        Seq::empty()
    } else if rows.len() == 1 {
        connection_json(rows[0])
    } else {
        connections_json(rows.drop_last()) + ","@ + connection_json(rows.last())
    }
}

/// The report in JSON.
pub open spec fn payload_json(timestamp: u64, rows: Seq<ConnectionView>) -> Seq<char> {
    "{\"timestamp\":"@ + decimal(timestamp as nat) + ",\"connections\":["@ + connections_json(rows) + "]}"@
}

/// The report when there are no connections.
pub fn empty_connections_payload(now_unix: u64) -> (r: String)
    ensures
        r@ == payload_json(now_unix, Seq::<ConnectionView>::empty()),
{
    let mut s = String::new();
    s.append("{\"timestamp\":");
    push_decimal(&mut s, now_unix);
    s.append(",\"connections\":[");
    s.append("]}");
    assert(s@ =~= payload_json(now_unix, Seq::<ConnectionView>::empty()));
    s
}

/// The views of some rows.
pub open spec fn row_views(rows: Seq<ConnectionSnapshot>) -> Seq<ConnectionView> {
    rows.map_values(|r: ConnectionSnapshot| r@)
}

fn push_connection(s: &mut String, c: &ConnectionSnapshot)
    ensures
        final(s)@ == old(s)@ + connection_json(c@),
{
    let mut p = String::new();
    p.append("{\"user_id\":\"");
    assert(p@ =~= "{\"user_id\":\""@);
    push_escaped(&mut p, c.session.user_id.as_str());
    p.append("\",\"session_id\":\"");
    push_hex(&mut p, c.key, 16);
    p.append("\",\"auth_state\":\"");
    p.append(c.session.auth_state.as_str());
    p.append("\",\"connected_at\":");
    push_decimal(&mut p, c.traffic.connected_at_unix);
    p.append(",\"last_activity_at\":");
    push_decimal(&mut p, c.traffic.last_activity_unix);
    p.append(",\"bytes_in\":");
    push_decimal(&mut p, c.traffic.bytes_in);
    p.append(",\"bytes_out\":");
    push_decimal(&mut p, c.traffic.bytes_out);
    p.append(",\"client_endpoint\":\"");
    push_endpoint(&mut p, c.session.client_addr);
    p.append("\",\"packets_in\":");
    push_decimal(&mut p, c.traffic.packets_in);
    p.append(",\"packets_out\":");
    push_decimal(&mut p, c.traffic.packets_out);
    p.append(",\"rtt_us\":");
    push_decimal(&mut p, c.traffic.last_rtt_us);
    p.append("}");
    s.append(p.as_str());
}

/// Puts a row behind every one that is not older.
fn insert_row(rows: &mut Vec<ConnectionSnapshot>, row: ConnectionSnapshot)
    requires
        forall|i: int, j: int|
            #![trigger old(rows)@[i], old(rows)@[j]]
            0 <= i < j < old(rows)@.len() ==> old(rows)@[i].traffic.last_activity_unix
                >= old(rows)@[j].traffic.last_activity_unix,
    ensures
        forall|i: int, j: int|
            #![trigger final(rows)@[i], final(rows)@[j]]
            0 <= i < j < final(rows)@.len() ==> final(rows)@[i].traffic.last_activity_unix
                >= final(rows)@[j].traffic.last_activity_unix,
        exists|k: int| 0 <= k <= old(rows)@.len() && final(rows)@ == #[trigger] old(rows)@.insert(k, row),
{
    let ghost before = rows@;
    let mut i: usize = 0;
    while i < rows.len() && rows[i].traffic.last_activity_unix >= row.traffic.last_activity_unix
        invariant
            i <= rows@.len(),
            rows@ == before,
            forall|j: int|
                0 <= j < i ==> (#[trigger] rows@[j]).traffic.last_activity_unix
                    >= row.traffic.last_activity_unix,
        decreases rows.len() - i,
    {
        i = i + 1;
    }
    let n: usize = rows.len();
    assert(i < n ==> before[i as int].traffic.last_activity_unix < row.traffic.last_activity_unix);
    let ghost new = row;
    rows.insert(i, row);
    proof {
        let after = rows@;
        assert(after == before.insert(i as int, new));
        assert forall|a: int, b: int|
            #![trigger after[a], after[b]]
            0 <= a < b < after.len() implies after[a].traffic.last_activity_unix
            >= after[b].traffic.last_activity_unix by {
            let x = if a < i {
                before[a]
            } else if a == i {
                new
            } else {
                before[a - 1]
            };
            let y = if b < i {
                before[b]
            } else if b == i {
                new
            } else {
                before[b - 1]
            };
            assert(after[a] == x && after[b] == y);
            if a == i && b - 1 > i {
                assert(before[i as int].traffic.last_activity_unix
                    >= before[b - 1].traffic.last_activity_unix);
            }
        }
    }
}

/// The row of a session.
fn connection_row(sessions: &SessionTable, traffic: &TrafficTable, key: u64) -> (r: Option<
    ConnectionSnapshot,
>)
    ensures
        match r {
            Some(row) => sessions@.contains_key(key) && row@ == connection_of(sessions@, traffic@, key),
            None => !sessions@.contains_key(key),
        },
{
    match sessions.get(key) {
        None => None,
        Some(session) => {
            let reported: SessionTraffic = match traffic.get(key) {
                Some(t) => SessionTraffic {
                    connected_at_unix: larger(t.connected_at_unix, session.created_at_unix),
                    ..t
                },
                None => SessionTraffic {
                    connected_at_unix: session.created_at_unix,
                    bytes_in: 0,
                    bytes_out: 0,
                    packets_in: 0,
                    packets_out: 0,
                    last_activity_unix: session.last_activity_unix,
                    last_rtt_us: 0,
                },
            };
            Some(ConnectionSnapshot { key, session, traffic: reported })
        },
    }
}

/// Whether there is a row for the session.
spec fn has_row(rows: Seq<ConnectionSnapshot>, key: u64) -> bool {
    exists|a: int| 0 <= a < rows.len() && (#[trigger] rows[a]).key == key
}

/// The rows of all sessions, the latest activity first.
fn connection_rows(sessions: &SessionTable, traffic: &TrafficTable) -> (rows: Vec<ConnectionSnapshot>)
    ensures
        reports_sessions(row_views(rows@), sessions@, traffic@),
{
    let keys = sessions.keys();
    let mut rows: Vec<ConnectionSnapshot> = Vec::new();
    let mut i: usize = 0;
    assert forall|j: int| 0 <= j < keys@.len() implies sessions@.contains_key(#[trigger] keys@[j]) by {
        assert(keys@.contains(keys@[j]));
    }
    while i < keys.len()
        invariant
            i <= keys@.len(),
            keys@.no_duplicates(),
            forall|j: int| 0 <= j < keys@.len() ==> sessions@.contains_key(#[trigger] keys@[j]),
            rows@.len() == i,
            forall|a: int, b: int|
                #![trigger rows@[a], rows@[b]]
                0 <= a < b < rows@.len() ==> rows@[a].traffic.last_activity_unix
                    >= rows@[b].traffic.last_activity_unix,
            forall|a: int, b: int|
                #![trigger rows@[a], rows@[b]]
                0 <= a < b < rows@.len() ==> rows@[a].key != rows@[b].key,
            forall|a: int|
                0 <= a < rows@.len() ==> (#[trigger] rows@[a])@ == connection_of(
                    sessions@,
                    traffic@,
                    rows@[a].key,
                ) && keys@.take(i as int).contains(rows@[a].key),
            forall|j: int| 0 <= j < i ==> has_row(rows@, #[trigger] keys@[j]),
        decreases keys.len() - i,
    {
        let key: u64 = keys[i];
        assert(sessions@.contains_key(keys@[i as int]));
        if let Some(row) = connection_row(sessions, traffic, key) {
            let ghost before = rows@;
            let ghost new = row;
            insert_row(&mut rows, row);
            proof {
                lemma_row_inserted(before, rows@, new, keys@, i as int, sessions@, traffic@);
            }
        }
        i = i + 1;
    }
    proof {
        let views = row_views(rows@);
        assert forall|a: int| 0 <= a < views.len() implies sessions@.contains_key(
            (#[trigger] views[a]).key,
        ) && views[a] == connection_of(sessions@, traffic@, views[a].key) by {
            assert(views[a] == rows@[a]@);
            let k = choose|k: int| 0 <= k < i && keys@.take(i as int)[k] == rows@[a].key;
            assert(sessions@.contains_key(keys@[k]));
        }
        assert forall|a: int, b: int| #![trigger views[a], views[b]] 0 <= a < b < views.len() implies views[a].key
            != views[b].key && views[a].traffic.last_activity_unix
            >= views[b].traffic.last_activity_unix by {
            assert(rows@[a].key != rows@[b].key);
        }
        assert forall|key: u64| #[trigger] sessions@.contains_key(key) implies exists|a: int|
            0 <= a < views.len() && (#[trigger] views[a]).key == key by {
            assert(keys@.contains(key));
            let j = choose|j: int| 0 <= j < keys@.len() && keys@[j] == key;
            assert(has_row(rows@, keys@[j]));
            let a = choose|a: int| 0 <= a < rows@.len() && (#[trigger] rows@[a]).key == keys@[j];
            assert(views[a].key == key);
        }
    }
    rows
}

/// One session further through the rows.
proof fn lemma_row_inserted(
    before: Seq<ConnectionSnapshot>,
    after: Seq<ConnectionSnapshot>,
    row: ConnectionSnapshot,
    keys: Seq<u64>,
    i: int,
    sessions: Map<u64, SessionView>,
    traffic: Map<u64, SessionTraffic>,
)
    requires
        0 <= i < keys.len(),
        keys.no_duplicates(),
        before.len() == i,
        exists|k: int| 0 <= k <= before.len() && after == #[trigger] before.insert(k, row),
        row@ == connection_of(sessions, traffic, keys[i]),
        forall|a: int, b: int|
            #![trigger before[a], before[b]]
            0 <= a < b < before.len() ==> before[a].key != before[b].key,
        forall|a: int|
            0 <= a < before.len() ==> (#[trigger] before[a])@ == connection_of(
                sessions,
                traffic,
                before[a].key,
            ) && keys.take(i).contains(before[a].key),
        forall|j: int| 0 <= j < i ==> has_row(before, #[trigger] keys[j]),
    ensures
        after.len() == i + 1,
        forall|a: int, b: int|
            #![trigger after[a], after[b]]
            0 <= a < b < after.len() ==> after[a].key != after[b].key,
        forall|a: int|
            0 <= a < after.len() ==> (#[trigger] after[a])@ == connection_of(
                sessions,
                traffic,
                after[a].key,
            ) && keys.take(i + 1).contains(after[a].key),
        forall|j: int| 0 <= j < i + 1 ==> has_row(after, #[trigger] keys[j]),
{
    let k = choose|k: int| 0 <= k <= before.len() && after == #[trigger] before.insert(k, row);
    assert(row.key == keys[i]);
    assert forall|a: int| 0 <= a < before.len() implies (#[trigger] before[a]).key != keys[i] by {
        let x = choose|x: int| 0 <= x < i && keys.take(i)[x] == before[a].key;
        assert(keys[x] != keys[i]);
    }
    assert forall|a: int| 0 <= a < after.len() implies #[trigger] after[a] == if a < k {
        before[a]
    } else if a == k {
        row
    } else {
        before[a - 1]
    } by {}
    assert forall|a: int| 0 <= a < after.len() implies (#[trigger] after[a])@ == connection_of(
        sessions,
        traffic,
        after[a].key,
    ) && keys.take(i + 1).contains(after[a].key) by {
        if a == k {
            assert(keys.take(i + 1)[i] == after[a].key);
        } else {
            let b = if a < k {
                a
            } else {
                a - 1
            };
            assert(after[a] == before[b]);
            let x = choose|x: int| 0 <= x < i && keys.take(i)[x] == before[b].key;
            assert(keys.take(i + 1)[x] == after[a].key);
        }
    }
    assert forall|j: int| 0 <= j < i + 1 implies has_row(after, #[trigger] keys[j]) by {
        if j == i {
            assert(after[k].key == keys[j]);
        } else {
            let a = choose|a: int| 0 <= a < before.len() && (#[trigger] before[a]).key == keys[j];
            if a < k {
                assert(after[a].key == keys[j]);
            } else {
                assert(after[a + 1].key == keys[j]);
            }
        }
    }
}

/// The report of the live connections.
pub fn render_connections_payload(sessions: &SessionTable, traffic: &TrafficTable, now_unix: u64) -> (r:
    String)
    ensures
        exists|rows: Seq<ConnectionView>| #[trigger]
            reports_sessions(rows, sessions@, traffic@) && r@ == payload_json(now_unix, rows),
{
    let rows = connection_rows(sessions, traffic);
    let ghost views = row_views(rows@);
    let mut body = String::new();
    body.append("{\"timestamp\":");
    push_decimal(&mut body, now_unix);
    body.append(",\"connections\":[");
    let ghost lead = body@;
    let mut i: usize = 0;
    assert(body@ =~= lead + connections_json(views.take(0)));
    while i < rows.len()
        invariant
            i <= rows@.len(),
            views == row_views(rows@),
            body@ == lead + connections_json(views.take(i as int)),
        decreases rows.len() - i,
    {
        assert(views.take(i + 1).drop_last() =~= views.take(i as int));
        assert(views[i as int] == rows@[i as int]@);
        if i > 0 {
            body.append(",");
        }
        push_connection(&mut body, &rows[i]);
        assert(body@ =~= lead + connections_json(views.take(i + 1)));
        i = i + 1;
    }
    assert(views.take(i as int) =~= views);
    body.append("]}");
    assert(body@ =~= payload_json(now_unix, views));
    body
}

/// What a text inside a JSON string stands for, with the escapes that are written here.
pub open spec fn unescaped(s: Seq<char>) -> Seq<char>
    decreases s.len(),
{
    if s.len() == 0 {
        Seq::empty()
    } else if s[0] == '\\' && s.len() >= 2 {
        seq![
            if s[1] == 'n' {
                '\n'
            } else if s[1] == 'r' {
                '\r'
            } else if s[1] == 't' {
                '\t'
            } else {
                s[1]
            },
        ] + unescaped(s.subrange(2, s.len() as int))
    } else {
        seq![s[0]] + unescaped(s.subrange(1, s.len() as int))
    }
}

/// An escaped text stands for the text, and holds no quote that would end it: each is
/// behind a backslash.
pub proof fn escaped_texts_read_back(s: Seq<char>)
    ensures
        unescaped(escaped(s)) == s,
        forall|i: int|
            0 <= i < escaped(s).len() && #[trigger] escaped(s)[i] == '"' ==> i > 0 && escaped(s)[i - 1]
                == '\\',
        forall|i: int|
            0 <= i < escaped(s).len() ==> #[trigger] escaped(s)[i] != '\n' && escaped(s)[i] != '\r'
                && escaped(s)[i] != '\t',
    decreases s.len(),
{
    if s.len() > 0 {
        let d = s.drop_last();
        escaped_texts_read_back(d);
        lemma_unescaped_end(d, s.last());
        assert(d.push(s.last()) =~= s);
        let e = escaped(s);
        let f = escaped(d);
        assert forall|i: int| 0 <= i < e.len() && #[trigger] e[i] == '"' implies i > 0 && e[i - 1]
            == '\\' by {
            if i < f.len() {
                assert(f[i] == '"');
                assert(e[i - 1] == f[i - 1]);
            }
        }
        assert forall|i: int| 0 <= i < e.len() implies #[trigger] e[i] != '\n' && e[i] != '\r' && e[i]
            != '\t' by {
            if i < f.len() {
                assert(e[i] == f[i]);
            }
        }
    }
}

proof fn lemma_unescaped_end(s: Seq<char>, c: char)
    ensures
        unescaped(escaped(s) + escaped_char(c)) == unescaped(escaped(s)).push(c),
{
    lemma_unescaped_concat(s, escaped_char(c));
    reveal_with_fuel(unescaped, 3);
    let x = escaped_char(c);
    assert(unescaped(x) =~= seq![c]);
    assert(unescaped(escaped(s)) + seq![c] =~= unescaped(escaped(s)).push(c));
}

proof fn lemma_unescaped_concat(s: Seq<char>, tail: Seq<char>)
    ensures
        unescaped(escaped(s) + tail) == unescaped(escaped(s)) + unescaped(tail),
    decreases s.len(),
{
    if s.len() == 0 {
        assert(escaped(s) + tail =~= tail);
        assert(unescaped(escaped(s)) + unescaped(tail) =~= unescaped(tail));
    } else {
        let first = escaped_char(s[0]);
        let rest = s.subrange(1, s.len() as int);
        lemma_escaped_front(s);
        lemma_unescaped_concat(rest, tail);
        let a = escaped(s) + tail;
        assert(a =~= first + (escaped(rest) + tail));
        assert(escaped(s) =~= first + escaped(rest));
        let n = first.len() as int;
        assert(a.subrange(n, a.len() as int) =~= escaped(rest) + tail);
        assert(escaped(s).subrange(n, escaped(s).len() as int) =~= escaped(rest));
        assert(a[0] == first[0] && escaped(s)[0] == first[0]);
        if n == 2 {
            assert(a[1] == first[1] && escaped(s)[1] == first[1]);
        }
        assert(unescaped(a) =~= unescaped(escaped(s)) + unescaped(tail));
    }
}

proof fn lemma_escaped_front(s: Seq<char>)
    requires
        s.len() > 0,
    ensures
        escaped(s) == escaped_char(s[0]) + escaped(s.subrange(1, s.len() as int)),
    decreases s.len(),
{
    let rest = s.subrange(1, s.len() as int);
    if s.len() == 1 {
        assert(s.drop_last() =~= Seq::empty());
        assert(rest =~= Seq::empty());
        assert(escaped(s) =~= escaped_char(s[0]) + escaped(rest));
    } else {
        let d = s.drop_last();
        lemma_escaped_front(d);
        assert(d.subrange(1, d.len() as int) =~= rest.drop_last());
        assert(escaped(s) =~= escaped_char(s[0]) + escaped(rest));
    }
}

/// The rows of a report: a session whose latest activity is later stands before every one
/// whose activity is earlier, none stands twice, and each row has the session's own
/// counts, or none where nothing was counted, and says that it is connected since the
/// session was opened at the earliest.
pub proof fn reports_have_the_latest_first(
    rows: Seq<ConnectionView>,
    sessions: Map<u64, SessionView>,
    traffic: Map<u64, SessionTraffic>,
    i: int,
    j: int,
)
    requires
        reports_sessions(rows, sessions, traffic),
        0 <= i < rows.len(),
        0 <= j < rows.len(),
    ensures
        ({
            let key = rows[i].key;
            let s = sessions[key];
            let t = rows[i].traffic;
            &&& rows[i].traffic.last_activity_unix > rows[j].traffic.last_activity_unix ==> i < j
            &&& rows[i].key == rows[j].key ==> i == j
            &&& sessions.contains_key(key)
            &&& rows[i].session == s
            &&& t.connected_at_unix >= s.created_at_unix
            &&& traffic.contains_key(key) ==> {
                let u = traffic[key];
                &&& t.bytes_in == u.bytes_in && t.bytes_out == u.bytes_out
                &&& t.packets_in == u.packets_in && t.packets_out == u.packets_out
                &&& t.last_activity_unix == u.last_activity_unix && t.last_rtt_us == u.last_rtt_us
                &&& t.connected_at_unix == u.connected_at_unix || t.connected_at_unix == s.created_at_unix
                &&& t.connected_at_unix >= u.connected_at_unix
            }
            &&& !traffic.contains_key(key) ==> {
                &&& t.bytes_in == 0 && t.bytes_out == 0 && t.packets_in == 0 && t.packets_out == 0
                &&& t.last_rtt_us == 0
                &&& t.last_activity_unix == s.last_activity_unix
                &&& t.connected_at_unix == s.created_at_unix
            }
        }),
{
    assert(rows[i] == connection_of(sessions, traffic, rows[i].key));
    if i < j {
        assert(rows[i].key != rows[j].key);
    }
    if j < i {
        assert(rows[j].key != rows[i].key);
    }
}

/// Every session is in the report.
pub proof fn reports_leave_nobody_out(
    rows: Seq<ConnectionView>,
    sessions: Map<u64, SessionView>,
    traffic: Map<u64, SessionTraffic>,
    key: u64,
)
    requires
        reports_sessions(rows, sessions, traffic),
        sessions.contains_key(key),
    ensures
        exists|i: int| 0 <= i < rows.len() && (#[trigger] rows[i]).key == key,
{
}

/// A report of a connection has each value under its own name: split at its quotes, the
/// names and the texts stand between them, and the numbers behind the names.
#[verifier::rlimit(60)]
pub proof fn connections_have_their_values_by_name(c: ConnectionView)
    requires
        !c.session.user_id.contains('"'),
        !endpoint_text(c.session.client_addr).contains('"'),
    ensures
        ({
            let p = split(connection_json(c), '"');
            let number = |n: u64, end: char| seq![':'] + decimal(n as nat) + seq![end];
            let t = c.traffic;
            &&& p.len() == 31
            &&& p[1] == "user_id"@ && p[3] == escaped(c.session.user_id)
            &&& p[5] == "session_id"@ && p[7] == hex(c.key as nat, 16)
            &&& p[9] == "auth_state"@ && p[11] == c.session.auth_state.name()
            &&& p[13] == "connected_at"@ && p[14] == number(t.connected_at_unix, ',')
            &&& p[15] == "last_activity_at"@ && p[16] == number(t.last_activity_unix, ',')
            &&& p[17] == "bytes_in"@ && p[18] == number(t.bytes_in, ',')
            &&& p[19] == "bytes_out"@ && p[20] == number(t.bytes_out, ',')
            &&& p[21] == "client_endpoint"@ && p[23] == endpoint_text(c.session.client_addr)
            &&& p[25] == "packets_in"@ && p[26] == number(t.packets_in, ',')
            &&& p[27] == "packets_out"@ && p[28] == number(t.packets_out, ',')
            &&& p[29] == "rtt_us"@ && p[30] == number(t.last_rtt_us, '}')
        }),
{
    let t = c.traffic;
    let u = escaped(c.session.user_id);
    let h = hex(c.key as nat, 16);
    let s = c.session.auth_state.name();
    let e = endpoint_text(c.session.client_addr);
    let tail = lemma_tail(t, e);
    let head = lemma_head(u, h, s, tail.0);
    lemma_json(c, tail.0);
    lemma_plain_escape(c.session.user_id);
    lemma_no_quote_in_hex(c.key);
    lemma_no_quote_in_state(c.session.auth_state);
    assert(head + tail.1 == split(connection_json(c), '"'));
}

proof fn lemma_plain_escape(s: Seq<char>)
    requires
        !s.contains('"'),
    ensures
        !escaped(s).contains('"'),
    decreases s.len(),
{
    if s.len() > 0 {
        let d = s.drop_last();
        assert(!d.contains('"')) by {
            if d.contains('"') {
                let i = choose|i: int| 0 <= i < d.len() && d[i] == '"';
                assert(s[i] == '"');
            }
        }
        lemma_plain_escape(d);
        assert(s[s.len() - 1] != '"') by {
            assert(s.contains(s[s.len() - 1]));
        }
        let x = escaped(s);
        if x.contains('"') {
            let i = choose|i: int| 0 <= i < x.len() && x[i] == '"';
            if i < escaped(d).len() {
                assert(escaped(d)[i] == '"');
            }
        }
    }
}

proof fn lemma_no_quote_in_hex(key: u64)
    ensures
        !hex(key as nat, 16).contains('"'),
{
    let h = hex(key as nat, 16);
    reveal_with_fuel(hex_range, 17);
    hex_reads_back(key as nat, 16);
    if h.contains('"') {
        let i = choose|i: int| 0 <= i < h.len() && h[i] == '"';
        assert(48 <= hex(key as nat, 16)[i] as int <= 57 || 97 <= h[i] as int <= 102);
    }
}

proof fn lemma_no_quote_in_state(s: SessionAuthState)
    ensures
        !s.name().contains('"'),
{
    reveal_strlit("legacy");
    reveal_strlit("authenticated");
}

proof fn lemma_no_quote_in_number(n: u64, end: char)
    requires
        end != '"',
    ensures
        !(seq![':'] + decimal(n as nat)).contains('"'),
        !(seq![':'] + decimal(n as nat) + seq![end]).contains('"'),
{
    let d = decimal(n as nat);
    decimals_read_back(n as nat, 0);
    let a = seq![':'] + d;
    let b = a + seq![end];
    assert forall|i: int| 0 <= i < d.len() implies #[trigger] d[i] != '"' by {
        assert(is_digit(d[i]));
    }
    if a.contains('"') {
        let i = choose|i: int| 0 <= i < a.len() && a[i] == '"';
        assert(d[i - 1] == '"');
    }
    if b.contains('"') {
        let i = choose|i: int| 0 <= i < b.len() && b[i] == '"';
        assert(d[i - 1] == '"');
    }
}

/// A text value, then a name with a text behind it.
proof fn lemma_text_text(value: Seq<char>, name: Seq<char>, rest: Seq<char>)
    requires
        !value.contains('"'),
        !name.contains('"'),
    ensures
        split(
            value + ((seq!['"', ',', '"'] + name + seq!['"', ':', '"']) + rest),
            '"',
        ) == seq![value, seq![','], name, seq![':']] + split(rest, '"'),
{
    let q = seq!['"'];
    let a = seq![':'] + q + rest;
    let b = name + q + a;
    let d = seq![','] + q + b;
    assert(value + ((seq!['"', ',', '"'] + name + seq!['"', ':', '"']) + rest) =~= value + q + d);
    splitting_goes_from_piece_to_piece(value, '"', d);
    splitting_goes_from_piece_to_piece(seq![','], '"', b);
    splitting_goes_from_piece_to_piece(name, '"', a);
    splitting_goes_from_piece_to_piece(seq![':'], '"', rest);
    assert(seq![value] + (seq![seq![',']] + (seq![name] + (seq![seq![':']] + split(rest, '"')))) =~= seq![
        value,
        seq![','],
        name,
        seq![':'],
    ] + split(rest, '"'));
}

/// A text value, then a name with a number behind it.
proof fn lemma_text_number(value: Seq<char>, name: Seq<char>, rest: Seq<char>)
    requires
        !value.contains('"'),
        !name.contains('"'),
    ensures
        split(value + ((seq!['"', ',', '"'] + name + seq!['"', ':']) + rest), '"') == seq![
            value,
            seq![','],
            name,
        ] + split(seq![':'] + rest, '"'),
{
    let q = seq!['"'];
    let a = seq![':'] + rest;
    let b = name + q + a;
    let d = seq![','] + q + b;
    assert(value + ((seq!['"', ',', '"'] + name + seq!['"', ':']) + rest) =~= value + q + d);
    splitting_goes_from_piece_to_piece(value, '"', d);
    splitting_goes_from_piece_to_piece(seq![','], '"', b);
    splitting_goes_from_piece_to_piece(name, '"', a);
    assert(seq![value] + (seq![seq![',']] + (seq![name] + split(a, '"'))) =~= seq![value, seq![','], name]
        + split(a, '"'));
}

/// A number, then a name with a number behind it.
proof fn lemma_number_number(n: u64, name: Seq<char>, rest: Seq<char>)
    requires
        !name.contains('"'),
    ensures
        split(
            seq![':'] + (decimal(n as nat) + ((seq![',', '"'] + name + seq!['"', ':']) + rest)),
            '"',
        ) == seq![seq![':'] + decimal(n as nat) + seq![','], name] + split(seq![':'] + rest, '"'),
{
    let q = seq!['"'];
    let v = seq![':'] + decimal(n as nat) + seq![','];
    let a = seq![':'] + rest;
    let b = name + q + a;
    lemma_no_quote_in_number(n, ',');
    assert(seq![':'] + (decimal(n as nat) + ((seq![',', '"'] + name + seq!['"', ':']) + rest)) =~= v + q + b);
    splitting_goes_from_piece_to_piece(v, '"', b);
    splitting_goes_from_piece_to_piece(name, '"', a);
    assert(seq![v] + (seq![name] + split(a, '"')) =~= seq![v, name] + split(a, '"'));
}

/// A number, then a name with a text behind it.
proof fn lemma_number_text(n: u64, name: Seq<char>, rest: Seq<char>)
    requires
        !name.contains('"'),
    ensures
        split(
            seq![':'] + (decimal(n as nat) + ((seq![',', '"'] + name + seq!['"', ':', '"']) + rest)),
            '"',
        ) == seq![seq![':'] + decimal(n as nat) + seq![','], name, seq![':']] + split(rest, '"'),
{
    let q = seq!['"'];
    let v = seq![':'] + decimal(n as nat) + seq![','];
    let a = seq![':'] + q + rest;
    let b = name + q + a;
    lemma_no_quote_in_number(n, ',');
    assert(seq![':'] + (decimal(n as nat) + ((seq![',', '"'] + name + seq!['"', ':', '"']) + rest)) =~= v + q
        + b);
    splitting_goes_from_piece_to_piece(v, '"', b);
    splitting_goes_from_piece_to_piece(name, '"', a);
    splitting_goes_from_piece_to_piece(seq![':'], '"', rest);
    assert(seq![v] + (seq![name] + (seq![seq![':']] + split(rest, '"'))) =~= seq![v, name, seq![':']]
        + split(rest, '"'));
}

proof fn lemma_text_user_id()
    ensures
        "{\"user_id\":\""@ == seq!['{', '"'] + "user_id"@ + seq!['"', ':', '"'],
        !"user_id"@.contains('"'),
{
    reveal_strlit("{\"user_id\":\"");
    reveal_strlit("user_id");
    assert("{\"user_id\":\""@ =~= seq!['{', '"'] + "user_id"@ + seq!['"', ':', '"']);
}

proof fn lemma_text_session_id()
    ensures
        "\",\"session_id\":\""@ == seq!['"', ',', '"'] + "session_id"@ + seq!['"', ':', '"'],
        !"session_id"@.contains('"'),
{
    reveal_strlit("\",\"session_id\":\"");
    reveal_strlit("session_id");
    assert("\",\"session_id\":\""@ =~= seq!['"', ',', '"'] + "session_id"@ + seq!['"', ':', '"']);
}

proof fn lemma_text_auth_state()
    ensures
        "\",\"auth_state\":\""@ == seq!['"', ',', '"'] + "auth_state"@ + seq!['"', ':', '"'],
        !"auth_state"@.contains('"'),
{
    reveal_strlit("\",\"auth_state\":\"");
    reveal_strlit("auth_state");
    assert("\",\"auth_state\":\""@ =~= seq!['"', ',', '"'] + "auth_state"@ + seq!['"', ':', '"']);
}

proof fn lemma_text_connected_at()
    ensures
        "\",\"connected_at\":"@ == seq!['"', ',', '"'] + "connected_at"@ + seq!['"', ':'],
        !"connected_at"@.contains('"'),
{
    reveal_strlit("\",\"connected_at\":");
    reveal_strlit("connected_at");
    assert("\",\"connected_at\":"@ =~= seq!['"', ',', '"'] + "connected_at"@ + seq!['"', ':']);
}

proof fn lemma_text_last_activity_at()
    ensures
        ",\"last_activity_at\":"@ == seq![',', '"'] + "last_activity_at"@ + seq!['"', ':'],
        !"last_activity_at"@.contains('"'),
{
    reveal_strlit(",\"last_activity_at\":");
    reveal_strlit("last_activity_at");
    assert(",\"last_activity_at\":"@ =~= seq![',', '"'] + "last_activity_at"@ + seq!['"', ':']);
}

proof fn lemma_text_bytes_in()
    ensures
        ",\"bytes_in\":"@ == seq![',', '"'] + "bytes_in"@ + seq!['"', ':'],
        !"bytes_in"@.contains('"'),
{
    reveal_strlit(",\"bytes_in\":");
    reveal_strlit("bytes_in");
    assert(",\"bytes_in\":"@ =~= seq![',', '"'] + "bytes_in"@ + seq!['"', ':']);
}

proof fn lemma_text_bytes_out()
    ensures
        ",\"bytes_out\":"@ == seq![',', '"'] + "bytes_out"@ + seq!['"', ':'],
        !"bytes_out"@.contains('"'),
{
    reveal_strlit(",\"bytes_out\":");
    reveal_strlit("bytes_out");
    assert(",\"bytes_out\":"@ =~= seq![',', '"'] + "bytes_out"@ + seq!['"', ':']);
}

proof fn lemma_text_client_endpoint()
    ensures
        ",\"client_endpoint\":\""@ == seq![',', '"'] + "client_endpoint"@ + seq!['"', ':', '"'],
        !"client_endpoint"@.contains('"'),
{
    reveal_strlit(",\"client_endpoint\":\"");
    reveal_strlit("client_endpoint");
    assert(",\"client_endpoint\":\""@ =~= seq![',', '"'] + "client_endpoint"@ + seq!['"', ':', '"']);
}

proof fn lemma_text_packets_in()
    ensures
        "\",\"packets_in\":"@ == seq!['"', ',', '"'] + "packets_in"@ + seq!['"', ':'],
        !"packets_in"@.contains('"'),
{
    reveal_strlit("\",\"packets_in\":");
    reveal_strlit("packets_in");
    assert("\",\"packets_in\":"@ =~= seq!['"', ',', '"'] + "packets_in"@ + seq!['"', ':']);
}

proof fn lemma_text_packets_out()
    ensures
        ",\"packets_out\":"@ == seq![',', '"'] + "packets_out"@ + seq!['"', ':'],
        !"packets_out"@.contains('"'),
{
    reveal_strlit(",\"packets_out\":");
    reveal_strlit("packets_out");
    assert(",\"packets_out\":"@ =~= seq![',', '"'] + "packets_out"@ + seq!['"', ':']);
}

proof fn lemma_text_rtt_us()
    ensures
        ",\"rtt_us\":"@ == seq![',', '"'] + "rtt_us"@ + seq!['"', ':'],
        !"rtt_us"@.contains('"'),
{
    reveal_strlit(",\"rtt_us\":");
    reveal_strlit("rtt_us");
    assert(",\"rtt_us\":"@ =~= seq![',', '"'] + "rtt_us"@ + seq!['"', ':']);
}

/// The text from the number of `connected_at` on, and its pieces, the colon before it among
/// them.
proof fn lemma_tail(t: SessionTraffic, e: Seq<char>) -> (r: (Seq<char>, Seq<Seq<char>>))
    ensures
        r.0 == decimal(t.connected_at_unix as nat) + (",\"last_activity_at\":"@ + (decimal(
            t.last_activity_unix as nat,
        ) + (",\"bytes_in\":"@ + (decimal(t.bytes_in as nat) + (",\"bytes_out\":"@ + (decimal(
            t.bytes_out as nat,
        ) + (",\"client_endpoint\":\""@ + (e + ("\",\"packets_in\":"@ + (decimal(
            t.packets_in as nat,
        ) + (",\"packets_out\":"@ + (decimal(t.packets_out as nat) + (",\"rtt_us\":"@ + (decimal(
            t.last_rtt_us as nat,
        ) + "}"@)))))))))))))),
        !e.contains('"') ==> r.1 == split(seq![':'] + r.0, '"') && r.1 == seq![
            seq![':'] + decimal(t.connected_at_unix as nat) + seq![','],
            "last_activity_at"@,
            seq![':'] + decimal(t.last_activity_unix as nat) + seq![','],
            "bytes_in"@,
            seq![':'] + decimal(t.bytes_in as nat) + seq![','],
            "bytes_out"@,
            seq![':'] + decimal(t.bytes_out as nat) + seq![','],
            "client_endpoint"@,
            seq![':'],
            e,
            seq![','],
            "packets_in"@,
            seq![':'] + decimal(t.packets_in as nat) + seq![','],
            "packets_out"@,
            seq![':'] + decimal(t.packets_out as nat) + seq![','],
            "rtt_us"@,
            seq![':'] + decimal(t.last_rtt_us as nat) + seq!['}'],
        ],
{
    lemma_text_last_activity_at();
    lemma_text_bytes_in();
    lemma_text_bytes_out();
    lemma_text_client_endpoint();
    lemma_text_packets_in();
    lemma_text_packets_out();
    lemma_text_rtt_us();
    reveal_strlit("}");
    assert("}"@ =~= seq!['}']);
    let x10 = decimal(t.last_rtt_us as nat) + "}"@;
    let x9 = decimal(t.packets_out as nat) + (",\"rtt_us\":"@ + x10);
    let x8 = decimal(t.packets_in as nat) + (",\"packets_out\":"@ + x9);
    let x7 = e + ("\",\"packets_in\":"@ + x8);
    let x6 = decimal(t.bytes_out as nat) + (",\"client_endpoint\":\""@ + x7);
    let x5 = decimal(t.bytes_in as nat) + (",\"bytes_out\":"@ + x6);
    let x4 = decimal(t.last_activity_unix as nat) + (",\"bytes_in\":"@ + x5);
    let x3 = decimal(t.connected_at_unix as nat) + (",\"last_activity_at\":"@ + x4);
    let last = seq![':'] + decimal(t.last_rtt_us as nat) + seq!['}'];
    assert(seq![':'] + x10 =~= last);
    lemma_no_quote_in_number(t.last_rtt_us, '}');
    splitting_goes_from_piece_to_piece(last, '"', Seq::empty());
    lemma_number_number(t.packets_out, "rtt_us"@, x10);
    lemma_number_number(t.packets_in, "packets_out"@, x9);
    lemma_number_number(t.last_activity_unix, "bytes_in"@, x5);
    lemma_number_number(t.connected_at_unix, "last_activity_at"@, x4);
    lemma_number_number(t.bytes_in, "bytes_out"@, x6);
    lemma_number_text(t.bytes_out, "client_endpoint"@, x7);
    let p10 = split(seq![':'] + x10, '"');
    let p9 = split(seq![':'] + x9, '"');
    let p8 = split(seq![':'] + x8, '"');
    let p6 = split(seq![':'] + x6, '"');
    let p5 = split(seq![':'] + x5, '"');
    let p4 = split(seq![':'] + x4, '"');
    let p3 = split(seq![':'] + x3, '"');
    if !e.contains('"') {
        lemma_text_number(e, "packets_in"@, x8);
        assert(p3 =~= seq![
            seq![':'] + decimal(t.connected_at_unix as nat) + seq![','],
            "last_activity_at"@,
            seq![':'] + decimal(t.last_activity_unix as nat) + seq![','],
            "bytes_in"@,
            seq![':'] + decimal(t.bytes_in as nat) + seq![','],
            "bytes_out"@,
            seq![':'] + decimal(t.bytes_out as nat) + seq![','],
            "client_endpoint"@,
            seq![':'],
            e,
            seq![','],
            "packets_in"@,
            seq![':'] + decimal(t.packets_in as nat) + seq![','],
            "packets_out"@,
            seq![':'] + decimal(t.packets_out as nat) + seq![','],
            "rtt_us"@,
            last,
        ]);
    }
    (x3, p3)
}

/// The pieces before the number of `connected_at`.
proof fn lemma_head(u: Seq<char>, h: Seq<char>, s: Seq<char>, x3: Seq<char>) -> (r: Seq<Seq<char>>)
    ensures
        r == seq![
            seq!['{'],
            "user_id"@,
            seq![':'],
            u,
            seq![','],
            "session_id"@,
            seq![':'],
            h,
            seq![','],
            "auth_state"@,
            seq![':'],
            s,
            seq![','],
            "connected_at"@,
        ],
        !u.contains('"') && !h.contains('"') && !s.contains('"') ==> split(
            "{\"user_id\":\""@ + (u + ("\",\"session_id\":\""@ + (h + ("\",\"auth_state\":\""@ + (s + (
            "\",\"connected_at\":"@ + x3)))))),
            '"',
        ) == r + split(seq![':'] + x3, '"'),
{
    lemma_text_user_id();
    lemma_text_session_id();
    lemma_text_auth_state();
    lemma_text_connected_at();
    let q = seq!['"'];
    let x2 = s + ("\",\"connected_at\":"@ + x3);
    let x1 = h + ("\",\"auth_state\":\""@ + x2);
    let x0 = u + ("\",\"session_id\":\""@ + x1);
    let all = "{\"user_id\":\""@ + x0;
    let r = seq![
        seq!['{'],
        "user_id"@,
        seq![':'],
        u,
        seq![','],
        "session_id"@,
        seq![':'],
        h,
        seq![','],
        "auth_state"@,
        seq![':'],
        s,
        seq![','],
        "connected_at"@,
    ];
    if !u.contains('"') && !h.contains('"') && !s.contains('"') {
        lemma_text_number(s, "connected_at"@, x3);
        lemma_text_text(h, "auth_state"@, x2);
        lemma_text_text(u, "session_id"@, x1);
        let a = seq![':'] + q + x0;
        let b = "user_id"@ + q + a;
        assert(all =~= seq!['{'] + q + b);
        splitting_goes_from_piece_to_piece(seq!['{'], '"', b);
        splitting_goes_from_piece_to_piece("user_id"@, '"', a);
        splitting_goes_from_piece_to_piece(seq![':'], '"', x0);
        assert(split(all, '"') =~= r + split(seq![':'] + x3, '"'));
    }
    r
}

proof fn lemma_assoc(a: Seq<char>, b: Seq<char>, c: Seq<char>)
    ensures
        (a + b) + c == a + (b + c),
{
    assert((a + b) + c =~= a + (b + c));
}

/// The report of a connection, grouped from its end.
proof fn lemma_json(c: ConnectionView, x3: Seq<char>)
    requires
        ({
            let t = c.traffic;
            let e = endpoint_text(c.session.client_addr);
            x3 == decimal(t.connected_at_unix as nat) + (",\"last_activity_at\":"@ + (decimal(
                t.last_activity_unix as nat,
            ) + (",\"bytes_in\":"@ + (decimal(t.bytes_in as nat) + (",\"bytes_out\":"@ + (decimal(
                t.bytes_out as nat,
            ) + (",\"client_endpoint\":\""@ + (e + ("\",\"packets_in\":"@ + (decimal(
                t.packets_in as nat,
            ) + (",\"packets_out\":"@ + (decimal(t.packets_out as nat) + (",\"rtt_us\":"@ + (decimal(
                t.last_rtt_us as nat,
            ) + "}"@))))))))))))))
        }),
    ensures
        connection_json(c) == "{\"user_id\":\""@ + (escaped(c.session.user_id) + (
        "\",\"session_id\":\""@ + (hex(c.key as nat, 16) + ("\",\"auth_state\":\""@ + (
        c.session.auth_state.name() + ("\",\"connected_at\":"@ + x3)))))),
{
    let t = c.traffic;
    let u = escaped(c.session.user_id);
    let h = hex(c.key as nat, 16);
    let s = c.session.auth_state.name();
    let e = endpoint_text(c.session.client_addr);
    let n1 = decimal(t.connected_at_unix as nat);
    let n2 = decimal(t.last_activity_unix as nat);
    let n3 = decimal(t.bytes_in as nat);
    let n4 = decimal(t.bytes_out as nat);
    let n5 = decimal(t.packets_in as nat);
    let n6 = decimal(t.packets_out as nat);
    let n7 = decimal(t.last_rtt_us as nat);
    let a0 = "{\"user_id\":\""@;
    let a1 = a0 + u;
    let a2 = a1 + "\",\"session_id\":\""@;
    let a3 = a2 + h;
    let a4 = a3 + "\",\"auth_state\":\""@;
    let a5 = a4 + s;
    let a6 = a5 + "\",\"connected_at\":"@;
    let a7 = a6 + n1;
    let a8 = a7 + ",\"last_activity_at\":"@;
    let a9 = a8 + n2;
    let a10 = a9 + ",\"bytes_in\":"@;
    let a11 = a10 + n3;
    let a12 = a11 + ",\"bytes_out\":"@;
    let a13 = a12 + n4;
    let a14 = a13 + ",\"client_endpoint\":\""@;
    let a15 = a14 + e;
    let a16 = a15 + "\",\"packets_in\":"@;
    let a17 = a16 + n5;
    let a18 = a17 + ",\"packets_out\":"@;
    let a19 = a18 + n6;
    let a20 = a19 + ",\"rtt_us\":"@;
    let a21 = a20 + n7;
    let a22 = a21 + "}"@;
    assert(connection_json(c) == a22);
    let z22 = "}"@;
    let z21 = n7 + z22;
    let z20 = ",\"rtt_us\":"@ + z21;
    let z19 = n6 + z20;
    let z18 = ",\"packets_out\":"@ + z19;
    let z17 = n5 + z18;
    let z16 = "\",\"packets_in\":"@ + z17;
    let z15 = e + z16;
    let z14 = ",\"client_endpoint\":\""@ + z15;
    let z13 = n4 + z14;
    let z12 = ",\"bytes_out\":"@ + z13;
    let z11 = n3 + z12;
    let z10 = ",\"bytes_in\":"@ + z11;
    let z9 = n2 + z10;
    let z8 = ",\"last_activity_at\":"@ + z9;
    let z7 = n1 + z8;
    let z6 = "\",\"connected_at\":"@ + z7;
    let z5 = s + z6;
    let z4 = "\",\"auth_state\":\""@ + z5;
    let z3 = h + z4;
    let z2 = "\",\"session_id\":\""@ + z3;
    let z1 = u + z2;
    lemma_assoc(a20, n7, z22);
    lemma_assoc(a19, ",\"rtt_us\":"@, z21);
    lemma_assoc(a18, n6, z20);
    lemma_assoc(a17, ",\"packets_out\":"@, z19);
    lemma_assoc(a16, n5, z18);
    lemma_assoc(a15, "\",\"packets_in\":"@, z17);
    lemma_assoc(a14, e, z16);
    lemma_assoc(a13, ",\"client_endpoint\":\""@, z15);
    lemma_assoc(a12, n4, z14);
    lemma_assoc(a11, ",\"bytes_out\":"@, z13);
    lemma_assoc(a10, n3, z12);
    lemma_assoc(a9, ",\"bytes_in\":"@, z11);
    lemma_assoc(a8, n2, z10);
    lemma_assoc(a7, ",\"last_activity_at\":"@, z9);
    lemma_assoc(a6, n1, z8);
    lemma_assoc(a5, "\",\"connected_at\":"@, z7);
    lemma_assoc(a4, s, z6);
    lemma_assoc(a3, "\",\"auth_state\":\""@, z5);
    lemma_assoc(a2, h, z4);
    lemma_assoc(a1, "\",\"session_id\":\""@, z3);
    lemma_assoc(a0, u, z2);
}

/// Rows one behind the other have a comma between them, wherever they are parted.
pub proof fn rows_are_parted_by_commas(a: Seq<ConnectionView>, b: Seq<ConnectionView>)
    requires
        a.len() > 0,
        b.len() > 0,
    ensures
        connections_json(a + b) == connections_json(a) + seq![','] + connections_json(b),
        b.len() == 1 ==> connections_json(b) == connection_json(b[0]),
    decreases b.len(),
{
    reveal_strlit(",");
    assert(","@ =~= seq![',']);
    let s = a + b;
    assert(s.drop_last() =~= a + b.drop_last());
    assert(s.last() == b.last());
    if b.len() == 1 {
        assert(a + b.drop_last() =~= a);
        assert(b.last() == b[0]);
    } else {
        rows_are_parted_by_commas(a, b.drop_last());
        assert(connections_json(s) =~= connections_json(a) + seq![','] + connections_json(b));
    }
}

/// A report says when it was made and has its rows in square brackets.
pub proof fn reports_have_their_time(timestamp: u64, rows: Seq<ConnectionView>)
    ensures
        ({
            let d = decimal(timestamp as nat);
            let t = payload_json(timestamp, rows);
            let n = d.len() as int;
            &&& t.subrange(0, 13) == "{\"timestamp\":"@
            &&& t.subrange(13, 13 + n) == d
            &&& t.subrange(13 + n, 29 + n) == ",\"connections\":["@
            &&& t.subrange(29 + n, t.len() - 2) == connections_json(rows)
            &&& t[t.len() - 2] == ']' && t[t.len() - 1] == '}'
        }),
{
    reveal_strlit("{\"timestamp\":");
    reveal_strlit(",\"connections\":[");
    reveal_strlit("]}");
    let d = decimal(timestamp as nat);
    let t = payload_json(timestamp, rows);
    let n = d.len() as int;
    assert("{\"timestamp\":"@.len() == 13 && ",\"connections\":["@.len() == 16);
    assert(t.subrange(0, 13) =~= "{\"timestamp\":"@);
    assert(t.subrange(13, 13 + n) =~= d);
    assert(t.subrange(13 + n, 29 + n) =~= ",\"connections\":["@);
    assert(t.subrange(29 + n, t.len() - 2) =~= connections_json(rows));
}

} // verus!
