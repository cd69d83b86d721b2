//! The two small HTTP servers: the local one with reports behind a token, and the
//! public health probe.

use crate::auth::hex;
use crate::text::{
    chars_of, decimal, decimals_read_back, find, is_digit, is_text, lower, lowered,
    lowering_changes_only_capitals, position, push_decimal, same, split_words,
    the_first_occurrence_is_found, trim, trimmed, trimming_takes_off_both_ends, views, white, words,
    words_stand_between_white_space,
};
use vstd::prelude::*;
use vstd::string::*;
use vstd::utf8::{decode_utf8, encode_utf8, valid_utf8};

verus! {

/// The most bytes of a request that are read.
pub const MAX_HTTP_REQUEST_SIZE: usize = 8192;

/// Whether an empty line, the end of a request's headers, starts at `i`.
pub open spec fn blank_line_at(buf: Seq<u8>, i: int) -> bool {
    0 <= i && i + 4 <= buf.len() && buf[i] == 13 && buf[i + 1] == 10 && buf[i + 2] == 13 && buf[i + 3] == 10
}

/// Where the headers end: behind the first empty line.
pub fn find_http_header_end(buf: &[u8]) -> (r: Option<usize>)
    ensures
        match r {
            Some(end) => blank_line_at(buf@, end - 4) && forall|i: int|
                i < end - 4 ==> !#[trigger] blank_line_at(buf@, i),
            None => forall|i: int| !#[trigger] blank_line_at(buf@, i),
        },
{
    let n: usize = buf.len();
    if n < 4 {
        return None;
    }
    let mut i: usize = 0;
    while i <= n - 4
        invariant
            n == buf@.len(),
            n >= 4,
            i <= n - 3,
            forall|j: int| j < i ==> !#[trigger] blank_line_at(buf@, j),
        decreases n - i,
    {
        if buf[i] == 13 && buf[i + 1] == 10 && buf[i + 2] == 13 && buf[i + 3] == 10 {
            assert(blank_line_at(buf@, i as int));
            return Some(i + 4);
        }
        i = i + 1;
    }
    None
}

/// What `String::from_utf8_lossy` makes of bytes.
pub uninterp spec fn lossy(bytes: Seq<u8>) -> Seq<char>;

/// `String::from_utf8_lossy`: the text is the name's; of valid UTF-8 it is the text
/// that the bytes stand for.
#[verifier::external_body]
fn lossy_text(bytes: &[u8]) -> (r: String)
    ensures
        r@ == lossy(bytes@),
        valid_utf8(bytes@) ==> r@ == decode_utf8(bytes@),
{
    String::from_utf8_lossy(bytes).into_owned()
}

/// Where the first line end, a carriage return and a line feed, stands; the length, if
/// there is none.
pub open spec fn line_end(s: Seq<char>) -> int
    decreases s.len(),
{
    if s.len() == 0 || s.len() >= 2 && s[0] == '\r' && s[1] == '\n' {
        0
    } else {
        1 + line_end(s.subrange(1, s.len() as int))
    }
}

/// The lines of a text.
pub open spec fn lines(s: Seq<char>) -> Seq<Seq<char>>
    decreases s.len(),
{
    let i = line_end(s);
    if 0 <= i && i + 2 <= s.len() {
        seq![s.subrange(0, i)] + lines(s.subrange(i + 2, s.len() as int))
    } else {
        seq![s]
    }
}

proof fn lemma_line_end(s: Seq<char>)
    ensures
        0 <= line_end(s) <= s.len(),
        line_end(s) < s.len() ==> line_end(s) + 2 <= s.len() && s[line_end(s)] == '\r' && s[line_end(s)
            + 1] == '\n',
        forall|i: int| 0 <= i < line_end(s) && i + 2 <= s.len() ==> !(s[i] == '\r' && #[trigger] s[i + 1] == '\n'),
    decreases s.len(),
{
    if s.len() > 0 && !(s.len() >= 2 && s[0] == '\r' && s[1] == '\n') {
        let t = s.subrange(1, s.len() as int);
        lemma_line_end(t);
        assert forall|i: int| 0 <= i < line_end(s) && i + 2 <= s.len() implies !(s[i] == '\r' && #[trigger] s[i
            + 1] == '\n') by {
            if i > 0 {
                assert(t[i - 1] == s[i] && t[i] == s[i + 1]);
                assert(!(t[i - 1] == '\r' && t[(i - 1) + 1] == '\n'));
            }
        }
    }
}

fn end_of_line(s: &[char]) -> (r: usize)
    ensures
        r == line_end(s@),
{
    proof {
        lemma_line_end(s@);
    }
    let n: usize = s.len();
    let mut i: usize = 0;
    while i < n
        invariant
            n == s@.len(),
            i <= n,
            i <= line_end(s@) <= n,
            line_end(s@) < n ==> line_end(s@) + 2 <= n && s@[line_end(s@)] == '\r' && s@[line_end(s@) + 1]
                == '\n',
            forall|j: int|
                0 <= j < line_end(s@) && j + 2 <= n ==> !(s@[j] == '\r' && #[trigger] s@[j + 1] == '\n'),
        decreases n - i,
    {
        if n - i >= 2 && s[i] == '\r' && s[i + 1] == '\n' {
            assert(s@[i + 1] == '\n');
            return i;
        }
        i = i + 1;
    }
    i
}

fn split_lines<'a>(s: &'a [char]) -> (r: Vec<&'a [char]>)
    ensures
        views(r@) == lines(s@),
{
    let mut r: Vec<&'a [char]> = Vec::new();
    let mut rest: &'a [char] = s;
    assert(views(r@) + lines(rest@) =~= lines(s@));
    loop
        invariant_except_break
            views(r@) + lines(rest@) == lines(s@),
        ensures
            views(r@) == lines(s@),
        decreases rest@.len(),
    {
        let ghost before = r@;
        let ghost left = rest@;
        let n: usize = rest.len();
        let i: usize = end_of_line(rest);
        proof {
            lemma_line_end(left);
        }
        if i < n {
            let piece: &'a [char] = &rest[0..i];
            r.push(piece);
            rest = &rest[i + 2..n];
            proof {
                assert(views(r@) =~= views(before).push(left.subrange(0, i as int)));
                assert(views(r@) + lines(rest@) =~= views(before) + lines(left));
            }
        } else {
            r.push(rest);
            proof {
                assert(views(r@) =~= views(before).push(left));
                assert(views(r@) =~= views(before) + lines(left));
            }
            break;
        }
    }
    r
}

/// The value of a line that is an authorization header.
pub open spec fn auth_line(line: Seq<char>) -> Option<Seq<char>> {
    let at = find(line, ':');
    if 0 <= at < line.len() && lowered(line.subrange(0, at)) == "authorization"@ {
        Some(trimmed(line.subrange(at + 1, line.len() as int)))
    } else {
        None
    }
}

/// The authorization that headers give, up to the first empty line; the last one
/// counts. `found` is what earlier headers gave.
pub open spec fn auth_in(headers: Seq<Seq<char>>, found: Option<Seq<char>>) -> Option<Seq<char>>
    decreases headers.len(),
{
    if headers.len() == 0 || headers[0].len() == 0 {
        found
    } else {
        auth_in(
            headers.drop_first(),
            if auth_line(headers[0]) is Some {
                auth_line(headers[0])
            } else {
                found
            },
        )
    }
}

/// What a request is answered with.
#[derive(Clone, Copy, PartialEq, Eq, Structural, Debug)]
pub enum Answer {
    Stats,
    Connections,
    Config,
    DestPolicy,
    BadRequestLine,
    IncompleteHeaders,
    Unauthorized,
    NotFound,
    MethodNotAllowed,
    Timeout,
    TooLarge,
}

/// What a request is answered with: it needs a method and a path, the method has to be
/// GET, the token has to be there, and the path has to be known.
pub open spec fn answer_to(request: Seq<char>, token: Seq<char>) -> Answer {
    let l = lines(request);
    let w = words(l[0]);
    if w.len() < 2 {
        Answer::BadRequestLine
    } else if w[0] != "GET"@ {
        Answer::MethodNotAllowed
    } else if auth_in(l.drop_first(), None) != Some("Bearer "@ + token) {
        Answer::Unauthorized
    } else if w[1] == "/v1/stats"@ {
        Answer::Stats
    } else if w[1] == "/v1/connections"@ {
        Answer::Connections
    } else if w[1] == "/v1/config"@ {
        Answer::Config
    } else if w[1] == "/v1/dest-policy"@ {
        Answer::DestPolicy
    } else {
        Answer::NotFound
    }
}

/// Whether the headers give this authorization.
fn authorized(headers: &Vec<&[char]>, expected: &Vec<char>) -> (r: bool)
    requires
        headers@.len() >= 1,
    ensures
        r == (auth_in(views(headers@).drop_first(), None) == Some(expected@)),
{
    let mut found: Option<&[char]> = None;
    let ghost all = views(headers@).drop_first();
    let ghost want = auth_in(all, None);
    let mut i: usize = 1;
    assert(views(headers@).skip(1) =~= all);
    while i < headers.len()
        invariant_except_break
            1 <= i <= headers@.len(),
            want == auth_in(
                views(headers@).skip(i as int),
                match found {
                    Some(v) => Some(v@),
                    None => None,
                },
            ),
        ensures
            want == match found {
                Some(v) => Some(v@),
                None => None,
            },
        decreases headers.len() - i,
    {
        let line: &[char] = headers[i];
        let ghost rest = views(headers@).skip(i as int);
        assert(rest[0] == line@);
        assert(rest.drop_first() =~= views(headers@).skip(i + 1));
        if line.len() == 0 {
            break;
        }
        if let Some(at) = position(line, ':') {
            let name = lower(&line[0..at]);
            if is_text(&name, "authorization") {
                found = Some(trim(&line[at + 1..line.len()]));
            }
        }
        i = i + 1;
    }
    match found {
        Some(v) => same(v, expected),
        None => false,
    }
}

/// Decides about a request whose headers are complete.
pub fn route(request: &str, token: &str) -> (r: Answer)
    ensures
        r == answer_to(request@, token@),
{
    let chars = chars_of(request);
    let l = split_lines(&chars);
    assert(views(l@).len() >= 1 && views(l@)[0] == l@[0]@);
    let w = split_words(l[0]);
    assert(w@.len() == words(l@[0]@).len());
    if w.len() < 2 {
        return Answer::BadRequestLine;
    }
    assert(views(w@)[0] == w@[0]@ && views(w@)[1] == w@[1]@);
    if !is_text(w[0], "GET") {
        return Answer::MethodNotAllowed;
    }
    let mut expected = String::new();
    expected.append("Bearer ");
    expected.append(token);
    assert(expected@ =~= "Bearer "@ + token@);
    let expected = chars_of(expected.as_str());
    if !authorized(&l, &expected) {
        return Answer::Unauthorized;
    }
    if is_text(w[1], "/v1/stats") {
        Answer::Stats
    } else if is_text(w[1], "/v1/connections") {
        Answer::Connections
    } else if is_text(w[1], "/v1/config") {
        Answer::Config
    } else if is_text(w[1], "/v1/dest-policy") {
        Answer::DestPolicy
    } else {
        Answer::NotFound
    }
}

/// What the latest read of a request gave.
#[derive(Clone, Copy, PartialEq, Eq, Structural, Debug)]
pub enum ReadEvent {
    /// Nothing was read yet.
    Start,
    /// More of the request.
    Data,
    /// The client sends no more.
    End,
    /// The client took too long.
    TimedOut,
}

/// What a server does next with a request.
#[derive(Clone, Copy, PartialEq, Eq, Structural, Debug)]
pub enum HttpStep {
    Read,
    Answer(Answer),
    Close,
}

/// Whether the headers in `buf` are complete.
pub open spec fn complete(buf: Seq<u8>) -> bool {
    exists|i: int| #[trigger] blank_line_at(buf, i)
}

/// Where the first empty line starts.
pub open spec fn first_blank_line(buf: Seq<u8>) -> int {
    choose|i: int|
        #[trigger] blank_line_at(buf, i) && forall|j: int| j < i ==> !#[trigger] blank_line_at(buf, j)
}

/// The headers in `buf`, with the empty line behind them.
pub open spec fn headers(buf: Seq<u8>) -> Seq<u8> {
    buf.subrange(0, first_blank_line(buf) + 4)
}

/// What is done next, with `buf` read so far.
pub open spec fn http_next(buf: Seq<u8>, event: ReadEvent, token: Seq<char>) -> HttpStep {
    match event {
        ReadEvent::TimedOut => HttpStep::Answer(Answer::Timeout),
        ReadEvent::End => if buf.len() == 0 {
            HttpStep::Close
        } else {
            HttpStep::Answer(Answer::IncompleteHeaders)
        },
        _ => if event == ReadEvent::Data && complete(buf) {
            HttpStep::Answer(answer_to(lossy(headers(buf)), token))
        } else if buf.len() >= MAX_HTTP_REQUEST_SIZE {
            HttpStep::Answer(Answer::TooLarge)
        } else {
            HttpStep::Read
        },
    }
}

/// Decides what to do next with a request of which `buf` was read so far. Headers in
/// UTF-8 are taken as the text that they stand for.
pub fn http_step(buf: &[u8], event: ReadEvent, token: &str) -> (r: HttpStep)
    ensures
        r == http_next(buf@, event, token@),
        event == ReadEvent::Data && complete(buf@) && valid_utf8(headers(buf@)) ==> lossy(
            headers(buf@),
        ) == decode_utf8(headers(buf@)) && r == HttpStep::Answer(
            answer_to(decode_utf8(headers(buf@)), token@),
        ),
{
    match event {
        ReadEvent::TimedOut => {
            return HttpStep::Answer(Answer::Timeout);
        },
        ReadEvent::End => {
            if buf.len() == 0 {
                return HttpStep::Close;
            }
            return HttpStep::Answer(Answer::IncompleteHeaders);
        },
        ReadEvent::Data => {
            if let Some(end) = find_http_header_end(buf) {
                proof {
                    let i = end - 4;
                    assert(blank_line_at(buf@, i));
                    let f = first_blank_line(buf@);
                    assert(blank_line_at(buf@, f) && forall|j: int| j < f ==> !#[trigger] blank_line_at(
                        buf@,
                        j,
                    ));
                    if f < i {
                        assert(!blank_line_at(buf@, f));
                    }
                    if i < f {
                        assert(!blank_line_at(buf@, i));
                    }
                }
                assert(buf@.subrange(0, end as int) == headers(buf@));
                let request = lossy_text(&buf[0..end]);
                return HttpStep::Answer(route(request.as_str(), token));
            }
        },
        ReadEvent::Start => {},
    }
    if buf.len() >= MAX_HTTP_REQUEST_SIZE {
        HttpStep::Answer(Answer::TooLarge)
    } else {
        HttpStep::Read
    }
}

/// The status line of an answer.
pub open spec fn status_of(a: Answer) -> (u16, Seq<char>) {
    match a {
        Answer::BadRequestLine | Answer::IncompleteHeaders => (400, "Bad Request"@),
        Answer::Unauthorized => (401, "Unauthorized"@),
        Answer::NotFound => (404, "Not Found"@),
        Answer::MethodNotAllowed => (405, "Method Not Allowed"@),
        Answer::Timeout => (408, "Request Timeout"@),
        Answer::TooLarge => (431, "Request Header Fields Too Large"@),
        _ => (200, "OK"@),
    }
}

/// The body of an answer that is a refusal.
pub open spec fn refusal_of(a: Answer) -> Option<Seq<char>> {
    match a {
        Answer::BadRequestLine => Some("{\"error\":\"bad_request_line\"}"@),
        Answer::IncompleteHeaders => Some("{\"error\":\"incomplete_request_headers\"}"@),
        Answer::Unauthorized => Some("{\"error\":\"unauthorized\"}"@),
        Answer::NotFound => Some("{\"error\":\"not_found\"}"@),
        Answer::MethodNotAllowed => Some("{\"error\":\"method_not_allowed\"}"@),
        Answer::Timeout => Some("{\"error\":\"request_timeout\"}"@),
        Answer::TooLarge => Some("{\"error\":\"request_too_large\"}"@),
        _ => None,
    }
}

impl Answer {
    pub fn status(self) -> (r: (u16, &'static str))
        ensures
            (r.0, r.1@) == status_of(self),
    {
        match self {
            Answer::BadRequestLine | Answer::IncompleteHeaders => (400, "Bad Request"),
            Answer::Unauthorized => (401, "Unauthorized"),
            Answer::NotFound => (404, "Not Found"),
            Answer::MethodNotAllowed => (405, "Method Not Allowed"),
            Answer::Timeout => (408, "Request Timeout"),
            Answer::TooLarge => (431, "Request Header Fields Too Large"),
            _ => (200, "OK"),
        }
    }

    /// The body, if the answer is a refusal; a report otherwise makes the body.
    pub fn refusal(self) -> (r: Option<&'static str>)
        ensures
            match r {
                Some(body) => refusal_of(self) == Some(body@),
                None => refusal_of(self) is None,
            },
    {
        match self {
            Answer::BadRequestLine => Some("{\"error\":\"bad_request_line\"}"),
            Answer::IncompleteHeaders => Some("{\"error\":\"incomplete_request_headers\"}"),
            Answer::Unauthorized => Some("{\"error\":\"unauthorized\"}"),
            Answer::NotFound => Some("{\"error\":\"not_found\"}"),
            Answer::MethodNotAllowed => Some("{\"error\":\"method_not_allowed\"}"),
            Answer::Timeout => Some("{\"error\":\"request_timeout\"}"),
            Answer::TooLarge => Some("{\"error\":\"request_too_large\"}"),
            _ => None,
        }
    }
}

/// A response with a JSON body.
pub open spec fn response_text(status: u16, text: Seq<char>, body: Seq<char>) -> Seq<char> {
    "HTTP/1.1 "@ + decimal(status as nat) + " "@ + text
        + "\r\nContent-Type: application/json\r\nContent-Length: "@ + decimal(encode_utf8(body).len())
        + "\r\nConnection: close\r\n\r\n"@ + body
}

pub fn http_response(status_code: u16, status_text: &str, body: &str) -> (r: String)
    ensures
        r@ == response_text(status_code, status_text@, body@),
{
    let len: usize = body.as_bytes().len();
    let mut s = String::new();
    s.append("HTTP/1.1 ");
    assert(s@ =~= "HTTP/1.1 "@);
    push_decimal(&mut s, status_code as u64);
    s.append(" ");
    s.append(status_text);
    s.append("\r\nContent-Type: application/json\r\nContent-Length: ");
    push_decimal(&mut s, len as u64);
    s.append("\r\nConnection: close\r\n\r\n");
    s.append(body);
    s
}

/// A character as it stands in a JSON string: quotes, backslashes and control
/// characters are escaped.
pub open spec fn json_char(c: char) -> Seq<char> {
    if c == '"' {
        seq!['\\', '"']
    } else if c == '\\' {
        seq!['\\', '\\']
    } else if c == '\n' {
        seq!['\\', 'n']
    } else if c == '\r' {
        seq!['\\', 'r']
    } else if c == '\t' {
        seq!['\\', 't']
    } else if c as u32 == 8 {
        seq!['\\', 'b']
    } else if c as u32 == 12 {
        seq!['\\', 'f']
    } else if (c as u32) < 32 {
        seq!['\\', 'u'] + hex(c as nat, 4)
    } else {
        seq![c]
    }
}

/// What stands between the quotes of a JSON string.
pub open spec fn json_chars(text: Seq<char>) -> Seq<char>
    decreases text.len(),
{
    if text.len() == 0 {
        Seq::empty()
    } else {
        json_chars(text.drop_last()) + json_char(text.last())
    }
}

/// A text as a JSON string.
pub open spec fn json_string(text: Seq<char>) -> Seq<char> {
    seq!['"'] + json_chars(text) + seq!['"']
}

/// `serde_json::to_string` of a text: it is written in quotes, with a short escape for
/// each of quote, backslash, backspace, form feed, line feed, carriage return and tab,
/// and four hexadecimal digits for each other character below the space. Writing a
/// text into memory does not fail.
#[verifier::external_body]
fn quote_json(text: &str) -> (r: Option<String>)
    ensures
        r is Some,
        r->Some_0@ == json_string(text@),
{
    serde_json::to_string(text).ok()
}

/// Whether a request is for the health probe: its second word is the path.
pub open spec fn asks_health(request: Seq<char>) -> bool {
    let w = words(request);
    w.len() >= 2 && w[1].len() >= 7 && w[1].subrange(0, 7) == "/health"@
}

/// The body of the health probe, given the server's id as a JSON string.
pub open spec fn health_body(server_id: Seq<char>, uptime_secs: u64, version: Seq<char>) -> Seq<char> {
    "{\"status\":\"ok\",\"server_id\":"@ + server_id + ",\"uptime_seconds\":"@ + decimal(uptime_secs as nat)
        + ",\"version\":\""@ + version + "\"}"@
}

/// The public server's response: the health probe, or that there is nothing.
pub open spec fn health_text(
    request: Seq<char>,
    server_id: Seq<char>,
    uptime_secs: u64,
    version: Seq<char>,
) -> Seq<char> {
    let body = if asks_health(request) {
        health_body(server_id, uptime_secs, version)
    } else {
        "{\"error\":\"not found\"}"@
    };
    "HTTP/1.1 "@ + (if asks_health(request) {
        "200 OK"@
    } else {
        "404 Not Found"@
    }) + "\r\nContent-Type: application/json\r\nContent-Length: "@ + decimal(encode_utf8(body).len())
        + "\r\nCache-Control: no-store\r\nConnection: close\r\n\r\n"@ + body
}

/// The public server's response to a request, given the server's id as a JSON string.
pub fn health_response(request: &str, server_id: &str, uptime_secs: u64, version: &str) -> (r: String)
    ensures
        r@ == health_text(request@, server_id@, uptime_secs, version@),
{
    let chars = chars_of(request);
    let w = split_words(&chars);
    assert(w@.len() == words(request@).len());
    let asked: bool = if w.len() >= 2 && w[1].len() >= 7 {
        assert(views(w@)[1] == w@[1]@);
        let path: &[char] = w[1];
        is_text(&path[0..7], "/health")
    } else {
        assert(w@.len() >= 2 ==> views(w@)[1] == w@[1]@);
        false
    };
    let mut body = String::new();
    if asked {
        body.append("{\"status\":\"ok\",\"server_id\":");
        assert(body@ =~= "{\"status\":\"ok\",\"server_id\":"@);
        body.append(server_id);
        body.append(",\"uptime_seconds\":");
        push_decimal(&mut body, uptime_secs);
        body.append(",\"version\":\"");
        body.append(version);
        body.append("\"}");
    } else {
        body.append("{\"error\":\"not found\"}");
        assert(body@ =~= "{\"error\":\"not found\"}"@);
    }
    let len: usize = body.as_str().as_bytes().len();
    let mut s = String::new();
    s.append("HTTP/1.1 ");
    assert(s@ =~= "HTTP/1.1 "@);
    s.append(if asked {
        "200 OK"
    } else {
        "404 Not Found"
    });
    s.append("\r\nContent-Type: application/json\r\nContent-Length: ");
    push_decimal(&mut s, len as u64);
    s.append("\r\nCache-Control: no-store\r\nConnection: close\r\n\r\n");
    s.append(body.as_str());
    s
}

/// The public server's response to the bytes of a request. A request in UTF-8 is taken
/// as the text that it stands for.
pub fn health_exchange(request: &[u8], server_id: Option<&str>, uptime_secs: u64, version: &str) -> (r:
    String)
    ensures
        ({
            let id = match server_id {
                Some(id) => id@,
                None => Seq::empty(),
            };
            &&& r@ == health_text(lossy(request@), json_string(id), uptime_secs, version@)
            &&& valid_utf8(request@) ==> lossy(request@) == decode_utf8(request@) && r@ == health_text(
                decode_utf8(request@),
                json_string(id),
                uptime_secs,
                version@,
            )
        }),
{
    let text = lossy_text(request);
    let id: &str = match server_id {
        Some(id) => id,
        None => {
            proof {
                reveal_strlit("");
            }
            assert(""@ =~= Seq::<char>::empty());
            ""
        },
    };
    let quoted: String = match quote_json(id) {
        Some(quoted) => quoted,
        None => "\"\"".to_owned(),
    };
    health_response(text.as_str(), quoted.as_str(), uptime_secs, version)
}

/// Nothing but a refusal is answered to a request without the token, whatever it asks
/// for.
pub proof fn reports_need_the_token(request: Seq<char>, token: Seq<char>)
    requires
        auth_in(lines(request).drop_first(), None) != Some("Bearer "@ + token),
    ensures
        refusal_of(answer_to(request, token)) is Some,
        status_of(answer_to(request, token)).0 >= 400,
{
}

/// A line ends at a carriage return with a line feed behind it: the first line of a text
/// is what stands before the first of them, and the others are the lines of what is
/// behind it.
pub proof fn lines_end_with_return_and_feed(line: Seq<char>, rest: Seq<char>)
    requires
        !line.contains('\r'),
    ensures
        lines(line) == seq![line],
        lines(line + seq!['\r', '\n'] + rest) == seq![line] + lines(rest),
{
    let s = line + seq!['\r', '\n'] + rest;
    lemma_line_end(s);
    lemma_line_end(line);
    let i = line_end(s);
    let n = line.len() as int;
    assert(s[n] == '\r' && s[n + 1] == '\n');
    lemma_line_end_at(line, rest);
    lemma_line_end_none(line);
    assert(s.subrange(0, n) =~= line);
    assert(s.subrange(n + 2, s.len() as int) =~= rest);
}

proof fn lemma_line_end_at(line: Seq<char>, rest: Seq<char>)
    requires
        !line.contains('\r'),
    ensures
        line_end(line + seq!['\r', '\n'] + rest) == line.len(),
    decreases line.len(),
{
    let s = line + seq!['\r', '\n'] + rest;
    if line.len() > 0 {
        let t = line.subrange(1, line.len() as int);
        assert(!t.contains('\r')) by {
            if t.contains('\r') {
                let i = choose|i: int| 0 <= i < t.len() && t[i] == '\r';
                assert(line[i + 1] == '\r');
            }
        }
        lemma_line_end_at(t, rest);
        assert(s[0] == line[0] && line.contains(line[0]));
        assert(s.subrange(1, s.len() as int) =~= t + seq!['\r', '\n'] + rest);
    } else {
        assert(s[0] == '\r' && s[1] == '\n');
    }
}

proof fn lemma_line_end_none(line: Seq<char>)
    requires
        !line.contains('\r'),
    ensures
        line_end(line) == line.len(),
    decreases line.len(),
{
    if line.len() > 0 {
        let t = line.subrange(1, line.len() as int);
        assert(!t.contains('\r')) by {
            if t.contains('\r') {
                let i = choose|i: int| 0 <= i < t.len() && t[i] == '\r';
                assert(line[i + 1] == '\r');
            }
        }
        assert(line.contains(line[0]));
        lemma_line_end_none(t);
    }
}

/// Of several authorizations the last one counts; what is no authorization does not
/// matter, and neither does anything behind an empty line.
pub proof fn the_last_authorization_counts(before: Seq<Seq<char>>, line: Seq<char>, rest: Seq<Seq<char>>)
    requires
        forall|i: int| 0 <= i < before.len() ==> (#[trigger] before[i]).len() > 0,
        line.len() > 0,
    ensures
        auth_in(before.push(line), None) == if auth_line(line) is Some {
            auth_line(line)
        } else {
            auth_in(before, None)
        },
        auth_in(before + seq![Seq::empty()] + rest, None) == auth_in(before, None),
        auth_in(Seq::empty(), None) is None,
{
    lemma_auth_in(before, line, rest, None);
}

proof fn lemma_auth_in(
    before: Seq<Seq<char>>,
    line: Seq<char>,
    rest: Seq<Seq<char>>,
    found: Option<Seq<char>>,
)
    requires
        forall|i: int| 0 <= i < before.len() ==> (#[trigger] before[i]).len() > 0,
        line.len() > 0,
    ensures
        auth_in(before.push(line), found) == if auth_line(line) is Some {
            auth_line(line)
        } else {
            auth_in(before, found)
        },
        auth_in(before + seq![Seq::empty()] + rest, found) == auth_in(before, found),
    decreases before.len(),
{
    let a = before.push(line);
    let b = before + seq![Seq::empty()] + rest;
    if before.len() == 0 {
        assert(a[0] == line && b[0].len() == 0);
        assert(a.drop_first() =~= Seq::empty());
        let next = if auth_line(line) is Some {
            auth_line(line)
        } else {
            found
        };
        assert(auth_in(a.drop_first(), next) == next);
    } else {
        let next = if auth_line(before[0]) is Some {
            auth_line(before[0])
        } else {
            found
        };
        assert forall|i: int| 0 <= i < before.drop_first().len() implies (#[trigger] before.drop_first()[i]).len()
            > 0 by {
            assert(before.drop_first()[i] == before[i + 1]);
        }
        lemma_auth_in(before.drop_first(), line, rest, next);
        assert(a[0] == before[0] && b[0] == before[0]);
        assert(a.drop_first() =~= before.drop_first().push(line));
        assert(b.drop_first() =~= before.drop_first() + seq![Seq::empty()] + rest);
    }
}

/// A header gives an authorization if its name says so, in whatever case: all that is
/// behind the colon, without the white space around it.
pub proof fn authorizations_are_told_by_name(name: Seq<char>, left: Seq<char>, value: Seq<char>, right: Seq<char>)
    requires
        !name.contains(':'),
        forall|i: int| 0 <= i < left.len() ==> white(#[trigger] left[i]),
        forall|i: int| 0 <= i < right.len() ==> white(#[trigger] right[i]),
        value.len() > 0 ==> !white(value[0]) && !white(value.last()),
    ensures
        auth_line(name + seq![':'] + (left + value + right)) == if lowered(name) == "authorization"@ {
            Some(value)
        } else {
            None
        },
        auth_line(name) is None,
{
    let rest = left + value + right;
    let line = name + seq![':'] + rest;
    the_first_occurrence_is_found(name, ':', rest);
    assert(line.subrange(0, name.len() as int) =~= name);
    assert(line.subrange(name.len() as int + 1, line.len() as int) =~= rest);
    trimming_takes_off_both_ends(left, value, right);
}

/// A request of one header that shows a token is answered by its method, the token and
/// its path, in this order: only `GET` is taken, only the right token, and there are four
/// paths.
pub proof fn requests_are_answered_by_their_path(
    method: Seq<char>,
    path: Seq<char>,
    version: Seq<char>,
    name: Seq<char>,
    shown: Seq<char>,
    token: Seq<char>,
)
    requires
        method.len() > 0,
        forall|i: int| 0 <= i < method.len() ==> !white(#[trigger] method[i]),
        path.len() > 0,
        forall|i: int| 0 <= i < path.len() ==> !white(#[trigger] path[i]),
        !version.contains('\r'),
        lowered(name) == "authorization"@,
        shown.len() > 0,
        !white(shown.last()),
        !shown.contains('\r'),
    ensures
        ({
            let request = method + seq![' '] + (path + seq![' '] + version) + seq!['\r', '\n'] + (name
                + seq![':'] + (seq![' '] + ("Bearer "@ + shown)) + seq!['\r', '\n'] + seq!['\r', '\n']);
            let r = answer_to(request, token);
            &&& method != "GET"@ ==> r is MethodNotAllowed
            &&& method == "GET"@ && shown != token ==> r is Unauthorized
            &&& method == "GET"@ && shown == token ==> {
                &&& r is Stats <==> path == "/v1/stats"@
                &&& r is Connections <==> path == "/v1/connections"@
                &&& r is Config <==> path == "/v1/config"@
                &&& r is DestPolicy <==> path == "/v1/dest-policy"@
                &&& r is NotFound <==> path != "/v1/stats"@ && path != "/v1/connections"@ && path
                    != "/v1/config"@ && path != "/v1/dest-policy"@
            }
        }),
{
    let e = Seq::<char>::empty();
    let l0 = method + seq![' '] + (path + seq![' '] + version);
    let value = "Bearer "@ + shown;
    let l1 = name + seq![':'] + (seq![' '] + value);
    let tail = seq!['\r', '\n'];
    let request = l0 + seq!['\r', '\n'] + (l1 + seq!['\r', '\n'] + tail);
    lemma_authorization_name(name);
    reveal_strlit("Bearer ");
    assert(!l0.contains('\r')) by {
        if l0.contains('\r') {
            let i = choose|i: int| 0 <= i < l0.len() && l0[i] == '\r';
            let n = method.len() as int;
            let m = path.len() as int;
            if i < n {
                assert(method[i] == '\r');
            } else if n < i && i < n + 1 + m {
                assert(path[i - n - 1] == '\r');
            } else if n + 1 + m < i {
                assert(version[i - n - m - 2] == '\r');
                assert(version.contains('\r'));
            }
        }
    }
    assert(!l1.contains('\r')) by {
        if l1.contains('\r') {
            let i = choose|i: int| 0 <= i < l1.len() && l1[i] == '\r';
            let n = name.len() as int;
            if i < n {
                assert(name[i] == '\r');
                assert(name.contains('\r'));
            } else if i > n + 8 {
                assert(shown[i - n - 9] == '\r');
                assert(shown.contains('\r'));
            }
        }
    }
    assert(!e.contains('\r'));
    assert(tail =~= e + seq!['\r', '\n'] + e);
    lines_end_with_return_and_feed(l0, l1 + seq!['\r', '\n'] + tail);
    lines_end_with_return_and_feed(l1, tail);
    lines_end_with_return_and_feed(e, e);
    let l = lines(request);
    assert(l =~= seq![l0, l1, e, e]);
    let hs = l.drop_first();
    assert(hs =~= Seq::empty().push(l1) + seq![e] + seq![e]);
    let none = Seq::<Seq<char>>::empty();
    the_last_authorization_counts(none, l1, seq![e]);
    the_last_authorization_counts(none.push(l1), l1, seq![e]);
    assert(value.last() == shown.last());
    assert(seq![' '] + value =~= seq![' '] + value + e);
    authorizations_are_told_by_name(name, seq![' '], value, e);
    assert(auth_in(hs, None) == Some(value));
    if value == "Bearer "@ + token {
        assert(shown =~= value.subrange(7, value.len() as int));
        assert(token =~= value.subrange(7, value.len() as int));
    }
    let w = words(l0);
    words_stand_between_white_space(' ', method, path + seq![' '] + version);
    words_stand_between_white_space(' ', path, version);
    assert(w[0] == method && w[1] == path);
    lemma_paths();
}

proof fn lemma_paths()
    ensures
        "/v1/stats"@ != "/v1/connections"@,
        "/v1/stats"@ != "/v1/config"@,
        "/v1/stats"@ != "/v1/dest-policy"@,
        "/v1/connections"@ != "/v1/config"@,
        "/v1/connections"@ != "/v1/dest-policy"@,
        "/v1/config"@ != "/v1/dest-policy"@,
{
    reveal_strlit("/v1/stats");
    reveal_strlit("/v1/connections");
    reveal_strlit("/v1/config");
    reveal_strlit("/v1/dest-policy");
    assert("/v1/stats"@.len() == 9);
    assert("/v1/config"@.len() == 10);
    assert("/v1/connections"@.len() == 15);
    assert("/v1/dest-policy"@.len() == 15);
    assert("/v1/connections"@[4] == 'c' && "/v1/dest-policy"@[4] == 'd');
}

proof fn lemma_authorization_name(name: Seq<char>)
    requires
        lowered(name) == "authorization"@,
    ensures
        !name.contains(':'),
        !name.contains('\r'),
        name.len() == 13,
{
    reveal_strlit("authorization");
    let l = "authorization"@;
    assert(l =~= seq!['a', 'u', 't', 'h', 'o', 'r', 'i', 'z', 'a', 't', 'i', 'o', 'n']);
    assert forall|i: int| 0 <= i < 13 implies 97 <= #[trigger] l[i] as int by {}
    assert forall|i: int| 0 <= i < name.len() implies #[trigger] name[i] != ':' && name[i] != '\r' by {
        lowering_changes_only_capitals(name, i);
        assert(97 <= l[i] as int);
    }
}

/// A request line without a path is refused whatever stands behind it.
pub proof fn request_lines_need_a_path(line: Seq<char>, rest: Seq<char>, token: Seq<char>)
    requires
        !line.contains('\r'),
        forall|i: int| 0 <= i < line.len() ==> !white(#[trigger] line[i]),
    ensures
        answer_to(line + seq!['\r', '\n'] + rest, token) is BadRequestLine,
{
    lines_end_with_return_and_feed(line, rest);
    words_stand_between_white_space(
        ' ',
        if line.len() > 0 {
            line
        } else {
            seq!['x']
        },
        rest,
    );
    assert(line.len() == 0 ==> line =~= Seq::empty());
}

/// Headers end at the first empty line: two carriage returns, each with a line feed behind
/// it.
pub proof fn headers_end_at_the_first_empty_line(buf: Seq<u8>, n: int)
    requires
        0 <= n,
        n + 4 <= buf.len(),
        buf[n] == 13 && buf[n + 1] == 10 && buf[n + 2] == 13 && buf[n + 3] == 10,
        forall|i: int|
            0 <= i < n ==> !(#[trigger] buf[i] == 13 && buf[i + 1] == 10 && buf[i + 2] == 13 && buf[i + 3]
                == 10),
    ensures
        complete(buf),
        headers(buf) == buf.subrange(0, n + 4),
{
    assert(blank_line_at(buf, n));
    assert forall|j: int| j < n implies !#[trigger] blank_line_at(buf, j) by {
        if j >= 0 {
            assert(!(buf[j] == 13 && buf[j + 1] == 10 && buf[j + 2] == 13 && buf[j + 3] == 10));
        }
    }
    let f = first_blank_line(buf);
    assert(blank_line_at(buf, f) && forall|j: int| j < f ==> !#[trigger] blank_line_at(buf, j));
    if n < f {
        assert(!blank_line_at(buf, n));
    }
    if f < n {
        assert(!blank_line_at(buf, f));
    }
}

/// A request is read until its headers are there or it has 8192 bytes. One that ends
/// before has incomplete headers, or nothing at all is answered if it is empty; one that
/// takes too long is refused.
pub proof fn requests_are_read_to_the_end_of_their_headers(buf: Seq<u8>, token: Seq<char>)
    ensures
        complete(buf) ==> http_next(buf, ReadEvent::Data, token) == HttpStep::Answer(
            answer_to(lossy(headers(buf)), token),
        ),
        !complete(buf) && buf.len() < 8192 ==> http_next(buf, ReadEvent::Data, token) is Read,
        !complete(buf) && buf.len() >= 8192 ==> http_next(buf, ReadEvent::Data, token)
            == HttpStep::Answer(Answer::TooLarge),
        buf.len() < 8192 ==> http_next(buf, ReadEvent::Start, token) is Read,
        buf.len() >= 8192 ==> http_next(buf, ReadEvent::Start, token) == HttpStep::Answer(Answer::TooLarge),
        buf.len() == 0 ==> http_next(buf, ReadEvent::End, token) is Close,
        buf.len() > 0 ==> http_next(buf, ReadEvent::End, token) == HttpStep::Answer(
            Answer::IncompleteHeaders,
        ),
        http_next(buf, ReadEvent::TimedOut, token) == HttpStep::Answer(Answer::Timeout),
        complete(buf) ==> exists|i: int|
            0 <= i <= buf.len() - 4 && #[trigger] buf[i] == 13 && buf[i + 1] == 10 && buf[i + 2] == 13
                && buf[i + 3] == 10,
{
    if complete(buf) {
        let i = choose|i: int| #[trigger] blank_line_at(buf, i);
        assert(buf[i] == 13);
    }
}

/// Every refusal has a status from 400 on and says why; every report is a success and has
/// a body of its own.
pub proof fn refusals_have_their_status(a: Answer)
    ensures
        refusal_of(a) is Some <==> status_of(a).0 != 200,
        a is Stats || a is Connections || a is Config || a is DestPolicy <==> status_of(a).0 == 200,
        a is BadRequestLine || a is IncompleteHeaders <==> status_of(a).0 == 400,
        a is Unauthorized <==> status_of(a).0 == 401,
        a is NotFound <==> status_of(a).0 == 404,
        a is MethodNotAllowed <==> status_of(a).0 == 405,
        a is Timeout <==> status_of(a).0 == 408,
        a is TooLarge <==> status_of(a).0 == 431,
{
}

/// A response ends with its body, behind an empty line, and says in its third line how
/// many bytes the body has; its first line has the status.
pub proof fn responses_say_how_long_they_are(status: u16, text: Seq<char>, body: Seq<char>)
    requires
        !text.contains('\r'),
    ensures
        ({
            let l = lines(response_text(status, text, body));
            &&& l.len() >= 6
            &&& l[0] == "HTTP/1.1 "@ + decimal(status as nat) + seq![' '] + text
            &&& l[2] == "Content-Length: "@ + decimal(encode_utf8(body).len())
            &&& l[4].len() == 0
            &&& l.subrange(5, l.len() as int) == lines(body)
        }),
{
    let e = Seq::<char>::empty();
    let crlf = seq!['\r', '\n'];
    let n = decimal(encode_utf8(body).len());
    let d = decimal(status as nat);
    reveal_strlit("HTTP/1.1 ");
    reveal_strlit(" ");
    reveal_strlit("\r\nContent-Type: application/json\r\nContent-Length: ");
    reveal_strlit("\r\nConnection: close\r\n\r\n");
    reveal_strlit("Content-Type: application/json");
    reveal_strlit("Content-Length: ");
    reveal_strlit("Connection: close");
    let l0 = "HTTP/1.1 "@ + d + seq![' '] + text;
    let l1 = "Content-Type: application/json"@;
    let l2 = "Content-Length: "@ + n;
    let l3 = "Connection: close"@;
    lemma_no_return_in_decimal(status as nat);
    lemma_no_return_in_decimal(encode_utf8(body).len());
    assert(!l0.contains('\r')) by {
        if l0.contains('\r') {
            let i = choose|i: int| 0 <= i < l0.len() && l0[i] == '\r';
            if 9 <= i < 9 + d.len() {
                assert(d[i - 9] == '\r');
                assert(d.contains('\r'));
            } else if i > 9 + d.len() {
                assert(text[i - 10 - d.len()] == '\r');
                assert(text.contains('\r'));
            }
        }
    }
    assert(!l2.contains('\r')) by {
        if l2.contains('\r') {
            let i = choose|i: int| 0 <= i < l2.len() && l2[i] == '\r';
            if 16 <= i {
                assert(n[i - 16] == '\r');
                assert(n.contains('\r'));
            }
        }
    }
    let t4 = e + crlf + body;
    let t3 = l3 + crlf + t4;
    let t2 = l2 + crlf + t3;
    let t1 = l1 + crlf + t2;
    assert(" "@ =~= seq![' ']);
    assert("\r\nContent-Type: application/json\r\nContent-Length: "@ =~= crlf + l1 + crlf
        + "Content-Length: "@);
    assert("\r\nConnection: close\r\n\r\n"@ =~= crlf + l3 + crlf + crlf);
    assert(response_text(status, text, body) =~= l0 + crlf + t1);
    lines_end_with_return_and_feed(l0, t1);
    lines_end_with_return_and_feed(l1, t2);
    lines_end_with_return_and_feed(l2, t3);
    lines_end_with_return_and_feed(l3, t4);
    lines_end_with_return_and_feed(e, body);
    let l = lines(response_text(status, text, body));
    lemma_lines_nonempty(body);
    assert(l =~= seq![l0, l1, l2, l3, e] + lines(body));
    assert(l.subrange(5, l.len() as int) =~= lines(body));
}

proof fn lemma_lines_nonempty(s: Seq<char>)
    ensures
        lines(s).len() > 0,
{
}

proof fn lemma_no_return_in_decimal(n: nat)
    ensures
        !decimal(n).contains('\r'),
{
    decimals_read_back(n, 0);
    let d = decimal(n);
    if d.contains('\r') {
        let i = choose|i: int| 0 <= i < d.len() && d[i] == '\r';
        assert(is_digit(d[i]));
    }
}

/// The public server's probe is asked for by any path that starts with `/health`, and by
/// no other.
pub proof fn probes_are_asked_for_by_path(method: Seq<char>, path: Seq<char>, rest: Seq<char>)
    requires
        method.len() > 0,
        forall|i: int| 0 <= i < method.len() ==> !white(#[trigger] method[i]),
        path.len() > 0,
        forall|i: int| 0 <= i < path.len() ==> !white(#[trigger] path[i]),
    ensures
        asks_health(method + seq![' '] + (path + seq![' '] + rest)) <==> "/health"@.is_prefix_of(path),
        !asks_health(method),
{
    reveal_strlit("/health");
    words_stand_between_white_space(' ', method, path + seq![' '] + rest);
    words_stand_between_white_space(' ', path, rest);
    let w = words(method + seq![' '] + (path + seq![' '] + rest));
    assert(w[1] == path);
    if "/health"@.is_prefix_of(path) {
        assert(path.subrange(0, 7) =~= "/health"@);
    }
}

/// The public server's response: the probe's has status 200, any other 404; the body is
/// behind an empty line, and the third line says how many bytes it has.
#[verifier::rlimit(40)]
pub proof fn probes_say_how_long_they_are(
    request: Seq<char>,
    server_id: Seq<char>,
    uptime_secs: u64,
    version: Seq<char>,
)
    ensures
        ({
            let l = lines(health_text(request, server_id, uptime_secs, version));
            let body = if asks_health(request) {
                health_body(server_id, uptime_secs, version)
            } else {
                "{\"error\":\"not found\"}"@
            };
            &&& l.len() >= 7
            &&& l[0] == if asks_health(request) {
                "HTTP/1.1 200 OK"@
            } else {
                "HTTP/1.1 404 Not Found"@
            }
            &&& l[2] == "Content-Length: "@ + decimal(encode_utf8(body).len())
            &&& l[3] == "Cache-Control: no-store"@
            &&& l[5].len() == 0
            &&& l.subrange(6, l.len() as int) == lines(body)
        }),
{
    let asked = asks_health(request);
    let body = if asked {
        health_body(server_id, uptime_secs, version)
    } else {
        "{\"error\":\"not found\"}"@
    };
    let e = Seq::<char>::empty();
    let crlf = seq!['\r', '\n'];
    let n = decimal(encode_utf8(body).len());
    reveal_strlit("HTTP/1.1 ");
    reveal_strlit("200 OK");
    reveal_strlit("404 Not Found");
    reveal_strlit("HTTP/1.1 200 OK");
    reveal_strlit("HTTP/1.1 404 Not Found");
    reveal_strlit("\r\nContent-Type: application/json\r\nContent-Length: ");
    reveal_strlit("\r\nCache-Control: no-store\r\nConnection: close\r\n\r\n");
    reveal_strlit("Content-Type: application/json");
    reveal_strlit("Content-Length: ");
    reveal_strlit("Cache-Control: no-store");
    reveal_strlit("Connection: close");
    let l0 = if asked {
        "HTTP/1.1 200 OK"@
    } else {
        "HTTP/1.1 404 Not Found"@
    };
    let l1 = "Content-Type: application/json"@;
    let l2 = "Content-Length: "@ + n;
    let l3 = "Cache-Control: no-store"@;
    let l4 = "Connection: close"@;
    lemma_no_return_in_decimal(encode_utf8(body).len());
    assert("HTTP/1.1 "@ + "200 OK"@ =~= "HTTP/1.1 200 OK"@);
    assert("HTTP/1.1 "@ + "404 Not Found"@ =~= "HTTP/1.1 404 Not Found"@);
    assert(!l2.contains('\r')) by {
        if l2.contains('\r') {
            let i = choose|i: int| 0 <= i < l2.len() && l2[i] == '\r';
            if 16 <= i {
                assert(n[i - 16] == '\r');
                assert(n.contains('\r'));
            }
        }
    }
    let t5 = e + crlf + body;
    let t4 = l4 + crlf + t5;
    let t3 = l3 + crlf + t4;
    let t2 = l2 + crlf + t3;
    let t1 = l1 + crlf + t2;
    assert("\r\nContent-Type: application/json\r\nContent-Length: "@ =~= crlf + l1 + crlf
        + "Content-Length: "@);
    assert("\r\nCache-Control: no-store\r\nConnection: close\r\n\r\n"@ =~= crlf + l3 + crlf + l4
        + crlf + crlf);
    assert(health_text(request, server_id, uptime_secs, version) =~= l0 + crlf + t1);
    lines_end_with_return_and_feed(l0, t1);
    lines_end_with_return_and_feed(l1, t2);
    lines_end_with_return_and_feed(l2, t3);
    lines_end_with_return_and_feed(l3, t4);
    lines_end_with_return_and_feed(l4, t5);
    lines_end_with_return_and_feed(e, body);
    let l = lines(health_text(request, server_id, uptime_secs, version));
    lemma_lines_nonempty(body);
    assert(l =~= seq![l0, l1, l2, l3, l4, e] + lines(body));
    assert(l.subrange(6, l.len() as int) =~= lines(body));
}

} // verus!
