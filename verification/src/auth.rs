//! Relay tickets: who may use the relay, and proof of it.

use crate::addr::session_key;
use crate::bytes::{be16, be64, read_be16};
use crate::limits::SESSION_ID_LEN;
use crate::num::{beyond, sat_add};
use crate::text::{chars_of, find, is_text, lower, lowered, opt_text, position, trim, trimmed};
use base64::engine::general_purpose::{STANDARD, URL_SAFE, URL_SAFE_NO_PAD};
use base64::Engine;
use dashmap::DashMap;
use ring::signature::{UnparsedPublicKey, ED25519};
use vstd::prelude::*;
use vstd::string::*;
use vstd::utf8::{encode_utf8, valid_utf8};

verus! {

pub const AUTH_HELLO_FRAME_TYPE: u8 = 0xA1;

pub const AUTH_ACK_FRAME_TYPE: u8 = 0xA2;

pub const AUTH_ACK_OK: u8 = 0;

pub const AUTH_ACK_BAD_FORMAT: u8 = 1;

pub const AUTH_ACK_BAD_SIGNATURE: u8 = 2;

pub const AUTH_ACK_EXPIRED: u8 = 3;

pub const AUTH_ACK_SID_MISMATCH: u8 = 4;

pub const AUTH_ACK_SERVER_MISMATCH: u8 = 5;

pub const AUTH_ACK_AUTH_DISABLED: u8 = 6;

pub const AUTH_ACK_REPLAY: u8 = 7;

/// A valid ticket for another account than the one that holds the session.
pub const AUTH_ACK_OWNER_MISMATCH: u8 = 8;

/// The session's traffic comes from a new endpoint, for which its owner has not
/// shown a ticket yet.
pub const AUTH_ACK_PROOF_REQUIRED: u8 = 9;

/// The longest token, in bytes.
pub const MAX_AUTH_TOKEN_LEN: usize = 4096;

/// How far the issuer's clock and the relay's may differ.
pub const AUTH_CLOCK_SKEW_SECS: u64 = 30;

/// How often expired tickets are dropped from the replay cache.
pub const REPLAY_CACHE_PRUNE_INTERVAL_SECS: u64 = 30;

/// Whether clients need a ticket.
#[derive(Clone, Copy, PartialEq, Eq, Structural, Debug)]
pub enum RelayAuthMode {
    Off,
    Optional,
    Required,
}

/// The mode that a setting asks for; anything that is not known asks for tickets.
pub open spec fn auth_mode_of(value: Option<Seq<char>>) -> RelayAuthMode {
    match value {
        Some(s) => if lowered(trimmed(s)) == "optional"@ {
            RelayAuthMode::Optional
        } else if lowered(trimmed(s)) == "off"@ {
            RelayAuthMode::Off
        } else {
            RelayAuthMode::Required
        },
        None => RelayAuthMode::Required,
    }
}

impl RelayAuthMode {
    pub fn from_env(value: Option<String>) -> (r: RelayAuthMode)
        ensures
            r == auth_mode_of(opt_text(value)),
    {
        match value {
            Some(value) => {
                let chars = chars_of(value.as_str());
                let name = lower(trim(&chars));
                if is_text(&name, "required") {
                    proof {
                        reveal_strlit("required");
                        reveal_strlit("optional");
                        reveal_strlit("off");
                        assert("required"@[0] != "optional"@[0]);
                        assert("required"@.len() != "off"@.len());
                    }
                    RelayAuthMode::Required
                } else if is_text(&name, "optional") {
                    RelayAuthMode::Optional
                } else if is_text(&name, "off") {
                    RelayAuthMode::Off
                } else {
                    RelayAuthMode::Required
                }
            },
            None => RelayAuthMode::Required,
        }
    }

    pub fn as_str(self) -> (r: &'static str)
        ensures
            r@ == self.name(),
    {
        match self {
            RelayAuthMode::Off => "off",
            RelayAuthMode::Optional => "optional",
            RelayAuthMode::Required => "required",
        }
    }

    /// The mode's name.
    pub open spec fn name(self) -> Seq<char> {
        match self {
            RelayAuthMode::Off => "off"@,
            RelayAuthMode::Optional => "optional"@,
            RelayAuthMode::Required => "required"@,
        }
    }

    pub fn requires_auth(self) -> (r: bool)
        ensures
            r == (self != RelayAuthMode::Off),
    {
        !matches!(self, RelayAuthMode::Off)
    }
}

/// What tickets are checked against.
pub struct RelayAuthConfig {
    pub mode: RelayAuthMode,
    pub public_key: Option<Vec<u8>>,
    pub server_id: Option<String>,
}

/// Why the settings for tickets cannot be used.
#[derive(Clone, Copy, PartialEq, Eq, Structural, Debug)]
pub enum AuthConfigError {
    /// Running without tickets has to be allowed explicitly.
    OpenRelay,
    MissingKey,
    BadKeyEncoding,
    /// The key has this many bytes, and not 32.
    BadKeyLength(usize),
    MissingServerId,
    EmptyServerId,
}

impl RelayAuthConfig {
    pub open spec fn key(self) -> Option<Seq<u8>> {
        match self.public_key {
            Some(key) => Some(key@),
            None => None,
        }
    }

    pub open spec fn server(self) -> Option<Seq<char>> {
        opt_text(self.server_id)
    }

    /// The configuration that the settings make: the mode, whether an open relay is
    /// allowed, the issuer's key in base64, and the server's id.
    pub fn from_env(
        mode: Option<String>,
        allow_insecure: Option<String>,
        key_b64: Option<String>,
        server_id: Option<String>,
    ) -> (r: Result<RelayAuthConfig, AuthConfigError>)
        ensures
            match auth_config_of(
                opt_text(mode),
                opt_text(allow_insecure),
                opt_text(key_b64),
                opt_text(server_id),
            ) {
                Ok(want) => r matches Ok(config) && config.mode == want.mode && config.key() == want.key
                    && config.server() == want.server,
                Err(error) => r == Err::<RelayAuthConfig, AuthConfigError>(error),
            },
    {
        let mode: RelayAuthMode = RelayAuthMode::from_env(mode);
        if mode == RelayAuthMode::Off {
            let allowed: bool = match allow_insecure {
                Some(value) => {
                    let chars = chars_of(value.as_str());
                    is_text(&chars, "1")
                },
                None => false,
            };
            if !allowed {
                return Err(AuthConfigError::OpenRelay);
            }
            return Ok(RelayAuthConfig { mode, public_key: None, server_id: None });
        }
        let key_b64: String = match key_b64 {
            Some(key) => key,
            None => {
                return Err(AuthConfigError::MissingKey);
            },
        };
        let chars = chars_of(key_b64.as_str());
        let text = crate::text::string_of(trim(&chars));
        let key: Vec<u8> = match decode_base64_flexible(text.as_str()) {
            Some(key) => key,
            None => {
                return Err(AuthConfigError::BadKeyEncoding);
            },
        };
        if key.len() != 32 {
            return Err(AuthConfigError::BadKeyLength(key.len()));
        }
        let server_id: String = match server_id {
            Some(id) => id,
            None => {
                return Err(AuthConfigError::MissingServerId);
            },
        };
        let chars = chars_of(server_id.as_str());
        if trim(&chars).len() == 0 {
            return Err(AuthConfigError::EmptyServerId);
        }
        Ok(RelayAuthConfig { mode, public_key: Some(key), server_id: Some(server_id) })
    }
}

/// The content of a [`RelayAuthConfig`].
pub ghost struct AuthView {
    pub mode: RelayAuthMode,
    pub key: Option<Seq<u8>>,
    pub server: Option<Seq<char>>,
}

/// What the settings make.
pub open spec fn auth_config_of(
    mode: Option<Seq<char>>,
    allow_insecure: Option<Seq<char>>,
    key_b64: Option<Seq<char>>,
    server_id: Option<Seq<char>>,
) -> Result<AuthView, AuthConfigError> {
    let mode = auth_mode_of(mode);
    if mode == RelayAuthMode::Off {
        if allow_insecure == Some("1"@) {
            Ok(AuthView { mode, key: None, server: None })
        } else {
            Err(AuthConfigError::OpenRelay)
        }
    } else if key_b64 is None {
        Err(AuthConfigError::MissingKey)
    } else {
        match base64_flexible(trimmed(key_b64->Some_0)) {
            None => Err(AuthConfigError::BadKeyEncoding),
            Some(key) => if key.len() != 32 {
                Err(AuthConfigError::BadKeyLength(key.len() as usize))
            } else if server_id is None {
                Err(AuthConfigError::MissingServerId)
            } else if trimmed(server_id->Some_0).len() == 0 {
                Err(AuthConfigError::EmptyServerId)
            } else {
                Ok(AuthView { mode, key: Some(key), server: server_id })
            },
        }
    }
}

/// Whether a session has shown a ticket.
#[derive(Clone, Copy, PartialEq, Eq, Structural, Debug)]
pub enum SessionAuthState {
    Legacy,
    Authenticated,
}

impl SessionAuthState {
    pub open spec fn name(self) -> Seq<char> {
        match self {
            SessionAuthState::Legacy => "legacy"@,
            SessionAuthState::Authenticated => "authenticated"@,
        }
    }

    pub fn as_str(self) -> (r: &'static str)
        ensures
            r@ == self.name(),
    {
        match self {
            SessionAuthState::Legacy => "legacy",
            SessionAuthState::Authenticated => "authenticated",
        }
    }
}

/// What a ticket says.
pub struct RelayTicketClaims {
    pub v: u8,
    pub iss: String,
    pub aud: String,
    pub sub: String,
    pub sid: String,
    pub srv: String,
    pub iat: u64,
    pub exp: u64,
    pub jti: String,
    pub lease: bool,
}

/// What a verified ticket grants.
pub struct VerifiedRelayTicket {
    pub user_id: String,
    pub jti: String,
    pub exp: u64,
    pub lease: bool,
}

/// The content of a [`VerifiedRelayTicket`].
pub ghost struct TicketView {
    pub user_id: Seq<char>,
    pub jti: Seq<char>,
    pub exp: u64,
    pub lease: bool,
}

impl VerifiedRelayTicket {
    pub open spec fn view(self) -> TicketView {
        TicketView { user_id: self.user_id@, jti: self.jti@, exp: self.exp, lease: self.lease }
    }
}

/// Why a ticket is refused.
#[derive(Clone, Copy, PartialEq, Eq, Structural, Debug)]
pub enum RelayAuthVerifyError {
    BadFormat,
    BadSignature,
    Expired,
    SidMismatch,
    ServerMismatch,
    Replay,
    /// The session belongs to somebody else. Session ids are chosen by clients and
    /// the issuer does not reserve them, so a valid ticket for a session is no proof
    /// of owning it.
    OwnerMismatch,
}

impl RelayAuthVerifyError {
    /// The status that tells a client of the refusal.
    pub open spec fn status(self) -> u8 {
        match self {
            RelayAuthVerifyError::BadFormat => AUTH_ACK_BAD_FORMAT,
            RelayAuthVerifyError::BadSignature => AUTH_ACK_BAD_SIGNATURE,
            RelayAuthVerifyError::Expired => AUTH_ACK_EXPIRED,
            RelayAuthVerifyError::SidMismatch => AUTH_ACK_SID_MISMATCH,
            RelayAuthVerifyError::ServerMismatch => AUTH_ACK_SERVER_MISMATCH,
            RelayAuthVerifyError::Replay => AUTH_ACK_REPLAY,
            RelayAuthVerifyError::OwnerMismatch => AUTH_ACK_OWNER_MISMATCH,
        }
    }

    pub fn ack_status(self) -> (r: u8)
        ensures
            r == self.status(),
    {
        match self {
            RelayAuthVerifyError::BadFormat => AUTH_ACK_BAD_FORMAT,
            RelayAuthVerifyError::BadSignature => AUTH_ACK_BAD_SIGNATURE,
            RelayAuthVerifyError::Expired => AUTH_ACK_EXPIRED,
            RelayAuthVerifyError::SidMismatch => AUTH_ACK_SID_MISMATCH,
            RelayAuthVerifyError::ServerMismatch => AUTH_ACK_SERVER_MISMATCH,
            RelayAuthVerifyError::Replay => AUTH_ACK_REPLAY,
            RelayAuthVerifyError::OwnerMismatch => AUTH_ACK_OWNER_MISMATCH,
        }
    }
}

/// Different refusals have different statuses, and none is that of success.
pub proof fn refusals_are_told_apart(a: RelayAuthVerifyError, b: RelayAuthVerifyError)
    ensures
        a.status() == b.status() ==> a == b,
        a.status() != AUTH_ACK_OK,
{
}

/// What `base64::engine::general_purpose::URL_SAFE_NO_PAD` decodes a text to; `None`
/// where it reports an error.
pub uninterp spec fn base64_url_safe_no_pad(text: Seq<char>) -> Option<Seq<u8>>;

/// What `base64::engine::general_purpose::URL_SAFE` decodes a text to; `None` where it
/// reports an error.
pub uninterp spec fn base64_url_safe(text: Seq<char>) -> Option<Seq<u8>>;

/// What `base64::engine::general_purpose::STANDARD` decodes a text to; `None` where it
/// reports an error.
pub uninterp spec fn base64_standard(text: Seq<char>) -> Option<Seq<u8>>;

/// The view of optional bytes.
pub open spec fn opt_bytes(b: Option<Vec<u8>>) -> Option<Seq<u8>> {
    match b {
        Some(v) => Some(v@),
        None => None,
    }
}

/// `Engine::decode` of `URL_SAFE_NO_PAD`: the result is the name's, an error is `None`.
#[verifier::external_body]
fn decode_url_safe_no_pad(input: &str) -> (r: Option<Vec<u8>>)
    ensures
        opt_bytes(r) == base64_url_safe_no_pad(input@),
{
    URL_SAFE_NO_PAD.decode(input).ok()
}

/// `Engine::decode` of `URL_SAFE`: the result is the name's, an error is `None`.
#[verifier::external_body]
fn decode_url_safe(input: &str) -> (r: Option<Vec<u8>>)
    ensures
        opt_bytes(r) == base64_url_safe(input@),
{
    URL_SAFE.decode(input).ok()
}

/// `Engine::decode` of `STANDARD`: the result is the name's, an error is `None`.
#[verifier::external_body]
fn decode_standard(input: &str) -> (r: Option<Vec<u8>>)
    ensures
        opt_bytes(r) == base64_standard(input@),
{
    STANDARD.decode(input).ok()
}

/// Base64 in any of three forms, the first that fits: URL-safe without padding,
/// URL-safe with padding, standard.
pub open spec fn base64_flexible(text: Seq<char>) -> Option<Seq<u8>> {
    if base64_url_safe_no_pad(text) is Some {
        base64_url_safe_no_pad(text)
    } else if base64_url_safe(text) is Some {
        base64_url_safe(text)
    } else {
        base64_standard(text)
    }
}

pub fn decode_base64_flexible(input: &str) -> (r: Option<Vec<u8>>)
    ensures
        opt_bytes(r) == base64_flexible(input@),
{
    match decode_url_safe_no_pad(input) {
        Some(bytes) => Some(bytes),
        None => match decode_url_safe(input) {
            Some(bytes) => Some(bytes),
            None => decode_standard(input),
        },
    }
}

/// Whether `ring` accepts the Ed25519 signature of a message under a public key.
pub uninterp spec fn ed25519_accepts(key: Seq<u8>, message: Seq<u8>, signature: Seq<u8>) -> bool;

/// `ring::signature::UnparsedPublicKey::verify` with `ED25519`: the result is the
/// name's. The key is parsed there too; one that cannot be parsed accepts nothing.
#[verifier::external_body]
fn verify_ed25519(key: &[u8], message: &[u8], signature: &[u8]) -> (r: bool)
    ensures
        r == ed25519_accepts(key@, message@, signature@),
{
    UnparsedPublicKey::new(&ED25519, key).verify(message, signature).is_ok()
}

/// `std::str::from_utf8`: the bytes as text, if they are valid UTF-8.
#[verifier::external_body]
pub(crate) fn utf8_text<'a>(bytes: &'a [u8]) -> (r: Option<&'a str>)
    ensures
        match r {
            Some(s) => valid_utf8(bytes@) && s.spec_bytes() == bytes@,
            None => !valid_utf8(bytes@),
        },
{
    std::str::from_utf8(bytes).ok()
}

/// A hexadecimal digit.
pub open spec fn hex_digit(n: nat) -> char {
    if n < 10 {
        (('0' as u32 + n) as u32) as char
    } else {
        (('a' as u32 + (n - 10)) as u32) as char
    }
}

/// The last `width` hexadecimal digits of a number.
pub open spec fn hex(n: nat, width: nat) -> Seq<char>
    decreases width,
{
    if width == 0 {
        Seq::empty()
    } else {
        hex(n / 16, (width - 1) as nat).push(hex_digit(n % 16))
    }
}

fn hex_char(n: u64) -> (r: char)
    requires
        n < 16,
    ensures
        r == hex_digit(n as nat),
{
    match n {
        0 => '0',
        1 => '1',
        2 => '2',
        3 => '3',
        4 => '4',
        5 => '5',
        6 => '6',
        7 => '7',
        8 => '8',
        9 => '9',
        10 => 'a',
        11 => 'b',
        12 => 'c',
        13 => 'd',
        14 => 'e',
        _ => 'f',
    }
}

/// Appends the last `width` hexadecimal digits of a number.
pub fn push_hex(s: &mut String, n: u64, width: usize)
    ensures
        final(s)@ == old(s)@ + hex(n as nat, width as nat),
    decreases width,
{
    if width > 0 {
        push_hex(s, n / 16, width - 1);
        s.push(hex_char(n % 16));
    }
    assert(s@ =~= old(s)@ + hex(n as nat, width as nat));
}

/// A session id as 16 hexadecimal digits.
pub fn session_id_text(session_id: &[u8; 8]) -> (r: String)
    ensures
        r@ == hex(be64(session_id@) as nat, 16),
{
    let mut s = String::new();
    push_hex(&mut s, session_key(session_id), 16);
    assert(s@ =~= hex(be64(session_id@) as nat, 16));
    s
}

/// The payload of a signed token: a payload and a signature of 64 bytes, both in
/// base64, with a dot between them, and signed with the issuer's key.
pub open spec fn opened(token: Seq<char>, key: Option<Seq<u8>>) -> Result<
    Seq<u8>,
    RelayAuthVerifyError,
> {
    let at = find(token, '.');
    let payload = base64_flexible(token.subrange(0, at));
    let signature = base64_flexible(token.subrange(at + 1, token.len() as int));
    if token.len() == 0 || encode_utf8(token).len() > MAX_AUTH_TOKEN_LEN {
        Err(RelayAuthVerifyError::BadFormat)
    } else if at >= token.len() || payload is None || signature is None {
        Err(RelayAuthVerifyError::BadFormat)
    } else if signature->Some_0.len() != 64 || key is None {
        Err(RelayAuthVerifyError::BadFormat)
    } else if !ed25519_accepts(key->Some_0, payload->Some_0, signature->Some_0) {
        Err(RelayAuthVerifyError::BadSignature)
    } else {
        Ok(payload->Some_0)
    }
}

/// Opens a signed token.
pub fn open_relay_ticket(token: &str, auth: &RelayAuthConfig) -> (r: Result<
    Vec<u8>,
    RelayAuthVerifyError,
>)
    ensures
        match opened(token@, auth.key()) {
            Ok(payload) => r matches Ok(bytes) && bytes@ == payload,
            Err(error) => r == Err::<Vec<u8>, RelayAuthVerifyError>(error),
        },
{
    let bytes: &[u8] = token.as_bytes();
    let chars = chars_of(token);
    if chars.len() == 0 || bytes.len() > MAX_AUTH_TOKEN_LEN {
        return Err(RelayAuthVerifyError::BadFormat);
    }
    let at: usize = match position(&chars, '.') {
        Some(at) => at,
        None => {
            return Err(RelayAuthVerifyError::BadFormat);
        },
    };
    let payload: Vec<u8> = match decode_base64_flexible(token.substring_char(0, at)) {
        Some(payload) => payload,
        None => {
            return Err(RelayAuthVerifyError::BadFormat);
        },
    };
    let signature: Vec<u8> = match decode_base64_flexible(token.substring_char(at + 1, chars.len())) {
        Some(signature) => signature,
        None => {
            return Err(RelayAuthVerifyError::BadFormat);
        },
    };
    if signature.len() != 64 {
        return Err(RelayAuthVerifyError::BadFormat);
    }
    match &auth.public_key {
        None => Err(RelayAuthVerifyError::BadFormat),
        Some(key) => {
            if !verify_ed25519(key.as_slice(), payload.as_slice(), signature.as_slice()) {
                return Err(RelayAuthVerifyError::BadSignature);
            }
            Ok(payload)
        },
    }
}

/// What claims grant to a session: they are of version 1, from the web to the relay,
/// about somebody, for this session and for this server, not issued later than now
/// and not expired, within the clock skew. No claims (`None`) are badly formatted.
pub open spec fn granted(
    claims: Option<RelayTicketClaims>,
    sid: int,
    server: Option<Seq<char>>,
    now_unix: u64,
) -> Result<TicketView, RelayAuthVerifyError> {
    match claims {
        None => Err(RelayAuthVerifyError::BadFormat),
        Some(c) => if c.v != 1 || c.iss@ != "swifttunnel-web"@ || c.aud@ != "swifttunnel-relay"@
            || c.sub@.len() == 0 {
            Err(RelayAuthVerifyError::BadFormat)
        } else if c.sid@ != hex(sid as nat, 16) {
            Err(RelayAuthVerifyError::SidMismatch)
        } else if server is None {
            Err(RelayAuthVerifyError::BadFormat)
        } else if c.srv@ != server->Some_0 {
            Err(RelayAuthVerifyError::ServerMismatch)
        } else if c.iat > sat_add(now_unix, AUTH_CLOCK_SKEW_SECS) {
            Err(RelayAuthVerifyError::BadFormat)
        } else if now_unix > sat_add(c.exp, AUTH_CLOCK_SKEW_SECS) {
            Err(RelayAuthVerifyError::Expired)
        } else {
            Ok(TicketView { user_id: c.sub@, jti: c.jti@, exp: c.exp, lease: c.lease })
        },
    }
}

/// Whether `r` is the result `want`.
pub open spec fn is_ticket(
    r: Result<VerifiedRelayTicket, RelayAuthVerifyError>,
    want: Result<TicketView, RelayAuthVerifyError>,
) -> bool {
    match (r, want) {
        (Ok(ticket), Ok(view)) => ticket@ == view,
        (Err(a), Err(b)) => a == b,
        _ => false,
    }
}

fn same_string(a: &String, b: &str) -> (r: bool)
    ensures
        r == (a@ == b@),
{
    let chars = chars_of(a.as_str());
    is_text(&chars, b)
}

/// Checks the claims of an opened ticket.
pub fn check_relay_ticket_claims(
    claims: Option<RelayTicketClaims>,
    session_id: [u8; 8],
    auth: &RelayAuthConfig,
    now_unix: u64,
) -> (r: Result<VerifiedRelayTicket, RelayAuthVerifyError>)
    ensures
        is_ticket(r, granted(claims, be64(session_id@), auth.server(), now_unix)),
{
    let claims: RelayTicketClaims = match claims {
        Some(claims) => claims,
        None => {
            return Err(RelayAuthVerifyError::BadFormat);
        },
    };
    if claims.v != 1 {
        return Err(RelayAuthVerifyError::BadFormat);
    }
    if !same_string(&claims.iss, "swifttunnel-web") || !same_string(&claims.aud, "swifttunnel-relay")
        || claims.sub.as_str().is_empty() {
        return Err(RelayAuthVerifyError::BadFormat);
    }
    let expected_sid: String = session_id_text(&session_id);
    if !same_string(&claims.sid, expected_sid.as_str()) {
        return Err(RelayAuthVerifyError::SidMismatch);
    }
    match &auth.server_id {
        None => {
            return Err(RelayAuthVerifyError::BadFormat);
        },
        Some(expected) => {
            if !same_string(&claims.srv, expected.as_str()) {
                return Err(RelayAuthVerifyError::ServerMismatch);
            }
        },
    }
    if claims.iat > now_unix.saturating_add(AUTH_CLOCK_SKEW_SECS) {
        return Err(RelayAuthVerifyError::BadFormat);
    }
    if now_unix > claims.exp.saturating_add(AUTH_CLOCK_SKEW_SECS) {
        return Err(RelayAuthVerifyError::Expired);
    }
    Ok(
        VerifiedRelayTicket {
            user_id: claims.sub,
            jti: claims.jti,
            exp: claims.exp,
            lease: claims.lease,
        },
    )
}

/// Whether `r` is what a token gives whose payload `decode` reads the claims from.
pub open spec fn verifies<F: Fn(&[u8]) -> Option<RelayTicketClaims>>(
    r: Result<VerifiedRelayTicket, RelayAuthVerifyError>,
    token: Seq<char>,
    sid: int,
    auth: RelayAuthConfig,
    now_unix: u64,
    decode: F,
) -> bool {
    match opened(token, auth.key()) {
        Err(error) => r == Err::<VerifiedRelayTicket, RelayAuthVerifyError>(error),
        Ok(payload) => exists|bytes: &[u8], claims: Option<RelayTicketClaims>|
            bytes@ == payload && #[trigger] call_ensures(decode, (bytes,), claims) && is_ticket(
                r,
                granted(claims, sid, auth.server(), now_unix),
            ),
    }
}

/// Verifies a ticket: opens the token, has `decode` read the claims from its payload,
/// and checks them.
pub fn verify_relay_ticket<F: Fn(&[u8]) -> Option<RelayTicketClaims>>(
    token: &str,
    session_id: [u8; 8],
    auth: &RelayAuthConfig,
    now_unix: u64,
    decode: F,
) -> (r: Result<VerifiedRelayTicket, RelayAuthVerifyError>)
    requires
        forall|bytes: &[u8]| call_requires(decode, (bytes,)),
    ensures
        verifies(r, token@, be64(session_id@), *auth, now_unix, decode),
{
    match open_relay_ticket(token, auth) {
        Err(error) => Err(error),
        Ok(payload) => {
            let bytes: &[u8] = payload.as_slice();
            let claims: Option<RelayTicketClaims> = decode(bytes);
            assert(call_ensures(decode, (bytes,), claims));
            check_relay_ticket_claims(claims, session_id, auth, now_unix)
        },
    }
}

/// What a map from ticket ids to expiry times holds.
pub uninterp spec fn seen_of(m: DashMap<String, u64>) -> Map<Seq<char>, u64>;

/// `DashMap::new`: the map is empty.
#[verifier::external_body]
fn new_seen() -> (r: DashMap<String, u64>)
    ensures
        seen_of(r) == (Map::<Seq<char>, u64>::empty()),
{
    DashMap::new()
}

/// `DashMap::contains_key`: whether there is an entry for the id.
#[verifier::external_body]
fn has_seen(m: &DashMap<String, u64>, jti: &str) -> (r: bool)
    ensures
        r == seen_of(*m).contains_key(jti@),
{
    m.contains_key(jti)
}

/// `DashMap::insert`: the entry for the id becomes `exp`.
#[verifier::external_body]
fn insert_seen(m: &mut DashMap<String, u64>, jti: &str, exp: u64)
    ensures
        seen_of(*final(m)) == seen_of(*old(m)).insert(jti@, exp),
{
    m.insert(jti.to_string(), exp);
}

/// `DashMap::retain`, with [`ticket_may_come_again`]: the entries that it keeps are
/// left.
#[verifier::external_body]
fn retain_current_tickets(m: &mut DashMap<String, u64>, now_unix: u64)
    ensures
        seen_of(*final(m)) == current_tickets(seen_of(*old(m)), now_unix),
{
    m.retain(|_, exp| ticket_may_come_again(*exp, now_unix))
}

/// Whether a ticket that expires at `exp` still verifies at `now_unix`.
pub open spec fn unexpired(exp: u64, now_unix: u64) -> bool {
    now_unix <= sat_add(exp, AUTH_CLOCK_SKEW_SECS)
}

fn ticket_may_come_again(exp: u64, now_unix: u64) -> (r: bool)
    ensures
        r == unexpired(exp, now_unix),
{
    now_unix <= exp.saturating_add(AUTH_CLOCK_SKEW_SECS)
}

/// The tickets that still verify at `now_unix`.
pub open spec fn current_tickets(m: Map<Seq<char>, u64>, now_unix: u64) -> Map<Seq<char>, u64> {
    m.restrict(Set::new(|jti: Seq<char>| m.contains_key(jti) && unexpired(m[jti], now_unix)))
}

/// The tickets that were used, as long as they would verify again.
pub struct RelayTicketReplayCache {
    pub seen_jti: DashMap<String, u64>,
    pub last_prune_unix: u64,
}

/// The content of a [`RelayTicketReplayCache`].
pub ghost struct ReplayView {
    pub seen: Map<Seq<char>, u64>,
    pub last_prune_unix: u64,
}

impl ReplayView {
    /// Whether expired tickets are dropped at `now_unix`.
    pub open spec fn prune_due(self, now_unix: u64) -> bool {
        beyond(now_unix, self.last_prune_unix) >= REPLAY_CACHE_PRUNE_INTERVAL_SECS
    }

    /// The cache at `now_unix`, after expired tickets are dropped if that is due.
    pub open spec fn pruned(self, now_unix: u64) -> ReplayView {
        if self.prune_due(now_unix) {
            ReplayView { seen: current_tickets(self.seen, now_unix), last_prune_unix: now_unix }
        } else {
            self
        }
    }

    /// Whether the ticket is known at `now_unix`.
    pub open spec fn knows(self, jti: Seq<char>, now_unix: u64) -> bool {
        self.pruned(now_unix).seen.contains_key(jti)
    }

    /// The cache after the ticket was shown at `now_unix`.
    pub open spec fn after(self, jti: Seq<char>, exp: u64, now_unix: u64) -> ReplayView {
        let p = self.pruned(now_unix);
        if self.knows(jti, now_unix) {
            p
        } else {
            ReplayView { seen: p.seen.insert(jti, exp), ..p }
        }
    }
}

impl RelayTicketReplayCache {
    pub open spec fn view(self) -> ReplayView {
        ReplayView { seen: seen_of(self.seen_jti), last_prune_unix: self.last_prune_unix }
    }

    pub fn new() -> (r: RelayTicketReplayCache)
        ensures
            r@ == (ReplayView { seen: Map::empty(), last_prune_unix: 0 }),
    {
        RelayTicketReplayCache { seen_jti: new_seen(), last_prune_unix: 0 }
    }

    /// Whether the ticket is new; from now on it is not.
    pub fn accept_once(&mut self, jti: &str, exp: u64, now_unix: u64) -> (r: bool)
        ensures
            r == !old(self)@.knows(jti@, now_unix),
            final(self)@ == old(self)@.after(jti@, exp, now_unix),
    {
        self.prune_expired(now_unix);
        if has_seen(&self.seen_jti, jti) {
            return false;
        }
        insert_seen(&mut self.seen_jti, jti, exp);
        true
    }

    /// Drops expired tickets, if that is due.
    pub fn prune_expired(&mut self, now_unix: u64)
        ensures
            final(self)@ == old(self)@.pruned(now_unix),
    {
        if now_unix < self.last_prune_unix || now_unix - self.last_prune_unix
            < REPLAY_CACHE_PRUNE_INTERVAL_SECS {
            return;
        }
        self.last_prune_unix = now_unix;
        retain_current_tickets(&mut self.seen_jti, now_unix);
    }
}

/// What becomes of a verified ticket: shown for the first time it is accepted, shown
/// again it is refused.
pub open spec fn used_once(
    first: Result<VerifiedRelayTicket, RelayAuthVerifyError>,
    r: Result<VerifiedRelayTicket, RelayAuthVerifyError>,
    before: ReplayView,
    after: ReplayView,
    now_unix: u64,
) -> bool {
    match first {
        Err(_) => r == first && after == before,
        Ok(ticket) => {
            &&& r == if before.knows(ticket.jti@, now_unix) {
                Err(RelayAuthVerifyError::Replay)
            } else {
                first
            }
            &&& after == before.after(ticket.jti@, ticket.exp, now_unix)
        },
    }
}

/// Verifies a ticket that has not been used before.
pub fn verify_relay_ticket_once<F: Fn(&[u8]) -> Option<RelayTicketClaims>>(
    token: &str,
    session_id: [u8; 8],
    auth: &RelayAuthConfig,
    now_unix: u64,
    replay_cache: &mut RelayTicketReplayCache,
    decode: F,
) -> (r: Result<VerifiedRelayTicket, RelayAuthVerifyError>)
    requires
        forall|bytes: &[u8]| call_requires(decode, (bytes,)),
    ensures
        exists|first: Result<VerifiedRelayTicket, RelayAuthVerifyError>| #[trigger]
            verifies(first, token@, be64(session_id@), *auth, now_unix, decode) && used_once(
                first,
                r,
                old(replay_cache)@,
                final(replay_cache)@,
                now_unix,
            ),
{
    let first = verify_relay_ticket(token, session_id, auth, now_unix, decode);
    match first {
        Err(error) => Err(error),
        Ok(ticket) => {
            if !replay_cache.accept_once(ticket.jti.as_str(), ticket.exp, now_unix) {
                return Err(RelayAuthVerifyError::Replay);
            }
            Ok(ticket)
        },
    }
}

/// A ticket that was used stays known for as long as it would verify, whichever
/// tickets are shown in the meantime.
pub proof fn used_tickets_stay_used(
    cache: ReplayView,
    jti: Seq<char>,
    exp: u64,
    now_unix: u64,
    other: Seq<char>,
    other_exp: u64,
)
    requires
        cache.seen.contains_key(jti),
        cache.seen[jti] == exp,
        unexpired(exp, now_unix),
    ensures
        cache.knows(jti, now_unix),
        cache.after(other, other_exp, now_unix).seen.contains_key(jti),
        cache.after(other, other_exp, now_unix).seen[jti] == exp,
{
}

/// A ticket that verifies and was used before is refused as a replay.
pub proof fn replays_are_refused(
    cache: ReplayView,
    claims: RelayTicketClaims,
    sid: int,
    server: Option<Seq<char>>,
    now_unix: u64,
    first: Result<VerifiedRelayTicket, RelayAuthVerifyError>,
    r: Result<VerifiedRelayTicket, RelayAuthVerifyError>,
    after: ReplayView,
)
    requires
        cache.seen.contains_key(claims.jti@),
        cache.seen[claims.jti@] == claims.exp,
        is_ticket(first, granted(Some(claims), sid, server, now_unix)),
        first is Ok,
        used_once(first, r, cache, after, now_unix),
    ensures
        r == Err::<VerifiedRelayTicket, RelayAuthVerifyError>(RelayAuthVerifyError::Replay),
{
}

/// The token that a hello frame carries: its length, then as many bytes of UTF-8, and
/// nothing behind them.
pub open spec fn hello_token(frame: Seq<u8>, len: int) -> Option<Seq<u8>> {
    let n = be16(frame, 9);
    if len >= 11 && 0 < n <= MAX_AUTH_TOKEN_LEN && 11 + n == len && valid_utf8(
        frame.subrange(11, 11 + n),
    ) {
        Some(frame.subrange(11, 11 + n))
    } else {
        None
    }
}

/// Takes the token out of the first `len` bytes of `frame`.
pub fn parse_auth_hello_token<'a>(frame: &'a [u8], len: usize) -> (r: Result<
    &'a str,
    RelayAuthVerifyError,
>)
    requires
        len <= frame@.len(),
    ensures
        match hello_token(frame@, len as int) {
            Some(bytes) => r matches Ok(s) && s.spec_bytes() == bytes,
            None => r matches Err(RelayAuthVerifyError::BadFormat),
        },
{
    if len < SESSION_ID_LEN + 3 {
        return Err(RelayAuthVerifyError::BadFormat);
    }
    let token_len: usize = read_be16(frame, SESSION_ID_LEN + 1) as usize;
    let start: usize = SESSION_ID_LEN + 3;
    let end: usize = start + token_len;
    if token_len == 0 || token_len > MAX_AUTH_TOKEN_LEN || end != len {
        return Err(RelayAuthVerifyError::BadFormat);
    }
    match utf8_text(&frame[start..end]) {
        Some(s) => Ok(s),
        None => Err(RelayAuthVerifyError::BadFormat),
    }
}

/// The frame that answers a hello.
pub open spec fn auth_ack(session_id: Seq<u8>, status: u8) -> Seq<u8> {
    session_id + seq![AUTH_ACK_FRAME_TYPE, status]
}

pub fn auth_ack_frame(session_id: &[u8; 8], status: u8) -> (r: Vec<u8>)
    ensures
        r@ == auth_ack(session_id@, status),
{
    let mut packet: Vec<u8> = Vec::with_capacity(SESSION_ID_LEN + 2);
    packet.extend_from_slice(session_id);
    packet.push(AUTH_ACK_FRAME_TYPE);
    packet.push(status);
    assert(packet@ =~= auth_ack(session_id@, status));
    packet
}

/// The value of a hexadecimal digit.
pub open spec fn hex_digit_value(c: char) -> int {
    if 48 <= c as int <= 57 {
        c as int - 48
    } else {
        c as int - 87
    }
}

/// The number that hexadecimal digits stand for.
pub open spec fn hex_value(s: Seq<char>) -> int
    decreases s.len(),
{
    if s.len() == 0 {
        0
    } else {
        hex_value(s.drop_last()) * 16 + hex_digit_value(s.last())
    }
}

/// Sixteen to the power of `width`.
pub open spec fn hex_range(width: nat) -> int
    decreases width,
{
    if width == 0 {
        1
    } else {
        16 * hex_range((width - 1) as nat)
    }
}

/// A number in hexadecimal digits reads back, and its digits are `0` to `9` and `a` to
/// `f`, as many as asked for.
pub proof fn hex_reads_back(n: nat, width: nat)
    requires
        n < hex_range(width),
    ensures
        hex(n, width).len() == width,
        hex_value(hex(n, width)) == n,
        forall|i: int|
            0 <= i < width ==> 48 <= #[trigger] hex(n, width)[i] as int <= 57 || 97 <= hex(n, width)[i] as int
                <= 102,
    decreases width,
{
    if width > 0 {
        let w = (width - 1) as nat;
        hex_reads_back(n / 16, w);
        let h = hex(n, width);
        assert(h.drop_last() =~= hex(n / 16, w));
        assert(h.last() == hex_digit(n % 16));
        assert forall|i: int| 0 <= i < width implies 48 <= #[trigger] h[i] as int <= 57 || 97
            <= h[i] as int <= 102 by {
            if i < w {
                assert(h[i] == hex(n / 16, w)[i]);
            }
        }
    }
}

/// A session id in text is sixteen digits that stand for its number, so different ids
/// have different texts.
pub proof fn session_texts_tell_sessions_apart(x: u64, y: u64)
    ensures
        hex(x as nat, 16).len() == 16,
        hex_value(hex(x as nat, 16)) == x,
        hex(x as nat, 16) == hex(y as nat, 16) ==> x == y,
{
    reveal_with_fuel(hex_range, 17);
    hex_reads_back(x as nat, 16);
    hex_reads_back(y as nat, 16);
}

/// A hello reads back: the session id, 0xA1, the token's length in two bytes, and the
/// token. Anything shorter or longer is malformed.
pub proof fn hellos_read_back(session_id: Seq<u8>, token: Seq<char>, extra: Seq<u8>)
    requires
        session_id.len() == 8,
        1 <= encode_utf8(token).len() <= 4096,
    ensures
        ({
            let bytes = encode_utf8(token);
            let frame = session_id + seq![
                0xA1u8,
                (bytes.len() / 256) as u8,
                (bytes.len() % 256) as u8,
            ] + bytes;
            &&& hello_token(frame, frame.len() as int) == Some(bytes)
            &&& extra.len() > 0 ==> hello_token(frame + extra, (frame + extra).len() as int) is None
            &&& forall|len: int| len < frame.len() ==> #[trigger] hello_token(frame, len) is None
        }),
{
    let bytes = encode_utf8(token);
    let frame = session_id + seq![0xA1u8, (bytes.len() / 256) as u8, (bytes.len() % 256) as u8] + bytes;
    vstd::utf8::encode_utf8_valid_utf8(token);
    assert(frame.subrange(11, frame.len() as int) =~= bytes);
    assert(be16(frame, 9) == bytes.len());
    assert(be16(frame + extra, 9) == bytes.len());
}

/// An empty token, and one of more than 4096 bytes, is malformed.
pub proof fn tokens_have_a_length(frame: Seq<u8>, len: int)
    requires
        len < 11 || frame[9] == 0 && frame[10] == 0 || frame[9] as int * 256 + frame[10] as int > 4096
            || len != 11 + frame[9] as int * 256 + frame[10] as int,
    ensures
        hello_token(frame, len) is None,
{
}

/// A token is two texts with a dot between them. It opens to the payload if the first
/// text decodes to it, the second to a signature of 64 bytes, and the issuer's key
/// accepts that signature of that payload. If only the last fails, the signature is what
/// is wrong; anything else is badly formatted.
pub proof fn tokens_open_by_their_signature(first: Seq<char>, second: Seq<char>, key: Option<Seq<u8>>)
    requires
        !first.contains('.'),
        encode_utf8(first + seq!['.'] + second).len() <= 4096,
    ensures
        ({
            let r = opened(first + seq!['.'] + second, key);
            let payload = base64_flexible(first);
            let signature = base64_flexible(second);
            if payload is Some && signature is Some && signature->Some_0.len() == 64 && key is Some {
                if ed25519_accepts(key->Some_0, payload->Some_0, signature->Some_0) {
                    r == Ok::<Seq<u8>, RelayAuthVerifyError>(payload->Some_0)
                } else {
                    r == Err::<Seq<u8>, RelayAuthVerifyError>(RelayAuthVerifyError::BadSignature)
                }
            } else {
                r == Err::<Seq<u8>, RelayAuthVerifyError>(RelayAuthVerifyError::BadFormat)
            }
        }),
{
    let token = first + seq!['.'] + second;
    crate::text::the_first_occurrence_is_found(first, '.', second);
    assert(token.subrange(0, first.len() as int) =~= first);
    assert(token.subrange(first.len() as int + 1, token.len() as int) =~= second);
}

/// A token without a dot, an empty one, and one of more than 4096 bytes does not open.
pub proof fn other_tokens_do_not_open(token: Seq<char>, key: Option<Seq<u8>>)
    requires
        !token.contains('.') || token.len() == 0 || encode_utf8(token).len() > 4096,
    ensures
        opened(token, key) == Err::<Seq<u8>, RelayAuthVerifyError>(RelayAuthVerifyError::BadFormat),
{
    if !token.contains('.') {
        crate::text::the_first_occurrence_is_found(token, '.', Seq::empty());
    }
}

/// Base64 is accepted in each of the three forms, and what it decodes to is what that
/// form gives; where more than one fits, the one without padding goes first, and the
/// standard one last.
pub proof fn three_forms_of_base64(text: Seq<char>)
    ensures
        base64_flexible(text) is None <==> base64_url_safe_no_pad(text) is None && base64_url_safe(
            text,
        ) is None && base64_standard(text) is None,
        base64_url_safe_no_pad(text) is Some ==> base64_flexible(text) == base64_url_safe_no_pad(text),
        base64_url_safe_no_pad(text) is None && base64_url_safe(text) is Some ==> base64_flexible(text)
            == base64_url_safe(text),
        base64_url_safe_no_pad(text) is None && base64_url_safe(text) is None ==> base64_flexible(text)
            == base64_standard(text),
{
}

/// Claims are granted if and only if they are of version 1, from the web to the relay,
/// about somebody, for this session and this server, issued at most half a minute from
/// now and expired at most half a minute ago. What is granted is what they say: the
/// user, the ticket's id, when it ends, and whether it is a lease.
pub proof fn claims_are_granted_to_their_session(
    c: RelayTicketClaims,
    sid: u64,
    server: Option<Seq<char>>,
    now_unix: u64,
)
    ensures
        ({
            let r = granted(Some(c), sid as int, server, now_unix);
            &&& r is Ok <==> {
                &&& c.v == 1
                &&& c.iss@ == "swifttunnel-web"@
                &&& c.aud@ == "swifttunnel-relay"@
                &&& c.sub@.len() > 0
                &&& c.sid@ == hex(sid as nat, 16)
                &&& server == Some(c.srv@)
                &&& c.iat <= now_unix + 30
                &&& now_unix <= c.exp + 30
            }
            &&& r is Ok ==> r->Ok_0.user_id == c.sub@ && r->Ok_0.jti == c.jti@ && r->Ok_0.exp == c.exp
                && r->Ok_0.lease == c.lease
            &&& granted(None, sid as int, server, now_unix) is Err
        }),
{
}

/// A refusal says what is wrong: claims that are otherwise in order are refused as of
/// another session, of another server, or as expired, if just that is the case.
pub proof fn refusals_name_what_is_wrong(
    c: RelayTicketClaims,
    sid: u64,
    server: Seq<char>,
    now_unix: u64,
)
    requires
        c.v == 1,
        c.iss@ == "swifttunnel-web"@,
        c.aud@ == "swifttunnel-relay"@,
        c.sub@.len() > 0,
        c.iat <= now_unix + 30,
    ensures
        ({
            let r = granted(Some(c), sid as int, Some(server), now_unix);
            let right_session = c.sid@ == hex(sid as nat, 16);
            &&& !right_session ==> r->Err_0 == RelayAuthVerifyError::SidMismatch
            &&& right_session && c.srv@ != server ==> r->Err_0 == RelayAuthVerifyError::ServerMismatch
            &&& right_session && c.srv@ == server && now_unix > c.exp + 30 ==> r->Err_0
                == RelayAuthVerifyError::Expired
        }),
{
}

/// A ticket is accepted once: after it was shown it is known for as long as it could be
/// shown again, that is until half a minute after its end, and showing it makes no other
/// ticket known or unknown.
pub proof fn tickets_are_accepted_once(
    cache: ReplayView,
    jti: Seq<char>,
    exp: u64,
    now_unix: u64,
    later: u64,
    other: Seq<char>,
)
    ensures
        !cache.knows(jti, now_unix) && later <= exp + 30 ==> cache.after(jti, exp, now_unix).knows(
            jti,
            later,
        ),
        cache.knows(jti, now_unix) ==> cache.after(jti, exp, now_unix).knows(jti, now_unix),
        other != jti && now_unix >= cache.last_prune_unix ==> (cache.after(jti, exp, now_unix).knows(
            other,
            now_unix,
        ) <==> cache.knows(other, now_unix)),
        !cache.seen.contains_key(jti) ==> !cache.knows(jti, now_unix),
        cache.seen.contains_key(jti) && now_unix <= cache.seen[jti] + 30 ==> cache.knows(jti, now_unix),
{
}

/// The answer to a hello is the session id, 0xA2 and the status.
pub proof fn answers_have_ten_bytes(session_id: Seq<u8>, status: u8)
    requires
        session_id.len() == 8,
    ensures
        auth_ack(session_id, status).len() == 10,
        auth_ack(session_id, status).subrange(0, 8) == session_id,
        auth_ack(session_id, status)[8] == 0xA2,
        auth_ack(session_id, status)[9] == status,
{
    assert(auth_ack(session_id, status).subrange(0, 8) =~= session_id);
}

/// The statuses of refusals.
pub proof fn refusals_have_their_numbers()
    ensures
        RelayAuthVerifyError::BadFormat.status() == 1,
        RelayAuthVerifyError::BadSignature.status() == 2,
        RelayAuthVerifyError::Expired.status() == 3,
        RelayAuthVerifyError::SidMismatch.status() == 4,
        RelayAuthVerifyError::ServerMismatch.status() == 5,
        RelayAuthVerifyError::Replay.status() == 7,
        RelayAuthVerifyError::OwnerMismatch.status() == 8,
{
}

/// Tickets are needed unless a setting says `off` or `optional`, in whatever case and with
/// white space around it.
pub proof fn modes_are_asked_for_by_name(raw: Seq<char>)
    ensures
        auth_mode_of(None) == RelayAuthMode::Required,
        auth_mode_of(Some(raw)) == RelayAuthMode::Off <==> lowered(trimmed(raw)) == "off"@,
        auth_mode_of(Some(raw)) == RelayAuthMode::Optional <==> lowered(trimmed(raw)) == "optional"@,
{
    reveal_strlit("optional");
    reveal_strlit("off");
    assert("optional"@.len() != "off"@.len());
}

/// A relay without tickets has to be allowed, by `1` and nothing else, and has no key; any
/// other has a key of 32 bytes and a server id that is not blank, or does not start.
pub proof fn relays_start_safely(
    mode: Option<Seq<char>>,
    allow_insecure: Option<Seq<char>>,
    key_b64: Option<Seq<char>>,
    server_id: Option<Seq<char>>,
)
    ensures
        ({
            let r = auth_config_of(mode, allow_insecure, key_b64, server_id);
            let off = auth_mode_of(mode) == RelayAuthMode::Off;
            &&& off ==> (r is Ok <==> allow_insecure == Some("1"@))
            &&& off && r is Err ==> r->Err_0 == AuthConfigError::OpenRelay
            &&& off && r is Ok ==> r->Ok_0.key is None && r->Ok_0.server is None
            &&& !off ==> (r is Ok <==> {
                &&& key_b64 is Some
                &&& base64_flexible(trimmed(key_b64->Some_0)) is Some
                &&& base64_flexible(trimmed(key_b64->Some_0))->Some_0.len() == 32
                &&& server_id is Some
                &&& trimmed(server_id->Some_0).len() > 0
            })
            &&& r is Ok ==> r->Ok_0.mode == auth_mode_of(mode)
            &&& r is Ok && !off ==> r->Ok_0.key == base64_flexible(trimmed(key_b64->Some_0))
                && r->Ok_0.server == server_id
            &&& !off && key_b64 is None ==> r->Err_0 == AuthConfigError::MissingKey
            &&& !off && key_b64 is Some && base64_flexible(trimmed(key_b64->Some_0)) is None ==> r->Err_0
                == AuthConfigError::BadKeyEncoding
        }),
{
}

/// What is shown of a ticket is what it holds.
pub proof fn tickets_show_their_fields(t: VerifiedRelayTicket)
    ensures
        t@.user_id == t.user_id@,
        t@.jti == t.jti@,
        t@.exp == t.exp,
        t@.lease == t.lease,
{
}

/// A ticket that verifies holds what its claims say, and these are what its payload was
/// read as, which the issuer signed: they are for this session and this server.
pub proof fn tickets_hold_what_was_signed<F: Fn(&[u8]) -> Option<RelayTicketClaims>>(
    r: Result<VerifiedRelayTicket, RelayAuthVerifyError>,
    token: Seq<char>,
    sid: u64,
    auth: RelayAuthConfig,
    now_unix: u64,
    decode: F,
)
    requires
        verifies(r, token, sid as int, auth, now_unix, decode),
    ensures
        opened(token, auth.key()) is Err ==> r is Err && r->Err_0 == opened(token, auth.key())->Err_0,
        r is Ok ==> {
            &&& opened(token, auth.key()) is Ok
            &&& exists|bytes: &[u8], c: RelayTicketClaims| #[trigger]
                call_ensures(decode, (bytes,), Some(c)) && bytes@ == opened(token, auth.key())->Ok_0 && {
                    let t = r->Ok_0;
                    &&& t.user_id@ == c.sub@ && t.jti@ == c.jti@ && t.exp == c.exp && t.lease == c.lease
                    &&& c.sid@ == hex(sid as nat, 16) && Some(c.srv@) == auth.server()
                    &&& c.v == 1 && c.iat <= now_unix + 30 && now_unix <= c.exp + 30
                }
        },
{
    if r is Ok {
        let payload = opened(token, auth.key())->Ok_0;
        let (bytes, claims) = choose|bytes: &[u8], claims: Option<RelayTicketClaims>|
            bytes@ == payload && #[trigger] call_ensures(decode, (bytes,), claims) && is_ticket(
                r,
                granted(claims, sid as int, auth.server(), now_unix),
            );
        let c = claims->Some_0;
        claims_are_granted_to_their_session(c, sid, auth.server(), now_unix);
        assert(claims == Some(c));
        assert(call_ensures(decode, (bytes,), Some(c)));
    }
}

/// A ticket that verifies is accepted if it is not known, and is known from then on; one
/// that is known is a replay. One that does not verify is refused as it was, and is not
/// remembered.
pub proof fn shown_tickets_are_used_up(
    first: Result<VerifiedRelayTicket, RelayAuthVerifyError>,
    r: Result<VerifiedRelayTicket, RelayAuthVerifyError>,
    before: ReplayView,
    after: ReplayView,
    now_unix: u64,
    later: u64,
)
    requires
        used_once(first, r, before, after, now_unix),
    ensures
        first is Err ==> r == first && after == before,
        first is Ok ==> {
            let t = first->Ok_0;
            let known = before.knows(t.jti@, now_unix);
            &&& known ==> r is Err && r->Err_0 == RelayAuthVerifyError::Replay
            &&& !known ==> r == first
            &&& !known && later <= t.exp + 30 ==> after.knows(t.jti@, later)
            &&& after.seen.contains_key(t.jti@)
        },
{
    if first is Ok {
        let t = first->Ok_0;
        tickets_are_accepted_once(before, t.jti@, t.exp, now_unix, later, t.jti@);
    }
}

/// Tickets are looked through no more than twice a minute, and those that could not be
/// shown again, half a minute after their end, are then forgotten; no other is.
pub proof fn expired_tickets_are_forgotten(cache: ReplayView, now_unix: u64, jti: Seq<char>)
    ensures
        ({
            let p = cache.pruned(now_unix);
            let due = now_unix >= cache.last_prune_unix + 30;
            &&& due ==> p.last_prune_unix == now_unix && (p.seen.contains_key(jti)
                <==> cache.seen.contains_key(jti) && now_unix <= cache.seen[jti] + 30)
            &&& !due ==> p == cache
            &&& p.seen.contains_key(jti) ==> p.seen[jti] == cache.seen[jti]
        }),
{
}

/// A mode, and the state of a session, is told by its name.
pub proof fn names_tell_modes_apart(m: RelayAuthMode, n: RelayAuthMode)
    ensures
        auth_mode_of(Some(m.name())) == m,
        m.name() == n.name() ==> m == n,
        SessionAuthState::Legacy.name() != SessionAuthState::Authenticated.name(),
{
    reveal_strlit("off");
    reveal_strlit("optional");
    reveal_strlit("required");
    reveal_strlit("legacy");
    reveal_strlit("authenticated");
    lemma_mode_name(m);
    lemma_mode_name(n);
    assert("legacy"@.len() != "authenticated"@.len());
}

proof fn lemma_mode_name(m: RelayAuthMode)
    ensures
        auth_mode_of(Some(m.name())) == m,
{
    reveal_strlit("off");
    reveal_strlit("optional");
    reveal_strlit("required");
    let e = Seq::<char>::empty();
    let n = m.name();
    assert(n.len() > 0 && 97 <= n[0] as u32 <= 122 && 97 <= n.last() as u32 <= 122);
    crate::text::white_space_in_ascii(n[0]);
    crate::text::white_space_in_ascii(n.last());
    crate::text::trimming_takes_off_both_ends(e, n, e);
    assert(e + n + e =~= n);
    assert(lowered(n) =~= n);
    assert("off"@.len() == 3 && "optional"@.len() == 8 && "required"@.len() == 8);
    assert("optional"@[0] == 'o' && "required"@[0] == 'r');
}

} // verus!
