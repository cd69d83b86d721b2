use base64::engine::general_purpose::{
    STANDARD as BASE64_STANDARD, URL_SAFE as BASE64_URL_SAFE,
    URL_SAFE_NO_PAD as BASE64_URL_SAFE_NO_PAD,
};
use base64::Engine;
use ring::signature::{Ed25519KeyPair, KeyPair};
use serde_json::{Map as JsonObject, Value};
use swifttunnel_relay::auth::{
    auth_ack_frame, check_relay_ticket_claims, decode_base64_flexible, open_relay_ticket,
    parse_auth_hello_token, session_id_text, verify_relay_ticket, verify_relay_ticket_once,
    AuthConfigError, RelayAuthConfig, RelayAuthMode, RelayAuthVerifyError, RelayTicketClaims,
    RelayTicketReplayCache, SessionAuthState, AUTH_ACK_BAD_FORMAT, AUTH_ACK_BAD_SIGNATURE,
    AUTH_ACK_EXPIRED, AUTH_ACK_FRAME_TYPE, AUTH_ACK_REPLAY, AUTH_ACK_SERVER_MISMATCH,
    AUTH_ACK_SID_MISMATCH, AUTH_CLOCK_SKEW_SECS, AUTH_HELLO_FRAME_TYPE, MAX_AUTH_TOKEN_LEN,
};
use swifttunnel_relay::limits::SESSION_ID_LEN;

fn text(value: &Value, name: &str) -> Option<String> {
    Some(value.get(name)?.as_str()?.to_string())
}

fn decode_claims(bytes: &[u8]) -> Option<RelayTicketClaims> {
    let value: Value = serde_json::from_slice(bytes).ok()?;
    Some(RelayTicketClaims {
        v: u8::try_from(value.get("v")?.as_u64()?).ok()?,
        iss: text(&value, "iss")?,
        aud: text(&value, "aud")?,
        sub: text(&value, "sub")?,
        sid: text(&value, "sid")?,
        srv: text(&value, "srv")?,
        iat: value.get("iat")?.as_u64()?,
        exp: value.get("exp")?.as_u64()?,
        jti: text(&value, "jti")?,
        lease: match value.get("lease") {
            Some(lease) => lease.as_bool()?,
            None => false,
        },
    })
}

#[allow(clippy::too_many_arguments)]
fn claims_json(
    v: u64,
    iss: &str,
    aud: &str,
    sub: &str,
    sid: &str,
    srv: &str,
    iat: u64,
    exp: u64,
    jti: &str,
) -> Value {
    let mut object = JsonObject::new();
    object.insert("v".to_string(), Value::from(v));
    object.insert("iss".to_string(), Value::from(iss));
    object.insert("aud".to_string(), Value::from(aud));
    object.insert("sub".to_string(), Value::from(sub));
    object.insert("sid".to_string(), Value::from(sid));
    object.insert("srv".to_string(), Value::from(srv));
    object.insert("iat".to_string(), Value::from(iat));
    object.insert("exp".to_string(), Value::from(exp));
    object.insert("jti".to_string(), Value::from(jti));
    Value::Object(object)
}

fn test_auth_materials() -> (Ed25519KeyPair, RelayAuthConfig) {
    let seed = [7u8; 32];
    let key_pair = Ed25519KeyPair::from_seed_unchecked(&seed).expect("seed must be valid");
    let auth_config = RelayAuthConfig {
        mode: RelayAuthMode::Required,
        public_key: Some(key_pair.public_key().as_ref().to_vec()),
        server_id: Some("us-east-nj".to_string()),
    };
    (key_pair, auth_config)
}

fn make_custom_ticket_token(key_pair: &Ed25519KeyPair, payload_json: Value) -> String {
    let payload_bytes = serde_json::to_vec(&payload_json).unwrap();
    let signature = key_pair.sign(&payload_bytes);
    format!(
        "{}.{}",
        BASE64_URL_SAFE_NO_PAD.encode(&payload_bytes),
        BASE64_URL_SAFE_NO_PAD.encode(signature.as_ref())
    )
}

fn make_ticket_token(
    key_pair: &Ed25519KeyPair,
    sid: &str,
    server: &str,
    now: u64,
    exp: u64,
) -> String {
    let payload = claims_json(
        1,
        "swifttunnel-web",
        "swifttunnel-relay",
        "11111111-1111-1111-1111-111111111111",
        sid,
        server,
        now,
        exp,
        "22222222-2222-2222-2222-222222222222",
    );
    make_custom_ticket_token(key_pair, payload)
}

#[test]
fn test_parse_auth_hello_token_valid_and_malformed() {
    let token = "abc.def";
    let mut frame = Vec::with_capacity(SESSION_ID_LEN + 3 + token.len());
    frame.extend_from_slice(&[0u8; SESSION_ID_LEN]);
    frame.push(AUTH_HELLO_FRAME_TYPE);
    frame.extend_from_slice(&(token.len() as u16).to_be_bytes());
    frame.extend_from_slice(token.as_bytes());

    let parsed = parse_auth_hello_token(&frame, frame.len()).expect("frame should parse");
    assert_eq!(parsed, token);

    let mut malformed = frame.clone();
    malformed[SESSION_ID_LEN + 1] = 0;
    malformed[SESSION_ID_LEN + 2] = (token.len() as u8).saturating_add(1);
    assert!(matches!(
        parse_auth_hello_token(&malformed, malformed.len()),
        Err(RelayAuthVerifyError::BadFormat)
    ));
}

#[test]
fn test_verify_relay_ticket_valid() {
    let (key_pair, auth_config) = test_auth_materials();
    let session_id = 0x0123_4567_89ab_cdef_u64.to_be_bytes();
    let now = 1_739_790_000_u64;
    let sid = format!("{:016x}", u64::from_be_bytes(session_id));
    let token = make_ticket_token(&key_pair, &sid, "us-east-nj", now, now + 300);

    let ticket =
        verify_relay_ticket(&token, session_id, &auth_config, now, decode_claims).expect("valid token");
    assert_eq!(ticket.user_id, "11111111-1111-1111-1111-111111111111");
    assert_eq!(ticket.jti, "22222222-2222-2222-2222-222222222222");
}

#[test]
fn test_verify_relay_ticket_once_rejects_replay() {
    let (key_pair, auth_config) = test_auth_materials();
    let session_id = 0x0123_4567_89ab_cdef_u64.to_be_bytes();
    let now = 1_739_790_000_u64;
    let sid = format!("{:016x}", u64::from_be_bytes(session_id));
    let token = make_ticket_token(&key_pair, &sid, "us-east-nj", now, now + 300);
    let mut replay_cache = RelayTicketReplayCache::new();

    assert!(
        verify_relay_ticket_once(&token, session_id, &auth_config, now, &mut replay_cache, decode_claims).is_ok()
    );
    let replay =
        verify_relay_ticket_once(&token, session_id, &auth_config, now + 1, &mut replay_cache, decode_claims);
    assert!(matches!(replay, Err(RelayAuthVerifyError::Replay)));
}

#[test]
fn test_ticket_replay_cache_expires_old_jti() {
    let mut cache = RelayTicketReplayCache::new();

    assert!(cache.accept_once("jti-a", 100, 90));
    assert!(!cache.accept_once("jti-a", 100, 91));
    assert!(cache.accept_once("jti-a", 200, 131));
}

#[test]
fn test_ticket_replay_cache_prunes_on_interval() {
    let mut cache = RelayTicketReplayCache::new();

    assert!(cache.accept_once("jti-stale", 50, 90));
    assert!(!cache.accept_once("jti-stale", 50, 100));
    assert!(cache.accept_once("jti-stale", 200, 121));
}

#[test]
fn test_verify_relay_ticket_sid_mismatch() {
    let (key_pair, auth_config) = test_auth_materials();
    let session_id = 0x0123_4567_89ab_cdef_u64.to_be_bytes();
    let now = 1_739_790_000_u64;
    let token = make_ticket_token(&key_pair, "ffffffffffffffff", "us-east-nj", now, now + 300);

    let result = verify_relay_ticket(&token, session_id, &auth_config, now, decode_claims);
    assert!(matches!(result, Err(RelayAuthVerifyError::SidMismatch)));
}

#[test]
fn test_verify_relay_ticket_server_mismatch() {
    let (key_pair, auth_config) = test_auth_materials();
    let session_id = 0x0123_4567_89ab_cdef_u64.to_be_bytes();
    let now = 1_739_790_000_u64;
    let sid = format!("{:016x}", u64::from_be_bytes(session_id));
    let token = make_ticket_token(&key_pair, &sid, "tokyo-02", now, now + 300);

    let result = verify_relay_ticket(&token, session_id, &auth_config, now, decode_claims);
    assert!(matches!(result, Err(RelayAuthVerifyError::ServerMismatch)));
}

#[test]
fn test_verify_relay_ticket_expired() {
    let (key_pair, auth_config) = test_auth_materials();
    let session_id = 0x0123_4567_89ab_cdef_u64.to_be_bytes();
    let now = 1_739_790_000_u64;
    let sid = format!("{:016x}", u64::from_be_bytes(session_id));
    let token = make_ticket_token(&key_pair, &sid, "us-east-nj", now - 600, now - 200);

    let result = verify_relay_ticket(&token, session_id, &auth_config, now, decode_claims);
    assert!(matches!(result, Err(RelayAuthVerifyError::Expired)));
}

#[test]
fn test_verify_relay_ticket_iat_in_future_is_bad_format() {
    let (key_pair, auth_config) = test_auth_materials();
    let session_id = 0x0123_4567_89ab_cdef_u64.to_be_bytes();
    let now = 1_739_790_000_u64;
    let sid = format!("{:016x}", u64::from_be_bytes(session_id));
    let future_iat = now + AUTH_CLOCK_SKEW_SECS + 1;
    let token = make_ticket_token(&key_pair, &sid, "us-east-nj", future_iat, future_iat + 300);

    let result = verify_relay_ticket(&token, session_id, &auth_config, now, decode_claims);
    assert!(matches!(result, Err(RelayAuthVerifyError::BadFormat)));
}

#[test]
fn test_verify_relay_ticket_bad_signature() {
    let (key_pair, auth_config) = test_auth_materials();
    let session_id = 0x0123_4567_89ab_cdef_u64.to_be_bytes();
    let now = 1_739_790_000_u64;
    let sid = format!("{:016x}", u64::from_be_bytes(session_id));
    let token = make_ticket_token(&key_pair, &sid, "us-east-nj", now, now + 300);

    let (payload, signature) = token
        .split_once('.')
        .expect("token should contain separator");
    let mut sig_bytes = BASE64_URL_SAFE_NO_PAD
        .decode(signature)
        .expect("signature should decode");
    sig_bytes[0] ^= 0xAA;
    let tampered = format!("{}.{}", payload, BASE64_URL_SAFE_NO_PAD.encode(sig_bytes));

    let result = verify_relay_ticket(&tampered, session_id, &auth_config, now, decode_claims);
    assert!(matches!(result, Err(RelayAuthVerifyError::BadSignature)));
}

#[test]
fn test_from_env_required() {
    assert_eq!(
        RelayAuthMode::from_env(Some("required".into())),
        RelayAuthMode::Required
    );
}

#[test]
fn test_from_env_optional() {
    assert_eq!(
        RelayAuthMode::from_env(Some("optional".into())),
        RelayAuthMode::Optional
    );
}

#[test]
fn test_from_env_off() {
    assert_eq!(
        RelayAuthMode::from_env(Some("off".into())),
        RelayAuthMode::Off
    );
}

#[test]
fn test_from_env_none() {
    assert_eq!(RelayAuthMode::from_env(None), RelayAuthMode::Required);
}

#[test]
fn test_from_env_whitespace_trimmed() {
    assert_eq!(
        RelayAuthMode::from_env(Some(" required ".into())),
        RelayAuthMode::Required
    );
}

#[test]
fn test_from_env_case_insensitive() {
    assert_eq!(
        RelayAuthMode::from_env(Some("REQUIRED".into())),
        RelayAuthMode::Required
    );
}

#[test]
fn test_as_str_off() {
    assert_eq!(RelayAuthMode::Off.as_str(), "off");
}

#[test]
fn test_as_str_optional() {
    assert_eq!(RelayAuthMode::Optional.as_str(), "optional");
}

#[test]
fn test_as_str_required() {
    assert_eq!(RelayAuthMode::Required.as_str(), "required");
}

#[test]
fn test_requires_auth_off() {
    assert!(!RelayAuthMode::Off.requires_auth());
}

#[test]
fn test_requires_auth_optional() {
    assert!(RelayAuthMode::Optional.requires_auth());
}

#[test]
fn test_requires_auth_required() {
    assert!(RelayAuthMode::Required.requires_auth());
}

#[test]
fn test_session_auth_state_legacy() {
    assert_eq!(SessionAuthState::Legacy.as_str(), "legacy");
}

#[test]
fn test_session_auth_state_authenticated() {
    assert_eq!(SessionAuthState::Authenticated.as_str(), "authenticated");
}

#[test]
fn test_ack_status_bad_format() {
    assert_eq!(
        RelayAuthVerifyError::BadFormat.ack_status(),
        AUTH_ACK_BAD_FORMAT
    );
}

#[test]
fn test_ack_status_bad_signature() {
    assert_eq!(
        RelayAuthVerifyError::BadSignature.ack_status(),
        AUTH_ACK_BAD_SIGNATURE
    );
}

#[test]
fn test_ack_status_expired() {
    assert_eq!(RelayAuthVerifyError::Expired.ack_status(), AUTH_ACK_EXPIRED);
}

#[test]
fn test_ack_status_sid_mismatch() {
    assert_eq!(
        RelayAuthVerifyError::SidMismatch.ack_status(),
        AUTH_ACK_SID_MISMATCH
    );
}

#[test]
fn test_ack_status_server_mismatch() {
    assert_eq!(
        RelayAuthVerifyError::ServerMismatch.ack_status(),
        AUTH_ACK_SERVER_MISMATCH
    );
}

#[test]
fn test_ack_status_replay() {
    assert_eq!(RelayAuthVerifyError::Replay.ack_status(), AUTH_ACK_REPLAY);
    assert_ne!(AUTH_ACK_REPLAY, AUTH_ACK_BAD_SIGNATURE);
}

#[test]
fn test_decode_base64_url_safe_no_pad() {
    let input = BASE64_URL_SAFE_NO_PAD.encode(b"hello");
    let result = decode_base64_flexible(&input);
    assert_eq!(result, Some(b"hello".to_vec()));
}

#[test]
fn test_decode_base64_url_safe_padded() {
    let input = BASE64_URL_SAFE.encode(b"hello");
    let result = decode_base64_flexible(&input);
    assert_eq!(result, Some(b"hello".to_vec()));
}

#[test]
fn test_decode_base64_standard() {
    let input = BASE64_STANDARD.encode(b"hello");
    let result = decode_base64_flexible(&input);
    assert_eq!(result, Some(b"hello".to_vec()));
}

#[test]
fn test_decode_base64_invalid() {
    let result = decode_base64_flexible("!!!not-valid-base64!!!");
    assert_eq!(result, None);
}

#[test]
fn test_decode_base64_empty() {
    let result = decode_base64_flexible("");
    assert_eq!(result, Some(vec![]));
}

#[test]
fn test_verify_ticket_empty_token() {
    let (_, auth_config) = test_auth_materials();
    let session_id = [0u8; SESSION_ID_LEN];
    let result = verify_relay_ticket("", session_id, &auth_config, 1_739_790_000, decode_claims);
    assert!(matches!(result, Err(RelayAuthVerifyError::BadFormat)));
}

#[test]
fn test_verify_ticket_too_long() {
    let (_, auth_config) = test_auth_materials();
    let session_id = [0u8; SESSION_ID_LEN];
    let long_token = "a".repeat(MAX_AUTH_TOKEN_LEN + 1);
    let result = verify_relay_ticket(&long_token, session_id, &auth_config, 1_739_790_000, decode_claims);
    assert!(matches!(result, Err(RelayAuthVerifyError::BadFormat)));
}

#[test]
fn test_verify_ticket_no_dot_separator() {
    let (_, auth_config) = test_auth_materials();
    let session_id = [0u8; SESSION_ID_LEN];
    let result = verify_relay_ticket("nodothere", session_id, &auth_config, 1_739_790_000, decode_claims);
    assert!(matches!(result, Err(RelayAuthVerifyError::BadFormat)));
}

#[test]
fn test_verify_ticket_bad_base64_payload() {
    let (_, auth_config) = test_auth_materials();
    let session_id = [0u8; SESSION_ID_LEN];
    let sig_b64 = BASE64_URL_SAFE_NO_PAD.encode(&[0u8; 64]);
    let token = format!("!!!invalid!!!.{}", sig_b64);
    let result = verify_relay_ticket(&token, session_id, &auth_config, 1_739_790_000, decode_claims);
    assert!(matches!(result, Err(RelayAuthVerifyError::BadFormat)));
}

#[test]
fn test_verify_ticket_bad_base64_signature() {
    let (_, auth_config) = test_auth_materials();
    let session_id = [0u8; SESSION_ID_LEN];
    let payload_b64 = BASE64_URL_SAFE_NO_PAD.encode(b"{}");
    let token = format!("{}.!!!invalid!!!", payload_b64);
    let result = verify_relay_ticket(&token, session_id, &auth_config, 1_739_790_000, decode_claims);
    assert!(matches!(result, Err(RelayAuthVerifyError::BadFormat)));
}

#[test]
fn test_verify_ticket_signature_wrong_length() {
    let (_, auth_config) = test_auth_materials();
    let session_id = [0u8; SESSION_ID_LEN];
    let payload_b64 = BASE64_URL_SAFE_NO_PAD.encode(b"{}");
    let sig_b64 = BASE64_URL_SAFE_NO_PAD.encode(&[0u8; 32]); // 32 != 64
    let token = format!("{}.{}", payload_b64, sig_b64);
    let result = verify_relay_ticket(&token, session_id, &auth_config, 1_739_790_000, decode_claims);
    assert!(matches!(result, Err(RelayAuthVerifyError::BadFormat)));
}

#[test]
fn test_verify_ticket_no_public_key() {
    let auth_config = RelayAuthConfig {
        mode: RelayAuthMode::Required,
        public_key: None,
        server_id: Some("us-east-nj".to_string()),
    };
    let session_id = [0u8; SESSION_ID_LEN];
    let payload_b64 = BASE64_URL_SAFE_NO_PAD.encode(b"{}");
    let sig_b64 = BASE64_URL_SAFE_NO_PAD.encode(&[0u8; 64]);
    let token = format!("{}.{}", payload_b64, sig_b64);
    let result = verify_relay_ticket(&token, session_id, &auth_config, 1_739_790_000, decode_claims);
    assert!(matches!(result, Err(RelayAuthVerifyError::BadFormat)));
}

#[test]
fn test_verify_ticket_wrong_version() {
    let (key_pair, auth_config) = test_auth_materials();
    let session_id = [0u8; SESSION_ID_LEN];
    let sid = format!("{:016x}", u64::from_be_bytes(session_id));
    let now = 1_739_790_000_u64;
    let token = make_custom_ticket_token(
        &key_pair,
        claims_json(2, "swifttunnel-web", "swifttunnel-relay", "user-1", &sid, "us-east-nj", now, now + 300, "jti-1"),
    );
    let result = verify_relay_ticket(&token, session_id, &auth_config, now, decode_claims);
    assert!(matches!(result, Err(RelayAuthVerifyError::BadFormat)));
}

#[test]
fn test_verify_ticket_wrong_issuer() {
    let (key_pair, auth_config) = test_auth_materials();
    let session_id = [0u8; SESSION_ID_LEN];
    let sid = format!("{:016x}", u64::from_be_bytes(session_id));
    let now = 1_739_790_000_u64;
    let token = make_custom_ticket_token(
        &key_pair,
        claims_json(1, "wrong-issuer", "swifttunnel-relay", "user-1", &sid, "us-east-nj", now, now + 300, "jti-1"),
    );
    let result = verify_relay_ticket(&token, session_id, &auth_config, now, decode_claims);
    assert!(matches!(result, Err(RelayAuthVerifyError::BadFormat)));
}

#[test]
fn test_verify_ticket_wrong_audience() {
    let (key_pair, auth_config) = test_auth_materials();
    let session_id = [0u8; SESSION_ID_LEN];
    let sid = format!("{:016x}", u64::from_be_bytes(session_id));
    let now = 1_739_790_000_u64;
    let token = make_custom_ticket_token(
        &key_pair,
        claims_json(1, "swifttunnel-web", "wrong-audience", "user-1", &sid, "us-east-nj", now, now + 300, "jti-1"),
    );
    let result = verify_relay_ticket(&token, session_id, &auth_config, now, decode_claims);
    assert!(matches!(result, Err(RelayAuthVerifyError::BadFormat)));
}

#[test]
fn test_verify_ticket_empty_sub() {
    let (key_pair, auth_config) = test_auth_materials();
    let session_id = [0u8; SESSION_ID_LEN];
    let sid = format!("{:016x}", u64::from_be_bytes(session_id));
    let now = 1_739_790_000_u64;
    let token = make_custom_ticket_token(
        &key_pair,
        claims_json(1, "swifttunnel-web", "swifttunnel-relay", "", &sid, "us-east-nj", now, now + 300, "jti-1"),
    );
    let result = verify_relay_ticket(&token, session_id, &auth_config, now, decode_claims);
    assert!(matches!(result, Err(RelayAuthVerifyError::BadFormat)));
}

#[test]
fn test_verify_ticket_iat_at_exact_clock_skew_boundary_passes() {
    let (key_pair, auth_config) = test_auth_materials();
    let session_id = 0x0123_4567_89ab_cdef_u64.to_be_bytes();
    let now = 1_739_790_000_u64;
    let sid = format!("{:016x}", u64::from_be_bytes(session_id));
    // iat = now + AUTH_CLOCK_SKEW_SECS exactly should pass (not strictly greater)
    let iat = now + AUTH_CLOCK_SKEW_SECS;
    let token = make_ticket_token(&key_pair, &sid, "us-east-nj", iat, iat + 300);
    let result = verify_relay_ticket(&token, session_id, &auth_config, now, decode_claims);
    assert!(
        result.is_ok(),
        "iat at exact clock skew boundary should pass"
    );
}

#[test]
fn test_verify_ticket_exp_at_exact_clock_skew_boundary_passes() {
    let (key_pair, auth_config) = test_auth_materials();
    let session_id = 0x0123_4567_89ab_cdef_u64.to_be_bytes();
    let sid = format!("{:016x}", u64::from_be_bytes(session_id));
    let iat = 1_739_789_000_u64;
    let exp = 1_739_789_500_u64;
    // now = exp + AUTH_CLOCK_SKEW_SECS exactly should pass
    let now = exp + AUTH_CLOCK_SKEW_SECS;
    let token = make_ticket_token(&key_pair, &sid, "us-east-nj", iat, exp);
    let result = verify_relay_ticket(&token, session_id, &auth_config, now, decode_claims);
    assert!(
        result.is_ok(),
        "exp at exact clock skew boundary should pass"
    );
}

#[test]
fn test_parse_auth_hello_frame_too_short() {
    // Fewer than SESSION_ID_LEN + 3 = 11 bytes
    let frame = [0u8; 10];
    let result = parse_auth_hello_token(&frame, frame.len());
    assert!(matches!(result, Err(RelayAuthVerifyError::BadFormat)));
}

#[test]
fn test_parse_auth_hello_token_len_zero() {
    let mut frame = vec![0u8; SESSION_ID_LEN + 3];
    frame[SESSION_ID_LEN] = AUTH_HELLO_FRAME_TYPE;
    // token_len = 0
    frame[SESSION_ID_LEN + 1] = 0;
    frame[SESSION_ID_LEN + 2] = 0;
    let result = parse_auth_hello_token(&frame, frame.len());
    assert!(matches!(result, Err(RelayAuthVerifyError::BadFormat)));
}

#[test]
fn test_parse_auth_hello_token_len_exceeds_max() {
    let token_len = (MAX_AUTH_TOKEN_LEN + 1) as u16;
    let mut frame = vec![0u8; SESSION_ID_LEN + 3 + MAX_AUTH_TOKEN_LEN + 1];
    frame[SESSION_ID_LEN] = AUTH_HELLO_FRAME_TYPE;
    frame[SESSION_ID_LEN + 1] = (token_len >> 8) as u8;
    frame[SESSION_ID_LEN + 2] = (token_len & 0xFF) as u8;
    let result = parse_auth_hello_token(&frame, frame.len());
    assert!(matches!(result, Err(RelayAuthVerifyError::BadFormat)));
}

#[test]
fn test_parse_auth_hello_payload_end_exceeds_frame_len() {
    let token = "abc";
    // Declare token_len as 10 but only provide 3 bytes
    let mut frame = vec![0u8; SESSION_ID_LEN + 3 + token.len()];
    frame[SESSION_ID_LEN] = AUTH_HELLO_FRAME_TYPE;
    frame[SESSION_ID_LEN + 1] = 0;
    frame[SESSION_ID_LEN + 2] = 10; // says 10 but frame only has 3 token bytes
    frame[SESSION_ID_LEN + 3..].copy_from_slice(token.as_bytes());
    let result = parse_auth_hello_token(&frame, frame.len());
    assert!(matches!(result, Err(RelayAuthVerifyError::BadFormat)));
}

#[test]
fn test_parse_auth_hello_extra_trailing_bytes() {
    let token = "abc";
    // payload_end != len because we add extra trailing bytes
    let mut frame = vec![0u8; SESSION_ID_LEN + 3 + token.len() + 5];
    frame[SESSION_ID_LEN] = AUTH_HELLO_FRAME_TYPE;
    frame[SESSION_ID_LEN + 1] = 0;
    frame[SESSION_ID_LEN + 2] = token.len() as u8;
    frame[SESSION_ID_LEN + 3..SESSION_ID_LEN + 3 + token.len()]
        .copy_from_slice(token.as_bytes());
    let result = parse_auth_hello_token(&frame, frame.len());
    assert!(matches!(result, Err(RelayAuthVerifyError::BadFormat)));
}

#[test]
fn test_parse_auth_hello_invalid_utf8() {
    let invalid_bytes: &[u8] = &[0xFF, 0xFE, 0xFD];
    let token_len = invalid_bytes.len() as u16;
    let mut frame = vec![0u8; SESSION_ID_LEN + 3 + invalid_bytes.len()];
    frame[SESSION_ID_LEN] = AUTH_HELLO_FRAME_TYPE;
    frame[SESSION_ID_LEN + 1] = (token_len >> 8) as u8;
    frame[SESSION_ID_LEN + 2] = (token_len & 0xFF) as u8;
    frame[SESSION_ID_LEN + 3..].copy_from_slice(invalid_bytes);
    let result = parse_auth_hello_token(&frame, frame.len());
    assert!(matches!(result, Err(RelayAuthVerifyError::BadFormat)));
}

fn claims(sid: &str) -> RelayTicketClaims {
    RelayTicketClaims {
        v: 1,
        iss: "swifttunnel-web".to_string(),
        aud: "swifttunnel-relay".to_string(),
        sub: "owner".to_string(),
        sid: sid.to_string(),
        srv: "us-east-nj".to_string(),
        iat: 1000,
        exp: 2000,
        jti: "ticket".to_string(),
        lease: true,
    }
}

#[test]
fn opened_tickets_give_back_the_signed_payload() {
    let (key_pair, auth_config) = test_auth_materials();
    let payload = b"anything at all";
    let token = format!(
        "{}.{}",
        BASE64_URL_SAFE_NO_PAD.encode(payload),
        BASE64_URL_SAFE_NO_PAD.encode(key_pair.sign(payload).as_ref())
    );
    assert_eq!(open_relay_ticket(&token, &auth_config).ok(), Some(payload.to_vec()));
    // The same signature does not cover another payload.
    let other = format!(
        "{}.{}",
        BASE64_URL_SAFE_NO_PAD.encode(b"anything else"),
        BASE64_URL_SAFE_NO_PAD.encode(key_pair.sign(payload).as_ref())
    );
    assert!(matches!(
        open_relay_ticket(&other, &auth_config),
        Err(RelayAuthVerifyError::BadSignature)
    ));
    // Nor does it verify under another key.
    let stranger = Ed25519KeyPair::from_seed_unchecked(&[8u8; 32]).unwrap();
    let foreign = RelayAuthConfig {
        mode: RelayAuthMode::Required,
        public_key: Some(stranger.public_key().as_ref().to_vec()),
        server_id: Some("us-east-nj".to_string()),
    };
    assert!(matches!(
        open_relay_ticket(&token, &foreign),
        Err(RelayAuthVerifyError::BadSignature)
    ));
    // A signed payload that holds no claims is no ticket.
    assert!(matches!(
        verify_relay_ticket(&token, [0; 8], &auth_config, 1500, decode_claims),
        Err(RelayAuthVerifyError::BadFormat)
    ));
}

#[test]
fn each_claim_is_checked() {
    let (_, auth) = test_auth_materials();
    let id = 5u64.to_be_bytes();
    let sid = "0000000000000005";
    let good = check_relay_ticket_claims(Some(claims(sid)), id, &auth, 1500).ok().unwrap();
    assert_eq!(good.user_id, "owner");
    assert_eq!(good.jti, "ticket");
    assert_eq!(good.exp, 2000);
    assert!(good.lease);
    let refused = |change: fn(&mut RelayTicketClaims), now: u64| {
        let mut c = claims("0000000000000005");
        change(&mut c);
        check_relay_ticket_claims(Some(c), 5u64.to_be_bytes(), &test_auth_materials().1, now).err()
    };
    assert_eq!(refused(|_| {}, 2030), None);
    assert_eq!(refused(|_| {}, 2031), Some(RelayAuthVerifyError::Expired));
    assert_eq!(refused(|_| {}, 969), Some(RelayAuthVerifyError::BadFormat));
    assert_eq!(refused(|c| c.jti.clear(), 1500), None);
    assert_eq!(refused(|c| c.sub.clear(), 1500), Some(RelayAuthVerifyError::BadFormat));
    assert_eq!(
        refused(|c| c.sid = "0000000000000006".to_string(), 1500),
        Some(RelayAuthVerifyError::SidMismatch)
    );
    assert_eq!(
        refused(|c| c.srv = "elsewhere".to_string(), 1500),
        Some(RelayAuthVerifyError::ServerMismatch)
    );
    assert_eq!(
        check_relay_ticket_claims(None, id, &auth, 1500).err(),
        Some(RelayAuthVerifyError::BadFormat)
    );
}

#[test]
fn a_used_ticket_stays_used_until_it_expires() {
    let mut cache = RelayTicketReplayCache::new();
    assert!(cache.accept_once("a", 1000, 500));
    for now in 501..=1030 {
        assert!(!cache.accept_once("a", 1000, now));
        assert!(cache.accept_once(&format!("other-{now}"), 1000, now));
    }
    // Expired entries go at the next pruning, half a minute after the one before.
    assert!(!cache.accept_once("a", 2000, 1039));
    assert!(cache.accept_once("a", 2000, 1040));
}

#[test]
fn acknowledgements_carry_the_session_and_the_status() {
    assert_eq!(
        auth_ack_frame(&[1, 2, 3, 4, 5, 6, 7, 8], AUTH_ACK_REPLAY),
        vec![1, 2, 3, 4, 5, 6, 7, 8, AUTH_ACK_FRAME_TYPE, 7]
    );
    assert_eq!(RelayAuthVerifyError::OwnerMismatch.ack_status(), 8);
}

#[test]
fn session_ids_are_sixteen_hex_digits() {
    assert_eq!(
        session_id_text(&0x0123_4567_89ab_cdef_u64.to_be_bytes()),
        "0123456789abcdef"
    );
    assert_eq!(session_id_text(&[0; 8]), "0000000000000000");
}

fn config(mode: &str, insecure: Option<&str>, key: Option<&str>, server: Option<&str>) -> Result<RelayAuthConfig, AuthConfigError> {
    RelayAuthConfig::from_env(
        Some(mode.to_string()),
        insecure.map(str::to_string),
        key.map(str::to_string),
        server.map(str::to_string),
    )
}

#[test]
fn authentication_settings_are_validated() {
    let key = BASE64_STANDARD.encode([5u8; 32]);
    let set = config("required", None, Some(&key), Some(" nyc ")).ok().unwrap();
    assert_eq!(set.mode, RelayAuthMode::Required);
    assert_eq!(set.public_key, Some(vec![5u8; 32]));
    assert_eq!(set.server_id, Some(" nyc ".to_string()));
    assert!(matches!(
        config("off", Some("true"), None, None),
        Err(AuthConfigError::OpenRelay)
    ));
    assert!(matches!(
        config("off", None, None, None),
        Err(AuthConfigError::OpenRelay)
    ));
    let open = config("off", Some("1"), None, None).ok().unwrap();
    assert_eq!(open.mode, RelayAuthMode::Off);
    assert!(matches!(
        config("required", None, None, Some("nyc")),
        Err(AuthConfigError::MissingKey)
    ));
    assert!(matches!(
        config("required", None, Some("!!"), Some("nyc")),
        Err(AuthConfigError::BadKeyEncoding)
    ));
    assert!(matches!(
        config("optional", None, Some(&BASE64_STANDARD.encode([5u8; 31])), Some("nyc")),
        Err(AuthConfigError::BadKeyLength(31))
    ));
    assert!(matches!(
        config("required", None, Some(&key), None),
        Err(AuthConfigError::MissingServerId)
    ));
    assert!(matches!(
        config("required", None, Some(&key), Some("  ")),
        Err(AuthConfigError::EmptyServerId)
    ));
}
