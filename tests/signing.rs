use base64::Engine;
use hammer_assets::signing::{millis_from_nanos, SignError, SigningMiddleware};
use hammer_assets::text::decimal_string;
use hmac::Mac;

fn signer() -> SigningMiddleware {
    // "c2VjcmV0" is base64 for "secret"
    SigningMiddleware::new("/api/v3".to_string(), "key-1".to_string(), "c2VjcmV0".to_string())
}

#[test]
fn signed_path_strips_prefix_once() {
    let s = signer();
    assert_eq!(s.signed_path("/api/v3/x/api/v3/y", None), "/x/api/v3/y");
}

#[test]
fn signed_path_appends_query_verbatim() {
    let s = signer();
    assert_eq!(s.signed_path("/api/v3/ping", Some("a=1&b=%20x")), "/ping?a=1&b=%20x");
}

#[test]
fn signed_path_without_prefix_is_unchanged() {
    let s = signer();
    assert_eq!(s.signed_path("/other/api/v3/ping", None), "/other/api/v3/ping");
}

#[test]
fn signing_payload_concatenates_parts() {
    let s = signer();
    let payload = s.signing_payload("POST", "/api/v3/orders", Some("x=1"), "1700000000000", "{\"a\":1}");
    assert_eq!(payload, "POST/orders?x=11700000000000{\"a\":1}");
}

#[test]
fn signature_is_hmac_sha256_under_decoded_secret() {
    let s = signer();
    let headers = s.sign("GET", "/api/v3/ping", None, b"", 1_700_000_000_000).unwrap();
    let mut mac = hmac::Hmac::<sha2::Sha256>::new_from_slice(b"secret").unwrap();
    mac.update(b"GET/ping1700000000000");
    let expected = base64::engine::general_purpose::STANDARD.encode(mac.finalize().into_bytes());
    assert_eq!(headers.signature, expected);
    assert_eq!(headers.timestamp, "1700000000000");
    assert_eq!(headers.api_key, "key-1");
    assert_eq!(headers.content_type, "application/json");
}

#[test]
fn signature_is_not_over_raw_secret_bytes() {
    let s = signer();
    let headers = s.sign("GET", "/api/v3/ping", None, b"", 1_700_000_000_000).unwrap();
    let mut mac = hmac::Hmac::<sha2::Sha256>::new_from_slice(b"c2VjcmV0").unwrap();
    mac.update(b"GET/ping1700000000000");
    let raw = base64::engine::general_purpose::STANDARD.encode(mac.finalize().into_bytes());
    assert_ne!(headers.signature, raw);
}

#[test]
fn signature_is_deterministic() {
    let a = signer();
    let b = signer();
    let ha = a.sign("PUT", "/api/v3/x", Some("q=1"), b"{}", 42).unwrap();
    let hb = b.sign("PUT", "/api/v3/x", Some("q=1"), b"{}", 42).unwrap();
    assert_eq!(ha.signature, hb.signature);
    assert_eq!(ha.timestamp, hb.timestamp);
}

#[test]
fn signature_changes_with_body() {
    let s = signer();
    let ha = s.sign("PUT", "/api/v3/x", None, b"{}", 42).unwrap();
    let hb = s.sign("PUT", "/api/v3/x", None, b"{ }", 42).unwrap();
    assert_ne!(ha.signature, hb.signature);
}

#[test]
fn bad_secret_is_a_signing_error() {
    let s = SigningMiddleware::new("/api".to_string(), "k".to_string(), "not base64!".to_string());
    assert_eq!(s.sign("GET", "/api/x", None, b"", 1).unwrap_err(), SignError::SecretNotBase64);
}

#[test]
fn non_utf8_body_is_a_signing_error() {
    let s = signer();
    assert_eq!(s.sign("GET", "/api/v3/x", None, &[0xff, 0xfe], 1).unwrap_err(), SignError::BodyNotUtf8);
}

#[test]
fn sign_now_uses_a_current_timestamp() {
    let s = signer();
    let headers = s.sign_now("GET", "/api/v3/ping", None, b"").unwrap();
    let ts: i128 = headers.timestamp.parse().unwrap();
    assert!(ts > 1_600_000_000_000);
}

#[test]
fn millis_truncate_toward_zero() {
    assert_eq!(millis_from_nanos(1_700_000_000_123_456_789), 1_700_000_000_123);
    assert_eq!(millis_from_nanos(-1_999_999), -1);
    assert_eq!(millis_from_nanos(999_999), 0);
    assert_eq!(millis_from_nanos(i128::MIN), i128::MIN / 1_000_000);
}

#[test]
fn decimal_string_matches_to_string() {
    for n in [0i128, 7, 10, 42, 1_700_000_000_000, -7, -100, i128::MAX, i128::MIN] {
        assert_eq!(decimal_string(n), n.to_string());
    }
}
