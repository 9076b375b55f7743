//! Request signing: the canonical signing text, its HMAC-SHA256 under the
//! base64-decoded secret, and the headers that carry the result.

use vstd::prelude::*;
use vstd::string::*;
use vstd::utf8::*;
use base64::Engine;
use hmac::Mac;
use crate::text::{concat, decimal_string, decimal_text, opt_chars, starts_with_text};

verus! {

/// What standard base64 (with padding) decodes `text` to, if it is valid.
pub uninterp spec fn base64_decoded(text: Seq<char>) -> Option<Seq<u8>>;

/// The standard base64 text (with padding) of `bytes`.
pub uninterp spec fn base64_encoded(bytes: Seq<u8>) -> Seq<char>;

/// The HMAC-SHA256 tag of `message` under `key`.
pub uninterp spec fn hmac_sha256_of(key: Seq<u8>, message: Seq<u8>) -> Seq<u8>;

/// Relies on base64's `STANDARD` engine `decode`: the bytes that `text` encodes,
/// or an error when it is not valid padded base64.
#[verifier::external_body]
fn base64_decode(text: &str) -> (r: Option<Vec<u8>>)
    ensures
        match r {
            Some(b) => base64_decoded(text@) == Some(b@),
            None => base64_decoded(text@) is None,
        },
{
    base64::engine::general_purpose::STANDARD.decode(text).ok()
}

/// Relies on base64's `STANDARD` engine `encode`.
#[verifier::external_body]
fn base64_encode(bytes: &[u8]) -> (r: String)
    ensures
        r@ == base64_encoded(bytes@),
{
    base64::engine::general_purpose::STANDARD.encode(bytes)
}

/// Relies on hmac's `Hmac<Sha256>`: `new_from_slice` accepts a key of any
/// length, then `update` with the message and `finalize`.
#[verifier::external_body]
fn hmac_sha256(key: &[u8], message: &[u8]) -> (r: Vec<u8>)
    ensures
        r@ == hmac_sha256_of(key@, message@),
{
    let mut mac = hmac::Hmac::<sha2::Sha256>::new_from_slice(key).unwrap();
    mac.update(message);
    mac.finalize().into_bytes().to_vec()
}

/// Relies on `String::from_utf8`: succeeds exactly on valid UTF-8, whose
/// characters it then holds.
#[verifier::external_body]
fn utf8_string(bytes: &[u8]) -> (r: Option<String>)
    ensures
        r is Some <==> valid_utf8(bytes@),
        r matches Some(s) ==> s@ == decode_utf8(bytes@),
{
    String::from_utf8(bytes.to_vec()).ok()
}

/// Relies on time's `OffsetDateTime::now_utc().unix_timestamp_nanos()`: the
/// current time in nanoseconds since the Unix epoch.
#[verifier::external_body]
fn unix_nanos_now() -> (r: i128) {
    time::OffsetDateTime::now_utc().unix_timestamp_nanos()
}

/// `n / d` rounded toward zero, as Rust's integer division does.
pub open spec fn div_toward_zero(n: int, d: int) -> int {
    if n >= 0 {
        n / d
    } else {
        -((-n) / d)
    }
}

/// `path` without a leading `api_path`; unchanged when it does not start with it.
pub open spec fn strip_api_path(path: Seq<char>, api_path: Seq<char>) -> Seq<char> {
    if api_path.len() <= path.len() && path.subrange(0, api_path.len() as int) == api_path {
        path.subrange(api_path.len() as int, path.len() as int)
    } else {
        path
    }
}

/// The path part of the signing text: the stripped path, then `?` and the
/// query verbatim when there is one.
pub open spec fn signed_path_text(
    path: Seq<char>,
    api_path: Seq<char>,
    query: Option<Seq<char>>,
) -> Seq<char> {
    match query {
        Some(q) => strip_api_path(path, api_path) + seq!['?'] + q,
        None => strip_api_path(path, api_path),
    }
}

/// The canonical signing text: verb, path with query, timestamp, body.
pub open spec fn signing_text(
    verb: Seq<char>,
    path: Seq<char>,
    api_path: Seq<char>,
    query: Option<Seq<char>>,
    timestamp: Seq<char>,
    body: Seq<char>,
) -> Seq<char> {
    verb + signed_path_text(path, api_path, query) + timestamp + body
}

/// The base64 signature of `text` under the secret whose base64 decoding is `key`.
pub open spec fn signature_of(key: Seq<u8>, text: Seq<char>) -> Seq<char> {
    base64_encoded(hmac_sha256_of(key, encode_utf8(text)))
}

/// Signing depends on the configuration and the request alone: two signers
/// with the same API path, key and secret give the same outcome (the same
/// headers, byte for byte, or the same error) for the same verb, path, query,
/// body and timestamp.
pub proof fn lemma_signature_deterministic(
    a: SigningMiddleware,
    b: SigningMiddleware,
    verb: Seq<char>,
    path: Seq<char>,
    query: Option<Seq<char>>,
    body: Seq<u8>,
    timestamp_ms: int,
)
    requires
        a.api_path() == b.api_path(),
        a.api_key() == b.api_key(),
        a.api_secret() == b.api_secret(),
    ensures
        a.sign_spec(verb, path, query, body, timestamp_ms) == b.sign_spec(
            verb,
            path,
            query,
            body,
            timestamp_ms,
        ),
{
}

/// The API path is removed once, from the front: whatever follows it, even
/// when that holds the API path again, is signed as it stands.
pub proof fn lemma_api_path_stripped_once(api_path: Seq<char>, rest: Seq<char>)
    ensures
        strip_api_path(api_path + rest, api_path) == rest,
        signed_path_text(api_path + rest, api_path, None) == rest,
{
    assert((api_path + rest).subrange(0, api_path.len() as int) =~= api_path);
    assert((api_path + rest).subrange(api_path.len() as int, (api_path + rest).len() as int)
        =~= rest);
}

/// A path that does not start with the API path is signed unchanged.
pub proof fn lemma_path_without_prefix_unchanged(path: Seq<char>, api_path: Seq<char>)
    requires
        !(api_path.len() <= path.len() && path.subrange(0, api_path.len() as int) == api_path),
    ensures
        strip_api_path(path, api_path) == path,
{
}

/// Why a request could not be signed.
#[derive(Debug, Clone, Copy, PartialEq, Eq, Structural)]
pub enum SignError {
    /// The configured secret is not valid base64.
    SecretNotBase64,
    /// The request body is not valid UTF-8.
    BodyNotUtf8,
}

/// The headers that signing adds to a request.
#[derive(Debug, Clone)]
pub struct SignatureHeaders {
    /// `api-timestamp`: milliseconds since the Unix epoch, in base ten.
    pub timestamp: String,
    /// `api-key`: the configured key id.
    pub api_key: String,
    /// `api-signature`: base64 of the HMAC-SHA256 tag.
    pub signature: String,
    /// `content-type`, always `application/json`.
    pub content_type: String,
}

/// The text of each signature header.
pub struct SignatureView {
    pub timestamp: Seq<char>,
    pub api_key: Seq<char>,
    pub signature: Seq<char>,
    pub content_type: Seq<char>,
}

impl View for SignatureHeaders {
    type V = SignatureView;

    open spec fn view(&self) -> SignatureView {
        SignatureView {
            timestamp: self.timestamp@,
            api_key: self.api_key@,
            signature: self.signature@,
            content_type: self.content_type@,
        }
    }
}

/// Whether a signing outcome is the expected one: the same headers, or the
/// same error.
pub open spec fn sign_matches(
    r: Result<SignatureHeaders, SignError>,
    expected: Result<SignatureView, SignError>,
) -> bool {
    match (r, expected) {
        (Ok(h), Ok(v)) => h@ == v,
        (Err(e), Err(f)) => e == f,
        _ => false,
    }
}

/// Signs outgoing requests with the configured key and secret.
#[derive(Debug, Clone)]
pub struct SigningMiddleware {
    api_path: String,
    api_key: String,
    api_secret: String,
}

/// Milliseconds since the epoch for a time given in nanoseconds, truncated
/// toward zero.
pub fn millis_from_nanos(nanos: i128) -> (r: i128)
    ensures
        r == div_toward_zero(nanos as int, 1_000_000),
{
    if nanos >= 0 {
        nanos / 1_000_000
    } else {
        let magnitude: u128 = (-(nanos + 1)) as u128 + 1;
        let q: u128 = magnitude / 1_000_000;
        -(q as i128)
    }
}

/// The current time in milliseconds since the Unix epoch.
pub fn timestamp_millis_now() -> (r: i128)
    ensures
        exists|nanos: i128| r == div_toward_zero(nanos as int, 1_000_000),
{
    let nanos = unix_nanos_now();
    millis_from_nanos(nanos)
}

impl SigningMiddleware {
    /// A signer for requests under `api_path`, with key id `api_key` and
    /// base64 secret `api_secret`.
    pub fn new(api_path: String, api_key: String, api_secret: String) -> (r: Self)
        ensures
            r.api_path() == api_path@,
            r.api_key() == api_key@,
            r.api_secret() == api_secret@,
    {
        SigningMiddleware { api_path, api_key, api_secret }
    }

    pub closed spec fn api_path(&self) -> Seq<char> {
        self.api_path@
    }

    pub closed spec fn api_key(&self) -> Seq<char> {
        self.api_key@
    }

    pub closed spec fn api_secret(&self) -> Seq<char> {
        self.api_secret@
    }

    /// What signing a request yields: an error when the body is not UTF-8
    /// (checked first) or the secret is not base64, else the four headers.
    pub open spec fn sign_spec(
        &self,
        verb: Seq<char>,
        path: Seq<char>,
        query: Option<Seq<char>>,
        body: Seq<u8>,
        timestamp_ms: int,
    ) -> Result<SignatureView, SignError> {
        if !valid_utf8(body) {
            Err(SignError::BodyNotUtf8)
        } else {
            match base64_decoded(self.api_secret()) {
                None => Err(SignError::SecretNotBase64),
                Some(key) => Ok(
                    SignatureView {
                        timestamp: decimal_text(timestamp_ms),
                        api_key: self.api_key(),
                        signature: signature_of(
                            key,
                            signing_text(
                                verb,
                                path,
                                self.api_path(),
                                query,
                                decimal_text(timestamp_ms),
                                decode_utf8(body),
                            ),
                        ),
                        content_type: "application/json"@,
                    },
                ),
            }
        }
    }

    /// The canonical signing text of a request: verb, signed path, timestamp
    /// and body text, joined with nothing between them.
    pub fn signing_payload(
        &self,
        verb: &str,
        path: &str,
        query: Option<&str>,
        timestamp: &str,
        body: &str,
    ) -> (r: String)
        ensures
            r@ == signing_text(verb@, path@, self.api_path(), opt_chars(query), timestamp@, body@),
    {
        let signed_path = self.signed_path(path, query);
        let a = concat(verb, signed_path.as_str());
        let b = concat(a.as_str(), timestamp);
        let r = concat(b.as_str(), body);
        r
    }

    /// Signs a request made at `timestamp_ms` (milliseconds since the epoch).
    pub fn sign(
        &self,
        verb: &str,
        path: &str,
        query: Option<&str>,
        body: &[u8],
        timestamp_ms: i128,
    ) -> (r: Result<SignatureHeaders, SignError>)
        ensures
            sign_matches(r, self.sign_spec(verb@, path@, opt_chars(query), body@, timestamp_ms as int)),
    {
        let body_text = match utf8_string(body) {
            Some(t) => t,
            None => {
                return Err(SignError::BodyNotUtf8);
            },
        };
        let key = match base64_decode(self.api_secret.as_str()) {
            Some(k) => k,
            None => {
                return Err(SignError::SecretNotBase64);
            },
        };
        let timestamp = decimal_string(timestamp_ms);
        let payload = self.signing_payload(verb, path, query, timestamp.as_str(), body_text.as_str());
        let tag = hmac_sha256(key.as_slice(), payload.as_str().as_bytes());
        let signature = base64_encode(tag.as_slice());
        proof {
            reveal_strlit("application/json");
        }
        let content_type = concat("application/json", "");
        proof {
            reveal_strlit("");
        }
        assert(content_type@ =~= "application/json"@);
        Ok(SignatureHeaders { timestamp, api_key: self.api_key.clone(), signature, content_type })
    }

    /// Signs a request made now.
    pub fn sign_now(&self, verb: &str, path: &str, query: Option<&str>, body: &[u8]) -> (r: Result<
        SignatureHeaders,
        SignError,
    >)
        ensures
            exists|timestamp_ms: i128|
                #[trigger] sign_matches(
                    r,
                    self.sign_spec(verb@, path@, opt_chars(query), body@, timestamp_ms as int),
                ),
    {
        let timestamp_ms = timestamp_millis_now();
        self.sign(verb, path, query, body, timestamp_ms)
    }

    /// The path as signed: the API path prefix removed once from the front,
    /// then `?` and the query if present.
    pub fn signed_path(&self, path: &str, query: Option<&str>) -> (r: String)
        ensures
            r@ == signed_path_text(path@, self.api_path(), opt_chars(query)),
    {
        let api_path = self.api_path.as_str();
        let stripped: &str = if starts_with_text(path, api_path) {
            path.substring_char(api_path.unicode_len(), path.unicode_len())
        } else {
            path
        };
        assert(stripped@ == strip_api_path(path@, self.api_path()));
        match query {
            Some(q) => {
                proof {
                    reveal_strlit("?");
                }
                let with_mark = concat(stripped, "?");
                let r = concat(with_mark.as_str(), q);
                assert(r@ =~= strip_api_path(path@, self.api_path()) + seq!['?'] + q@);
                r
            },
            None => {
                proof {
                    reveal_strlit("");
                }
                let r = concat(stripped, "");
                assert(r@ =~= stripped@);
                r
            },
        }
    }
}

} // verus!
