//! Classification of API responses: a non-2xx status becomes a typed error,
//! with the provider's "tick-not-in-redis" payload singled out.

use vstd::prelude::*;
use vstd::string::*;
use crate::text::{concat, decimal_string, decimal_text, opt_chars, same_text};

verus! {

/// The reason phrase that HTTP registers for `code`, if any.
pub uninterp spec fn canonical_reason_of(code: u16) -> Option<Seq<char>>;

/// Relies on reqwest's `StatusCode::from_u16` (an error outside 100..=999)
/// and `StatusCode::canonical_reason`.
#[verifier::external_body]
fn canonical_reason(code: u16) -> (r: Option<String>)
    ensures
        match r {
            Some(t) => canonical_reason_of(code) == Some(t@),
            None => canonical_reason_of(code) is None,
        },
        (code < 100 || code >= 1000) ==> r is None,
{
    match reqwest::StatusCode::from_u16(code) {
        Ok(status) => status.canonical_reason().map(|t| t.to_string()),
        Err(_) => None,
    }
}

/// Whether `c` is Unicode `White_Space`.
pub open spec fn is_space(c: char) -> bool {
    let u = c as u32;
    (0x9 <= u <= 0xd) || u == 0x20 || u == 0x85 || u == 0xa0 || u == 0x1680 || (0x2000 <= u
        <= 0x200a) || u == 0x2028 || u == 0x2029 || u == 0x202f || u == 0x205f || u == 0x3000
}

/// `s` without its leading whitespace.
pub open spec fn skip_spaces(s: Seq<char>) -> Seq<char>
    decreases s.len(),
{
    if s.len() > 0 && is_space(s[0]) {
        skip_spaces(s.drop_first())
    } else {
        s
    }
}

/// Length of the run of non-whitespace characters that starts `s`.
pub open spec fn token_len(s: Seq<char>) -> nat
    decreases s.len(),
{
    if s.len() > 0 && !is_space(s[0]) {
        1 + token_len(s.drop_first())
    } else {
        0
    }
}

/// The first whitespace-delimited token of `s`, provided whitespace follows
/// it: what the group of `(\S+)\s` captures.
pub open spec fn spaced_token(s: Seq<char>) -> Option<Seq<char>> {
    let t = skip_spaces(s);
    let n = token_len(t);
    if 0 < n < t.len() {
        Some(t.subrange(0, n as int))
    } else {
        None
    }
}

/// The pattern that finds the missing token in the provider's message.
pub open spec fn token_pattern() -> Seq<char> {
    seq!['(', '\\', 'S', '+', ')', '\\', 's']
}

/// Relies on regex's `Regex::new` and `Regex::captures` for the pattern
/// `(\S+)\s`: the pattern compiles; the leftmost match starts at the first
/// non-whitespace character, its greedy group runs to the next whitespace
/// character, and there is no match when no whitespace follows; `\s` is
/// Unicode `White_Space`.
#[verifier::external_body]
fn first_group(pattern: &str, text: &str) -> (r: Option<String>)
    requires
        pattern@ == token_pattern(),
    ensures
        match r {
            Some(t) => spaced_token(text@) == Some(t@),
            None => spaced_token(text@) is None,
        },
{
    let re = regex::Regex::new(pattern).unwrap();
    re.captures(text).and_then(|c| c.get(1)).map(|m| m.as_str().to_string())
}

/// The error body the provider sends: `{code, message}`.
#[derive(Debug, Clone)]
pub struct V3Error {
    pub code: String,
    pub message: String,
}

/// The answer to a ping.
#[derive(Debug, Clone)]
pub struct PongResponse {
    pub pong: String,
}

/// A classified API failure.
#[derive(Debug, Clone)]
pub enum CamError {
    /// The provider has no price for this token.
    TokenPriceNotFound(String),
    /// Any other failure, described by method, path, query and status.
    RequestFailed(String),
}

/// The provider's code for a missing price.
pub open spec fn tick_not_in_redis() -> Seq<char> {
    "tick-not-in-redis"@
}

/// Whether `status` is 2xx.
pub open spec fn is_success_code(status: u16) -> bool {
    200 <= status <= 299
}

/// How a status is shown: its number, a space, and its reason phrase (or
/// `<unknown status code>`).
pub open spec fn status_text(status: u16) -> Seq<char> {
    decimal_text(status as int) + seq![' '] + match canonical_reason_of(status) {
        Some(t) => t,
        None => "<unknown status code>"@,
    }
}

/// The description of a failed request: `METHOD PATH[?QUERY] status=STATUS`.
pub open spec fn failure_title(
    method: Seq<char>,
    path: Seq<char>,
    query: Option<Seq<char>>,
    status: u16,
) -> Seq<char> {
    method + seq![' '] + path + match query {
        Some(q) => seq!['?'] + q,
        None => Seq::<char>::empty(),
    } + " status="@ + status_text(status)
}

/// The token named by an error body, when it is a missing-price error whose
/// message yields one.
pub open spec fn missing_token(body: Option<(Seq<char>, Seq<char>)>) -> Option<Seq<char>> {
    match body {
        Some((code, message)) => if code == tick_not_in_redis() {
            spaced_token(message)
        } else {
            None
        },
        None => None,
    }
}

/// What classification decides for a response.
pub enum Classification {
    Pass,
    TokenPriceNotFound(Seq<char>),
    RequestFailed(Seq<char>),
}

/// Classification of a response with `status` to `method path?query`, whose
/// body parsed (or not) as an error body with this code and message.
pub open spec fn classify_spec(
    status: u16,
    method: Seq<char>,
    path: Seq<char>,
    query: Option<Seq<char>>,
    body: Option<(Seq<char>, Seq<char>)>,
) -> Classification {
    if is_success_code(status) {
        Classification::Pass
    } else {
        match missing_token(body) {
            Some(t) => Classification::TokenPriceNotFound(t),
            None => Classification::RequestFailed(failure_title(method, path, query, status)),
        }
    }
}

/// What a result of `check` stands for.
pub open spec fn outcome(r: Result<(), CamError>) -> Classification {
    match r {
        Ok(_) => Classification::Pass,
        Err(CamError::TokenPriceNotFound(t)) => Classification::TokenPriceNotFound(t@),
        Err(CamError::RequestFailed(d)) => Classification::RequestFailed(d@),
    }
}

/// A message made of whitespace alone names no token.
pub proof fn lemma_blank_message_has_no_token(message: Seq<char>)
    requires
        forall|i: int| 0 <= i < message.len() ==> is_space(#[trigger] message[i]),
    ensures
        spaced_token(message) is None,
    decreases message.len(),
{
    if message.len() > 0 {
        let rest = message.drop_first();
        assert forall|i: int| 0 <= i < rest.len() implies is_space(#[trigger] rest[i]) by {
            assert(rest[i] == message[i + 1]);
        }
        lemma_blank_message_has_no_token(rest);
    }
}

/// A failing response whose body is not an error body (it did not parse)
/// is a `RequestFailed` whose description holds the status number.
pub proof fn lemma_unparsed_failure_names_status(
    status: u16,
    method: Seq<char>,
    path: Seq<char>,
    query: Option<Seq<char>>,
)
    requires
        !is_success_code(status),
    ensures
        classify_spec(status, method, path, query, None) == Classification::RequestFailed(
            failure_title(method, path, query, status),
        ),
        exists|before: Seq<char>, after: Seq<char>|
            failure_title(method, path, query, status) == before + decimal_text(status as int)
                + after,
{
    let q = match query {
        Some(q) => seq!['?'] + q,
        None => Seq::<char>::empty(),
    };
    let reason = match canonical_reason_of(status) {
        Some(t) => t,
        None => "<unknown status code>"@,
    };
    let before = method + seq![' '] + path + q + " status="@;
    let after = seq![' '] + reason;
    assert(failure_title(method, path, query, status) =~= before + decimal_text(status as int)
        + after);
}

/// A failing response whose error body has the missing-price code but a
/// blank message is a `RequestFailed`.
pub proof fn lemma_blank_token_message_fails_generally(
    status: u16,
    method: Seq<char>,
    path: Seq<char>,
    query: Option<Seq<char>>,
    message: Seq<char>,
)
    requires
        !is_success_code(status),
        forall|i: int| 0 <= i < message.len() ==> is_space(#[trigger] message[i]),
    ensures
        classify_spec(status, method, path, query, Some((tick_not_in_redis(), message)))
            == Classification::RequestFailed(failure_title(method, path, query, status)),
{
    lemma_blank_message_has_no_token(message);
}

/// The code and message of a parsed error body.
pub open spec fn body_chars(body: Option<V3Error>) -> Option<(Seq<char>, Seq<char>)> {
    match body {
        Some(e) => Some((e.code@, e.message@)),
        None => None,
    }
}

/// Whether `status` is 2xx.
pub fn is_success_status(status: u16) -> (r: bool)
    ensures
        r == is_success_code(status),
{
    200 <= status && status <= 299
}

/// A status shown with a given reason phrase: the number, a space, and the
/// phrase, or `<unknown status code>` when there is none.
pub fn format_status(status: u16, reason: Option<&str>) -> (r: String)
    ensures
        r@ == decimal_text(status as int) + seq![' '] + match opt_chars(reason) {
            Some(t) => t,
            None => "<unknown status code>"@,
        },
{
    let number = decimal_string(status as i128);
    proof {
        reveal_strlit(" ");
        reveal_strlit("<unknown status code>");
    }
    let with_space = concat(number.as_str(), " ");
    let r = match reason {
        Some(t) => concat(with_space.as_str(), t),
        None => concat(with_space.as_str(), "<unknown status code>"),
    };
    assert(r@ =~= decimal_text(status as int) + seq![' '] + match opt_chars(reason) {
        Some(t) => t,
        None => "<unknown status code>"@,
    });
    r
}

/// `status` as its `Display` shows it, for example `404 Not Found`.
pub fn status_display(status: u16) -> (r: String)
    ensures
        r@ == status_text(status),
{
    match canonical_reason(status) {
        Some(reason) => format_status(status, Some(reason.as_str())),
        None => format_status(status, None),
    }
}

/// The description carried by `RequestFailed`.
pub fn failure_description(method: &str, path: &str, query: Option<&str>, status: u16) -> (r:
    String)
    ensures
        r@ == failure_title(method@, path@, opt_chars(query), status),
{
    proof {
        reveal_strlit(" ");
        reveal_strlit("?");
        reveal_strlit(" status=");
    }
    let a = concat(method, " ");
    let b = concat(a.as_str(), path);
    let c = match query {
        Some(q) => {
            let with_mark = concat(b.as_str(), "?");
            concat(with_mark.as_str(), q)
        },
        None => b,
    };
    let d = concat(c.as_str(), " status=");
    let shown = status_display(status);
    let r = concat(d.as_str(), shown.as_str());
    assert(r@ =~= failure_title(method@, path@, opt_chars(query), status));
    r
}

/// The token that a parsed error body names as missing, if any.
pub fn token_in_body(body: &Option<V3Error>) -> (r: Option<String>)
    ensures
        match r {
            Some(t) => missing_token(body_chars(*body)) == Some(t@),
            None => missing_token(body_chars(*body)) is None,
        },
{
    match body {
        Some(e) => {
            proof {
                reveal_strlit("tick-not-in-redis");
            }
            if same_text(e.code.as_str(), "tick-not-in-redis") {
                let pattern = "(\\S+)\\s";
                proof {
                    reveal_strlit("(\\S+)\\s");
                }
                assert(pattern@ =~= token_pattern());
                first_group(pattern, e.message.as_str())
            } else {
                None
            }
        },
        None => None,
    }
}

impl CamError {
    /// The error as text: `Token not found: TOKEN` or `Request failed: DESCRIPTION`.
    pub fn message(&self) -> (r: String)
        ensures
            r@ == match self {
                CamError::TokenPriceNotFound(t) => "Token not found: "@ + t@,
                CamError::RequestFailed(d) => "Request failed: "@ + d@,
            },
    {
        proof {
            reveal_strlit("Token not found: ");
            reveal_strlit("Request failed: ");
        }
        match self {
            CamError::TokenPriceNotFound(t) => concat("Token not found: ", t.as_str()),
            CamError::RequestFailed(d) => concat("Request failed: ", d.as_str()),
        }
    }
}

/// Turns non-2xx responses into typed errors; it never retries.
#[derive(Debug, Clone, Copy)]
pub struct StatusCheckMiddleware {}

impl Default for StatusCheckMiddleware {
    fn default() -> (r: Self)
        ensures
            r == (StatusCheckMiddleware {  }),
    {
        StatusCheckMiddleware {  }
    }
}

impl StatusCheckMiddleware {
    pub fn new() -> (r: Self) {
        StatusCheckMiddleware {  }
    }

    /// Classifies a response. A 2xx status passes. Otherwise a parsed body
    /// with code `tick-not-in-redis` whose message starts with a token
    /// followed by whitespace gives `TokenPriceNotFound(token)`; everything
    /// else (no parsed body, another code, no token) gives `RequestFailed`
    /// with the method, path, query and status.
    pub fn check(
        &self,
        status: u16,
        method: &str,
        path: &str,
        query: Option<&str>,
        body: &Option<V3Error>,
    ) -> (r: Result<(), CamError>)
        ensures
            outcome(r) == classify_spec(status, method@, path@, opt_chars(query), body_chars(*body)),
    {
        if is_success_status(status) {
            return Ok(());
        }
        match token_in_body(body) {
            Some(token) => Err(CamError::TokenPriceNotFound(token)),
            None => Err(CamError::RequestFailed(failure_description(method, path, query, status))),
        }
    }
}

} // verus!
