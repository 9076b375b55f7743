use hammer_assets::classify::{format_status, status_display, CamError, StatusCheckMiddleware, V3Error};

fn body(code: &str, message: &str) -> Option<V3Error> {
    Some(V3Error { code: code.to_string(), message: message.to_string() })
}

fn classify(status: u16, query: Option<&str>, b: Option<V3Error>) -> Result<(), CamError> {
    StatusCheckMiddleware::new().check(status, "GET", "/api/v3/tick", query, &b)
}

fn failed(r: Result<(), CamError>) -> String {
    match r {
        Err(CamError::RequestFailed(d)) => d,
        other => panic!("expected RequestFailed, got {:?}", other),
    }
}

#[test]
fn missing_price_names_token() {
    let r = classify(404, None, body("tick-not-in-redis", "BTCUSD not found"));
    match r {
        Err(CamError::TokenPriceNotFound(t)) => assert_eq!(t, "BTCUSD"),
        other => panic!("unexpected {:?}", other),
    }
}

#[test]
fn blank_message_falls_back_to_request_failed() {
    let r = classify(404, None, body("tick-not-in-redis", "   "));
    assert_eq!(failed(r), "GET /api/v3/tick status=404 Not Found");
}

#[test]
fn unparsed_body_is_request_failed_with_status() {
    let d = failed(classify(500, Some("s=BTC"), None));
    assert_eq!(d, "GET /api/v3/tick?s=BTC status=500 Internal Server Error");
    assert!(d.contains("500"));
}

#[test]
fn success_passes() {
    assert!(classify(200, None, None).is_ok());
    assert!(classify(204, None, body("tick-not-in-redis", "BTC missing")).is_ok());
}

#[test]
fn other_code_is_request_failed() {
    let d = failed(classify(400, None, body("bad-request", "BTCUSD not found")));
    assert_eq!(d, "GET /api/v3/tick status=400 Bad Request");
}

#[test]
fn token_needs_following_whitespace() {
    let d = failed(classify(404, None, body("tick-not-in-redis", "BTCUSD")));
    assert_eq!(d, "GET /api/v3/tick status=404 Not Found");
}

#[test]
fn leading_whitespace_is_skipped() {
    match classify(404, None, body("tick-not-in-redis", "  ETH\tmissing")) {
        Err(CamError::TokenPriceNotFound(t)) => assert_eq!(t, "ETH"),
        other => panic!("unexpected {:?}", other),
    }
}

#[test]
fn unicode_whitespace_ends_token() {
    match classify(404, None, body("tick-not-in-redis", "SOL\u{3000}gone")) {
        Err(CamError::TokenPriceNotFound(t)) => assert_eq!(t, "SOL"),
        other => panic!("unexpected {:?}", other),
    }
}

#[test]
fn status_display_has_reason() {
    assert_eq!(status_display(404), "404 Not Found");
    assert_eq!(status_display(599), "599 <unknown status code>");
    assert_eq!(status_display(42), "42 <unknown status code>");
}

#[test]
fn error_messages() {
    assert_eq!(CamError::TokenPriceNotFound("BTC".to_string()).message(), "Token not found: BTC");
    assert_eq!(CamError::RequestFailed("x".to_string()).message(), "Request failed: x");
}

#[test]
fn format_status_with_and_without_reason() {
    assert_eq!(format_status(418, Some("I'm a teapot")), "418 I'm a teapot");
    assert_eq!(format_status(299, None), "299 <unknown status code>");
}
