use hyper::header::{HeaderName, HeaderValue, CONNECTION, CONTENT_LENGTH, CONTENT_TYPE};
use hyper::HeaderMap;
use vhrn::server::response::{failure, fixed, origin, represented, ProxyFailure};

#[test]
fn fixed_response_has_exact_status_content_type_and_body() {
    let response = fixed(403, Some("text/plain"), b"forbidden\n");
    assert_eq!(response.status, 403);
    assert_eq!(response.headers[CONTENT_TYPE], "text/plain");
    assert_eq!(response.body, b"forbidden\n");
    assert!(fixed(204, None, b"").headers.is_empty());
}

#[test]
fn failures_have_exact_status_headers_and_bytes_including_head() {
    let cases = [
        (ProxyFailure::BadRequest, 400, "bad request\n", true),
        (ProxyFailure::HttpsRequiresConnect, 400, "HTTPS requires CONNECT\n", true),
        (
            ProxyFailure::PublicDenied(b"example.com".to_vec()),
            403,
            "blocked by vhrn egress policy: example.com\n",
            false,
        ),
        (
            ProxyFailure::LocalDenied(b"localhost:443".to_vec()),
            403,
            "blocked by vhrn local policy: localhost:443\n",
            false,
        ),
        (ProxyFailure::ReportLogUnavailable, 503, "proxy temporarily unavailable\n", true),
        (ProxyFailure::BadGateway, 502, "bad gateway\n", false),
    ];
    for (reason, status, body, close) in cases {
        for head in [false, true] {
            let response = failure(&reason, head);
            assert_eq!(response.status, status);
            assert_eq!(response.headers[CONTENT_TYPE], "text/plain; charset=utf-8");
            assert_eq!(response.headers[CONTENT_LENGTH], body.len().to_string());
            assert_eq!(response.headers.contains_key(CONNECTION), close);
            assert_eq!(response.body, if head { b"" } else { body.as_bytes() });
        }
    }
}

#[test]
fn dynamic_failure_content_cannot_escape_the_one_line_bound() {
    let response = failure(&ProxyFailure::PublicDenied("x\n".repeat(600).into_bytes()), false);
    assert_eq!(response.headers[CONTENT_LENGTH], "12");
    assert_eq!(response.body, b"proxy error\n");
}

#[test]
fn origin_response_preserves_status_body_and_ordinary_headers() {
    let mut headers = HeaderMap::new();
    headers.insert("x-origin", HeaderValue::from_static("present"));
    let (sent, body) = origin(headers, false);
    assert_eq!(sent["x-origin"], "present");
    assert!(body);
}

#[test]
fn origin_response_strips_hop_by_hop_and_connection_named_headers() {
    let mut headers = HeaderMap::new();
    headers.insert(CONNECTION, HeaderValue::from_static("x-remove"));
    headers.insert("x-remove", HeaderValue::from_static("no"));
    headers.insert("keep", HeaderValue::from_static("yes"));
    headers.insert(
        HeaderName::from_static("transfer-encoding"),
        HeaderValue::from_static("chunked"),
    );
    let (sent, _) = origin(headers, false);
    assert!(!sent.contains_key(CONNECTION));
    assert!(!sent.contains_key("x-remove"));
    assert!(!sent.contains_key("transfer-encoding"));
    assert_eq!(sent["keep"], "yes");
}

#[test]
fn head_origin_preserves_representation_headers_without_body_bytes() {
    let mut headers = HeaderMap::new();
    headers.insert(CONTENT_LENGTH, HeaderValue::from_static("6"));
    let (sent, body) = origin(headers, true);
    assert_eq!(sent[CONTENT_LENGTH], "6");
    assert!(!body);
}

#[test]
fn representations_tell_their_length() {
    let response = represented(200, Some("text/plain"), b"ok\n", true);
    assert_eq!(response.headers[CONTENT_LENGTH], "3");
    assert!(response.body.is_empty());
    assert!(ProxyFailure::LocalDenied(Vec::new()).is_denial());
    assert!(!ProxyFailure::GatewayTimeout.is_denial());
    assert_eq!(ProxyFailure::GatewayTimeout.representation().0, 504);
    assert_eq!(ProxyFailure::HeadersTooLarge.representation().0, 431);
    assert_eq!(ProxyFailure::ServiceUnavailable.representation().0, 503);
}
