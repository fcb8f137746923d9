use hyper::header::{HeaderValue, CONNECTION, CONTENT_LENGTH, VIA};
use hyper::HeaderMap;
use vhrn::headers::{
    append_via, connection_nominations, remove_names, sanitize_hop_by_hop, HeaderError,
    HttpVersion,
};

#[test]
fn removes_connection_nominated_and_fixed_hop_headers() {
    let mut headers = HeaderMap::new();
    headers.insert(CONNECTION, HeaderValue::from_static("X-Remove, keep-alive"));
    headers.insert("x-remove", HeaderValue::from_static("yes"));
    headers.insert("proxy-authorization", HeaderValue::from_static("secret"));
    headers.insert("upgrade", HeaderValue::from_static("websocket"));
    headers.insert(CONTENT_LENGTH, HeaderValue::from_static("3"));
    headers.insert("x-keep", HeaderValue::from_static("yes"));
    sanitize_hop_by_hop(&mut headers).unwrap();
    assert!(!headers.contains_key(CONNECTION));
    assert!(!headers.contains_key("x-remove"));
    assert!(!headers.contains_key("proxy-authorization"));
    assert!(!headers.contains_key("upgrade"));
    assert!(headers.contains_key(CONTENT_LENGTH));
    assert!(headers.contains_key("x-keep"));
}

#[test]
fn rejects_empty_or_malformed_connection_nominations() {
    for value in ["", "x-good,", "bad name"] {
        let mut headers = HeaderMap::new();
        headers.insert(CONNECTION, HeaderValue::from_str(value).unwrap());
        assert_eq!(sanitize_hop_by_hop(&mut headers), Err(HeaderError));
        assert!(headers.contains_key(CONNECTION));
    }
    assert_eq!(HeaderError.message(), "invalid connection header");
}

#[test]
fn appends_received_protocol_to_existing_via_chain() {
    let mut headers = HeaderMap::new();
    headers.append(VIA, HeaderValue::from_static("1.0 prior"));
    assert!(append_via(&mut headers, HttpVersion::Http11));
    let values =
        headers.get_all(VIA).iter().map(|value| value.to_str().unwrap()).collect::<Vec<_>>();
    assert_eq!(values, ["1.0 prior", "1.1 vhrn"]);
    assert!(append_via(&mut headers, HttpVersion::Http10));
    assert_eq!(headers.get_all(VIA).iter().count(), 3);
}

#[test]
fn nominations_come_from_every_connection_field() {
    let mut headers = HeaderMap::new();
    assert_eq!(connection_nominations(&headers), Ok(vec![]));
    headers.append(CONNECTION, HeaderValue::from_static("One ,\ttwo"));
    headers.append(CONNECTION, HeaderValue::from_static("THREE"));
    let names = connection_nominations(&headers).unwrap();
    let lower: Vec<Vec<u8>> = names.iter().map(|name| name.to_ascii_lowercase()).collect();
    assert_eq!(lower, [b"one".to_vec(), b"two".to_vec(), b"three".to_vec()]);
}

#[test]
fn removed_names_go_with_all_their_values() {
    let mut headers = HeaderMap::new();
    headers.append("a", HeaderValue::from_static("1"));
    headers.append("a", HeaderValue::from_static("2"));
    headers.append("b", HeaderValue::from_static("3"));
    headers.append("c", HeaderValue::from_static("4"));
    remove_names(&mut headers, &vec![b"A".to_vec(), b"absent".to_vec()]);
    let left: Vec<&str> = headers.keys().map(|name| name.as_str()).collect();
    assert_eq!(left, ["c", "b"]);
}

#[test]
fn sanitizing_twice_is_sanitizing_once() {
    let mut headers = HeaderMap::new();
    headers.insert(CONNECTION, HeaderValue::from_static("close"));
    headers.insert("te", HeaderValue::from_static("trailers"));
    headers.insert("accept", HeaderValue::from_static("*/*"));
    sanitize_hop_by_hop(&mut headers).unwrap();
    let once = headers.clone();
    sanitize_hop_by_hop(&mut headers).unwrap();
    assert_eq!(headers, once);
    assert_eq!(headers.len(), 1);
}
