use helix_engine::keys::{
    bytes_eq, edge_key, edge_label_key, has_prefix, in_edge_key, node_key, node_label_key,
    node_label_prefix, out_edge_key, suffix_from,
};
use helix_engine::response::Response;
use helix_engine::value::{props_from_pairs, Value};

#[test]
fn key_layout() {
    assert_eq!(node_key("abc"), b"n:abc".to_vec());
    assert_eq!(edge_key("abc"), b"e:abc".to_vec());
    assert_eq!(node_label_key("person", "x1"), b"nl:person:x1".to_vec());
    assert_eq!(edge_label_key("knows", "e1"), b"el:knows:e1".to_vec());
    assert_eq!(out_edge_key("n1", "e1"), b"o:n1:e1".to_vec());
    assert_eq!(in_edge_key("n2", "e1"), b"i:n2:e1".to_vec());
    assert_eq!(out_edge_key("n1", ""), b"o:n1:".to_vec());
    assert_eq!(node_label_prefix("person"), b"nl:person:".to_vec());
}

#[test]
fn key_of_unicode_label_is_utf8() {
    assert_eq!(node_label_key("é", "i"), vec![b'n', b'l', b':', 0xc3, 0xa9, b':', b'i']);
}

#[test]
fn prefix_helpers() {
    assert!(has_prefix(b"o:n1:", b"o:n1:e1"));
    assert!(!has_prefix(b"o:n1:", b"o:n10:e1"));
    assert!(!has_prefix(b"o:n1:e1x", b"o:n1:e1"));
    assert_eq!(suffix_from(b"o:n1:e1", 5), b"e1".to_vec());
    assert!(bytes_eq(b"ab", b"ab"));
    assert!(!bytes_eq(b"ab", b"abc"));
}

#[test]
fn props_merge_keeps_first_position() {
    let ps = props_from_pairs(vec![
        ("a".to_string(), Value::Integer(1)),
        ("b".to_string(), Value::Integer(2)),
        ("a".to_string(), Value::Integer(3)),
    ]);
    assert_eq!(
        ps,
        vec![("a".to_string(), Value::Integer(3)), ("b".to_string(), Value::Integer(2))]
    );
}

#[test]
fn value_duplicate_is_deep() {
    let v = Value::Array(vec![Value::String("x".to_string()), Value::Object(vec![("k".to_string(), Value::Boolean(true))])]);
    assert_eq!(v.duplicate(), v);
}

#[test]
fn response_ok_framing() {
    let mut r = Response::new();
    r.body = b"hello".to_vec();
    let mut out = Vec::new();
    r.send(&mut out);
    assert_eq!(
        String::from_utf8(out).unwrap(),
        "HTTP/1.1 200 OK\r\nContent-Type: text/plain\r\nContent-Length: 5\r\n\r\nhello"
    );
}

#[test]
fn response_not_found_replaces_body() {
    let mut r = Response::new();
    r.status = 404;
    r.body = b"ignored".to_vec();
    let mut out = Vec::new();
    r.send(&mut out);
    assert_eq!(r.body, b"404 - Route Not Found\n".to_vec());
    assert_eq!(
        String::from_utf8(out).unwrap(),
        "HTTP/1.1 404 Not Found\r\nContent-Type: text/plain\r\nContent-Length: 22\r\n\r\n404 - Route Not Found\n"
    );
}

#[test]
fn response_server_error_and_unknown() {
    let mut r = Response::new();
    r.status = 500;
    let mut out = Vec::new();
    r.send(&mut out);
    let text = String::from_utf8(out).unwrap();
    assert!(text.starts_with("HTTP/1.1 500 Internal Server Error\r\n"));
    assert!(text.ends_with("Content-Length: 28\r\n\r\n500 - Internal Server Error\n"));
    let mut r = Response::new();
    r.status = 302;
    r.headers.clear();
    let mut out = Vec::new();
    r.send(&mut out);
    assert_eq!(String::from_utf8(out).unwrap(), "HTTP/1.1 302 Unknown\r\nContent-Length: 0\r\n\r\n");
}
