use http_core::headers::Headers;

#[test]
fn headers_insert_and_get() {
    let mut headers = Headers::new();
    assert_eq!(headers.len(), 0);
    assert!(headers.get("Host").is_none());
    headers.insert(String::from("Host"), String::from("a"));
    assert_eq!(headers.get("Host").map(|v| v.as_str()), Some("a"));
    assert_eq!(headers.len(), 1);
}

#[test]
fn headers_overwrite_keeps_position() {
    let mut headers = Headers::new();
    headers.insert(String::from("a"), String::from("1"));
    headers.insert(String::from("b"), String::from("2"));
    headers.insert(String::from("a"), String::from("3"));
    assert_eq!(headers.len(), 2);
    assert_eq!(headers.pair_at(0).0, "a");
    assert_eq!(headers.pair_at(0).1, "3");
    assert_eq!(headers.pair_at(1).0, "b");
    assert_eq!(headers.pair_at(1).1, "2");
    assert_eq!(headers.get("a").map(|v| v.as_str()), Some("3"));
    assert_eq!(headers.get("b").map(|v| v.as_str()), Some("2"));
}

#[test]
fn headers_names_are_case_sensitive() {
    let mut headers = Headers::new();
    headers.insert(String::from("Content-Length"), String::from("5"));
    assert!(headers.get("content-length").is_none());
    assert_eq!(headers.get("Content-Length").map(|v| v.as_str()), Some("5"));
}
