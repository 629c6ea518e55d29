use http_core::parser::parse_content_length;
use http_core::parser::parse_header_line;
use http_core::parser::parse_request_header;
use http_core::parser::parse_request_line;
use http_core::request::Request;

#[test]
fn request_line_sets_fields() {
    let mut req = Request::new();
    parse_request_line(&mut req, &String::from("GET /index HTTP/1.0"));
    assert_eq!(req.method, "GET");
    assert_eq!(req.uri, "/index");
    assert_eq!(req.http_version, "HTTP/1.0");
}

#[test]
fn request_line_missing_tokens_keep_defaults() {
    let mut req = Request::new();
    parse_request_line(&mut req, &String::from("GET"));
    assert_eq!(req.method, "GET");
    assert_eq!(req.uri, "/");
    assert_eq!(req.http_version, "HTTP/1.1");
}

#[test]
fn request_line_extra_tokens_ignored() {
    let mut req = Request::new();
    parse_request_line(&mut req, &String::from("GET / HTTP/1.1 junk more"));
    assert_eq!(req.method, "GET");
    assert_eq!(req.uri, "/");
    assert_eq!(req.http_version, "HTTP/1.1");
}

#[test]
fn header_line_trims_name_and_value() {
    let mut req = Request::new();
    let blank = parse_header_line(&mut req, &String::from("  Host :   example.com  "));
    assert!(!blank);
    assert_eq!(req.headers.get("Host").map(|v| v.as_str()), Some("example.com"));
}

#[test]
fn header_line_value_keeps_inner_colons() {
    let mut req = Request::new();
    parse_header_line(&mut req, &String::from("Referer: http://a/b"));
    assert_eq!(req.headers.get("Referer").map(|v| v.as_str()), Some("http://a/b"));
}

#[test]
fn header_line_without_colon_adds_nothing() {
    let mut req = Request::new();
    let blank = parse_header_line(&mut req, &String::from("no colon here"));
    assert!(!blank);
    assert_eq!(req.headers.len(), 0);
}

#[test]
fn header_line_blank_signals_end() {
    let mut req = Request::new();
    let blank = parse_header_line(&mut req, &String::from(""));
    assert!(blank);
    assert_eq!(req.headers.len(), 0);
}

#[test]
fn parse_basic_request() {
    let input = b"GET /a HTTP/1.1\nHost: x\n\n";
    let (req, used) = parse_request_header(input, false).expect("complete message");
    assert_eq!(req.method, "GET");
    assert_eq!(req.uri, "/a");
    assert_eq!(req.http_version, "HTTP/1.1");
    assert_eq!(req.headers.get("Host").map(|v| v.as_str()), Some("x"));
    assert!(req.body.is_none());
    assert_eq!(used, input.len());
}

#[test]
fn parse_crlf_request() {
    let input = b"GET / HTTP/1.1\r\nAccept: b\r\n\r\n";
    let (req, _) = parse_request_header(input, false).expect("complete message");
    assert_eq!(req.method, "GET");
    assert_eq!(req.headers.get("Accept").map(|v| v.as_str()), Some("b"));
}

#[test]
fn parse_body_exact_length() {
    let input = b"POST /up HTTP/1.1\nContent-Length: 5\n\nhello";
    let (req, used) = parse_request_header(input, false).expect("complete message");
    assert_eq!(req.body.as_deref(), Some(&b"hello"[..]));
    assert_eq!(used, input.len());
}

#[test]
fn parse_body_stops_at_declared_length() {
    let input = b"POST / HTTP/1.1\nContent-Length: 2\n\nhiEXTRA";
    let (req, used) = parse_request_header(input, false).expect("complete message");
    assert_eq!(req.body.as_deref(), Some(&b"hi"[..]));
    assert_eq!(used, input.len() - 5);
}

#[test]
fn parse_without_content_length_reads_no_body() {
    let input = b"GET / HTTP/1.1\n\nEXTRA";
    let (req, used) = parse_request_header(input, false).expect("complete message");
    assert!(req.body.is_none());
    assert_eq!(used, input.len() - 5);
}

#[test]
fn parse_body_underrun_leaves_body_absent() {
    let input = b"POST / HTTP/1.1\nContent-Length: 10\n\nabc";
    assert!(parse_request_header(input, false).is_none());
    let (req, used) = parse_request_header(input, true).expect("stream ended");
    assert!(req.body.is_none());
    assert_eq!(used, input.len());
}

#[test]
fn parse_incomplete_headers_wait_for_more() {
    let input = b"GET / HTTP/1.1\nHost: x\n";
    assert!(parse_request_header(input, false).is_none());
    let (req, _) = parse_request_header(input, true).expect("stream ended");
    assert_eq!(req.headers.get("Host").map(|v| v.as_str()), Some("x"));
}

#[test]
fn parse_invalid_utf8_line_skipped() {
    let input = b"\xff\xfe\nHost: x\n\n";
    let (req, _) = parse_request_header(input, false).expect("complete message");
    assert_eq!(req.method, "method");
    assert_eq!(req.uri, "/");
    assert_eq!(req.headers.get("Host").map(|v| v.as_str()), Some("x"));
}

#[test]
fn parse_empty_first_line_does_not_end_headers() {
    let input = b"\nHost: x\n\n";
    let (req, _) = parse_request_header(input, false).expect("complete message");
    assert_eq!(req.method, "method");
    assert_eq!(req.headers.get("Host").map(|v| v.as_str()), Some("x"));
}

#[test]
fn parse_unparsable_content_length_reads_empty_body() {
    let input = b"POST / HTTP/1.1\nContent-Length: abc\n\nXYZ";
    let (req, used) = parse_request_header(input, false).expect("complete message");
    assert_eq!(req.body.as_deref(), Some(&b""[..]));
    assert_eq!(used, input.len() - 3);
}

#[test]
fn parse_duplicate_header_last_write_wins() {
    let input = b"GET / HTTP/1.1\nA: one\nA: two\n\n";
    let (req, _) = parse_request_header(input, false).expect("complete message");
    assert_eq!(req.headers.get("A").map(|v| v.as_str()), Some("two"));
    assert_eq!(req.headers.len(), 1);
}

#[test]
fn content_length_values() {
    assert_eq!(parse_content_length("123"), 123);
    assert_eq!(parse_content_length("+123"), 123);
    assert_eq!(parse_content_length("0"), 0);
    assert_eq!(parse_content_length(""), 0);
    assert_eq!(parse_content_length("12a"), 0);
    assert_eq!(parse_content_length(" 12"), 0);
    assert_eq!(parse_content_length("-1"), 0);
    assert_eq!(parse_content_length("99999999999999999999999999"), 0);
}
