use http_core::http_server::Handler;
use http_core::http_server::HttpServer;
use http_core::parser::parse_request_header;
use http_core::request::Request;
use http_core::response::Response;
use http_core::serialize::not_found_bytes;
use http_core::serialize::serialize_response;

struct FixedStatus(u16);

impl Handler for FixedStatus {
    fn handle(&self, _request: &Request) -> Response {
        let mut response = Response::new();
        response.status = self.0;
        response.status_text = String::from("OK");
        response
    }
}

struct EchoBody;

impl Handler for EchoBody {
    fn handle(&self, request: &Request) -> Response {
        let mut response = Response::new();
        response.status = 200;
        response.status_text = String::from("OK");
        response.body = request.body.clone();
        response
    }
}

#[test]
fn response_defaults() {
    let response = Response::new();
    assert_eq!(response.status, 400);
    assert_eq!(response.status_text, "Bad Request");
    assert_eq!(response.http_version, "HTTP/1.1");
    assert_eq!(response.headers.len(), 0);
    assert!(response.body.is_none());
}

#[test]
fn serialize_exact_bytes() {
    let mut response = Response::new();
    response.status = 200;
    response.status_text = String::from("OK");
    response.headers.insert(String::from("x"), String::from("1"));
    response.headers.insert(String::from("y"), String::from("2"));
    response.body = Some(b"hi".to_vec());
    let out = serialize_response(&response);
    assert_eq!(out, b"HTTP/1.1 200 OK\nx:1\ny:2\n\nhi".to_vec());
}

#[test]
fn serialize_absent_body_emits_no_body_bytes() {
    let mut response = Response::new();
    response.status = 204;
    response.status_text = String::from("No Content");
    let out = serialize_response(&response);
    assert_eq!(out, b"HTTP/1.1 204 No Content\n\n".to_vec());
}

#[test]
fn serialize_overwritten_header_appears_once() {
    let mut response = Response::new();
    response.status = 200;
    response.status_text = String::from("OK");
    response.headers.insert(String::from("x"), String::from("1"));
    response.headers.insert(String::from("x"), String::from("2"));
    let out = serialize_response(&response);
    assert_eq!(out, b"HTTP/1.1 200 OK\nx:2\n\n".to_vec());
}

#[test]
fn not_found_bytes_exact() {
    assert_eq!(not_found_bytes(), b"HTTP/1.1 404 Not Found\n\n".to_vec());
}

#[test]
fn dispatch_prefers_first_registration() {
    let mut server: HttpServer<FixedStatus> = HttpServer::new();
    server.get("/a", FixedStatus(201));
    server.get("/a", FixedStatus(202));
    let mut req = Request::new();
    req.method = String::from("GET");
    req.uri = String::from("/a");
    assert_eq!(server.dispatch(&req), Some(0));
    let out = server.handle_request(&req);
    assert_eq!(out, b"HTTP/1.1 201 OK\n\n".to_vec());
}

#[test]
fn dispatch_matches_method_and_path_exactly() {
    let mut server: HttpServer<FixedStatus> = HttpServer::new();
    server.get("/a", FixedStatus(200));
    server.post("/b", FixedStatus(201));
    let mut req = Request::new();
    req.method = String::from("POST");
    req.uri = String::from("/a");
    assert_eq!(server.dispatch(&req), None);
    req.uri = String::from("/b");
    assert_eq!(server.dispatch(&req), Some(1));
    req.method = String::from("get");
    req.uri = String::from("/a");
    assert_eq!(server.dispatch(&req), None);
}

#[test]
fn unmatched_request_gets_not_found() {
    let server: HttpServer<FixedStatus> = HttpServer::new();
    let req = Request::new();
    let out = server.handle_request(&req);
    assert_eq!(out, b"HTTP/1.1 404 Not Found\n\n".to_vec());
}

#[test]
fn echo_round_trip() {
    let mut server: HttpServer<EchoBody> = HttpServer::new();
    server.post("/", EchoBody);
    let input = b"POST / HTTP/1.1\nContent-Length: 4\n\nping";
    let (req, used) = parse_request_header(input, false).expect("complete message");
    assert_eq!(used, input.len());
    let out = server.handle_request(&req);
    assert_eq!(out, b"HTTP/1.1 200 OK\n\nping".to_vec());
}
