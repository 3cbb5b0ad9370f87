use greymd::http::{HttpRequest, HttpResponse};

fn text_of(resp: &HttpResponse) -> String {
    String::from_utf8(resp.to_bytes()).unwrap()
}

#[test]
fn response_ok_formats_correctly() {
    let resp = HttpResponse::ok("text/html", b"<h1>Hi</h1>".to_vec());
    let text = text_of(&resp);
    assert!(text.starts_with("HTTP/1.1 200 OK\r\n"));
    assert!(text.contains("Content-Type: text/html\r\n"));
    assert!(text.contains("Content-Length: 11\r\n"));
    assert!(text.ends_with("<h1>Hi</h1>"));
}

#[test]
fn response_not_found_has_404_status() {
    let text = text_of(&HttpResponse::not_found());
    assert!(text.starts_with("HTTP/1.1 404 Not Found\r\n"));
}

#[test]
fn response_method_not_allowed_has_405_status() {
    let text = text_of(&HttpResponse::method_not_allowed());
    assert!(text.starts_with("HTTP/1.1 405 Method Not Allowed\r\n"));
}

#[test]
fn response_contains_correct_content_length() {
    let body = b"hello world".to_vec();
    let resp = HttpResponse::ok("text/plain", body);
    let text = text_of(&resp);
    assert!(text.contains("Content-Length: 11\r\n"));
}

#[test]
fn parse_valid_get_request() {
    let req = HttpRequest::parse("GET /index.html HTTP/1.1\r\n").unwrap();
    assert_eq!(req.method, "GET");
    assert_eq!(req.path, "/index.html");
}

#[test]
fn parse_post_request_extracts_method() {
    let req = HttpRequest::parse("POST /upload HTTP/1.1\r\n").unwrap();
    assert_eq!(req.method, "POST");
    assert_eq!(req.path, "/upload");
}

#[test]
fn parse_empty_request_returns_none() {
    assert!(HttpRequest::parse("").is_none());
}

#[test]
fn parse_splits_query_at_first_question_mark() {
    let req = HttpRequest::parse("GET /?css HTTP/1.1").unwrap();
    assert_eq!(req.path, "/");
    assert_eq!(req.query.as_deref(), Some("css"));
    let req = HttpRequest::parse("GET /a?b?c HTTP/1.1").unwrap();
    assert_eq!(req.path, "/a");
    assert_eq!(req.query.as_deref(), Some("b?c"));
    let req = HttpRequest::parse("GET /plain HTTP/1.1").unwrap();
    assert!(req.query.is_none());
}

#[test]
fn parse_without_version_and_odd_spacing() {
    let req = HttpRequest::parse("  GET /x  ").unwrap();
    assert_eq!(req.method, "GET");
    assert_eq!(req.path, "/x");
    let req = HttpRequest::parse("GET  /x HTTP/1.1").unwrap();
    assert_eq!(req.method, "GET");
    assert_eq!(req.path, "");
    assert!(HttpRequest::parse("GET").is_none());
    assert!(HttpRequest::parse("   \r\n").is_none());
}

#[test]
fn full_response_bytes_are_exact() {
    let resp = HttpResponse::ok("text/plain", b"abc".to_vec());
    assert_eq!(
        text_of(&resp),
        "HTTP/1.1 200 OK\r\nContent-Type: text/plain\r\nContent-Length: 3\r\n\r\nabc"
    );
    let resp = HttpResponse::ok_gzip("text/css", vec![0x1f, 0x8b]);
    let bytes = resp.to_bytes();
    let head = b"HTTP/1.1 200 OK\r\nContent-Type: text/css\r\nContent-Length: 2\r\nContent-Encoding: gzip\r\n\r\n";
    assert_eq!(&bytes[..head.len()], &head[..]);
    assert_eq!(&bytes[head.len()..], &[0x1f, 0x8b]);
}

#[test]
fn not_found_and_method_not_allowed_bodies() {
    assert_eq!(
        text_of(&HttpResponse::not_found()),
        "HTTP/1.1 404 Not Found\r\nContent-Type: text/html\r\nContent-Length: 22\r\n\r\n<h1>404 Not Found</h1>"
    );
    assert_eq!(
        text_of(&HttpResponse::method_not_allowed()),
        "HTTP/1.1 405 Method Not Allowed\r\nContent-Type: text/html\r\nContent-Length: 31\r\n\r\n<h1>405 Method Not Allowed</h1>"
    );
}

#[test]
fn redirect_carries_location() {
    let resp = HttpResponse::redirect("/docs/only.md");
    assert_eq!(resp.status_code, 302);
    assert_eq!(
        text_of(&resp),
        "HTTP/1.1 302 Found\r\nContent-Type: text/html\r\nContent-Length: 0\r\nLocation: /docs/only.md\r\n\r\n"
    );
}

#[test]
fn content_length_counts_bytes_not_chars() {
    let resp = HttpResponse::ok("text/plain", "é€".as_bytes().to_vec());
    assert!(text_of(&resp).contains("Content-Length: 5\r\n"));
    let big = vec![b'x'; 1234];
    let resp = HttpResponse::ok("text/plain", big);
    assert!(text_of(&resp).contains("Content-Length: 1234\r\n"));
}
