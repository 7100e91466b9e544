use xmlrpc_server::http::{create_request, next_step, ConnectionStep, Header, HTTPVersion, Method, RequestError, Response, StatusCode};

fn header(field: &str, value: &str) -> Header {
    Header { field: field.as_bytes().to_vec(), value: value.as_bytes().to_vec() }
}

fn count_field(bytes: &[u8], field: &str) -> usize {
    let text = String::from_utf8(bytes.to_vec()).unwrap();
    text.split("\r\n").filter(|l| l.starts_with(&format!("{}:", field))).count()
}

#[test]
fn reads_request_with_body() {
    let raw = b"POST /RPC2 HTTP/1.1\r\nHost: example\r\ncontent-length: 5\r\n\r\nhelloEXTRA";
    let (req, used) = create_request(raw, Some("127.0.0.1:9".to_string())).unwrap();
    assert_eq!(*req.method(), Method::Post);
    assert_eq!(req.url(), b"/RPC2");
    assert_eq!(*req.http_version(), HTTPVersion(1, 1));
    assert_eq!(req.headers().len(), 2);
    assert_eq!(req.headers()[0].field, b"Host".to_vec());
    assert_eq!(req.headers()[0].value, b"example".to_vec());
    assert_eq!(req.body_length(), 5);
    assert_eq!(req.body().unwrap().as_slice(), b"hello");
    assert_eq!(used, raw.len() - 5);
    assert_eq!(req.remote_addr().unwrap(), "127.0.0.1:9");
}

#[test]
fn reads_request_without_body() {
    let raw = b"GET / HTTP/1.0\r\n\r\n";
    let (req, used) = create_request(raw, None).unwrap();
    assert_eq!(*req.method(), Method::Get);
    assert!(req.body().is_none());
    assert_eq!(req.body_length(), 0);
    assert_eq!(used, raw.len());
    assert!(req.remote_addr().is_none());
}

#[test]
fn truncated_head_is_end_of_stream() {
    let raw = b"POST /RPC2 HTTP/1.1\r\nHost: example\r\nContent-Length: 5\r\n\r\nhello";
    for cut in 0..(raw.len() - 5) {
        assert_eq!(create_request(&raw[..cut], None).err(), Some(RequestError::UnexpectedEof));
    }
}

#[test]
fn request_line_splits_on_runs_of_blanks() {
    let (req, _) = create_request(b"POST  /x \tHTTP/1.1 \r\n\r\n", None).unwrap();
    assert_eq!(*req.method(), Method::Post);
    assert_eq!(req.url(), b"/x");
    assert_eq!(*req.http_version(), HTTPVersion(1, 1));
    assert_eq!(create_request(b"GET / HTTP/1.1 extra\r\n\r\n", None).err(), Some(RequestError::Malformed));
}

#[test]
fn connection_steps() {
    let raw = b"GET / HTTP/1.0\r\n\r\nGET";
    match next_step(raw, None) {
        ConnectionStep::Answer(_, used) => assert_eq!(used, raw.len() - 3),
        _ => panic!("expected an answer"),
    }
    assert!(matches!(next_step(b"GET / HT", None), ConnectionStep::ReadMore));
    assert!(matches!(next_step(b"BREW / HTTP/1.0\r\n\r\n", None), ConnectionStep::Close));
}

#[test]
fn oversized_length_is_invalid() {
    assert_eq!(
        create_request(b"POST / HTTP/1.1\r\nContent-Length: 99999999999999999999999\r\n\r\n", None).err(),
        Some(RequestError::InvalidLength)
    );
    let (req, _) = create_request(b"POST / HTTP/1.1\r\nContent-Length: +2\r\n\r\nab", None).unwrap();
    assert_eq!(req.body_length(), 2);
}

#[test]
fn short_body_is_end_of_stream() {
    let raw = b"POST / HTTP/1.1\r\nContent-Length: 10\r\n\r\nabc";
    assert_eq!(create_request(raw, None).err(), Some(RequestError::UnexpectedEof));
}

#[test]
fn request_errors() {
    assert_eq!(create_request(b"FETCH / HTTP/1.1\r\n\r\n", None).err(), Some(RequestError::InvalidMethod));
    assert_eq!(create_request(b"GET / HTTP/4.0\r\n\r\n", None).err(), Some(RequestError::InvalidVersion));
    assert_eq!(create_request(b"GET /\r\n\r\n", None).err(), Some(RequestError::Malformed));
    assert_eq!(create_request(b"GET / HTTP/1.1\r\nNoColon\r\n\r\n", None).err(), Some(RequestError::Malformed));
    assert_eq!(create_request(b"GET / HTTP/1.1\r\nX: \xc3\xa9\r\n\r\n", None).err(), Some(RequestError::NotAscii));
    assert_eq!(
        create_request(b"GET / HTTP/1.1\r\nContent-Length: x1\r\n\r\n", None).err(),
        Some(RequestError::InvalidLength)
    );
}

#[test]
fn protected_headers_are_dropped() {
    let mut r = Response::empty_400();
    r.add_header(header("Connection", "close"));
    r.add_header(header("trailer", "x"));
    r.add_header(header("Transfer-Encoding", "chunked"));
    r.add_header(header("UPGRADE", "websocket"));
    assert_eq!(r.headers().len(), 0);
}

#[test]
fn content_length_sets_data_length() {
    let mut r = Response::empty_400();
    r.add_header(header("Content-Length", "12"));
    assert_eq!(r.headers().len(), 0);
    assert_eq!(r.data_length(), 12);
    r.add_header(header("Content-Length", "oops"));
    assert_eq!(r.data_length(), 12);
    r.add_header(header("Content-Length", "+5"));
    assert_eq!(r.data_length(), 5);
    r.add_header(header("Content-Length", "99999999999999999999999"));
    assert_eq!(r.data_length(), 5);
    let r2 = Response::new(StatusCode(200), vec![header("Content-Length", "+5")], None, 0);
    assert_eq!(r2.data_length(), 5);
    let bytes = r.raw_print(false, 0);
    assert_eq!(count_field(&bytes, "Content-Length"), 1);
}

#[test]
fn content_type_set_twice_keeps_one() {
    let r = Response::from_data("text/plain", None)
        .with_header(header("content-type", "text/xml"))
        .with_header(header("X-Other", "1"))
        .with_header(header("X-Other", "2"));
    let hs = r.headers();
    assert_eq!(hs.len(), 3);
    assert_eq!(hs[0].field, b"Content-Type".to_vec());
    assert_eq!(hs[0].value, b"text/xml".to_vec());
    let bytes = r.raw_print(false, 0);
    assert_eq!(count_field(&bytes, "Content-Type"), 1);
    assert_eq!(count_field(&bytes, "X-Other"), 2);
}

#[test]
fn frames_response() {
    let r = Response::from_data("text/xml", Some(b"<x/>".to_vec()));
    assert_eq!(r.status_code(), StatusCode(200));
    assert_eq!(r.data_length(), 4);
    let bytes = r.raw_print(false, 784111777);
    let text = String::from_utf8(bytes).unwrap();
    assert_eq!(
        text,
        "HTTP/1.0 200 OK\r\nServer: Xml Rpc ArceOS (Rust)\r\nDate: Sun, 06 Nov 1994 08:49:37 GMT\r\nContent-Type: text/xml\r\nContent-Length: 4\r\n\r\n<x/>"
    );
}

#[test]
fn suppresses_body() {
    let r = Response::from_data("text/xml", Some(b"abc".to_vec())).with_status_code(StatusCode(204));
    let text = String::from_utf8(r.raw_print(false, 0)).unwrap();
    assert!(text.starts_with("HTTP/1.0 204 No Content\r\n"));
    assert!(text.ends_with("Content-Length: 3\r\n\r\n"));
    let r = Response::from_data("text/xml", Some(b"abc".to_vec()));
    let text = String::from_utf8(r.raw_print(true, 0)).unwrap();
    assert!(text.ends_with("\r\n\r\n"));
    let r = Response::from_data("text/xml", Some(b"abc".to_vec()))
        .with_header(header("Date", "yesterday"))
        .with_header(header("Server", "mine"));
    let text = String::from_utf8(r.raw_print(false, 0)).unwrap();
    assert!(text.starts_with("HTTP/1.0 200 OK\r\nContent-Type: text/xml\r\nDate: yesterday\r\nServer: mine\r\n"));
    assert!(text.ends_with("abc"));
}

#[test]
fn builds_responses() {
    let r = Response::new(StatusCode(404), vec![header("A", "1"), header("Content-Length", "7")], None, 0);
    assert_eq!(r.status_code(), StatusCode(404));
    assert_eq!(r.headers().len(), 1);
    assert_eq!(r.data_length(), 7);
    let r = r.with_data(Some(b"xy".to_vec()), 2);
    assert_eq!(r.data_length(), 2);
    assert_eq!(StatusCode(404).default_reason_phrase(), "Not Found");
    assert_eq!(StatusCode(799).default_reason_phrase(), "Unknown");
}
