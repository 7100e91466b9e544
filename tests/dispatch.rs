use xmlrpc_server::http::create_request;
use xmlrpc_server::parse::{self, DecodeError};
use xmlrpc_server::server::{on_decode_fail, on_encode_fail, on_missing_method, Server};
use xmlrpc_server::value::{CallValue, ResponseValue, Value};

type Handler = Box<dyn Fn(Vec<Value>) -> ResponseValue>;

fn echo_count(params: Vec<Value>) -> ResponseValue {
    ResponseValue::Success { params: vec![Value::Int(params.len() as i32)] }
}

fn server() -> Server<Handler> {
    let mut s: Server<Handler> = Server::new();
    s.register_value("count".to_string(), Box::new(echo_count));
    s.register_value("first".to_string(), Box::new(|mut p: Vec<Value>| {
        if p.is_empty() {
            ResponseValue::Fault { code: 1, message: "empty".to_string() }
        } else {
            ResponseValue::Success { params: vec![p.remove(0)] }
        }
    }));
    s
}

#[test]
fn dispatches_by_name() {
    let s = server();
    let r = s.handle(CallValue { name: "count".to_string(), params: vec![Value::Bool(true), Value::Int(3)] });
    assert_eq!(r, ResponseValue::Success { params: vec![Value::Int(2)] });
    let r = s.handle(CallValue { name: "first".to_string(), params: vec![] });
    assert_eq!(r, ResponseValue::Fault { code: 1, message: "empty".to_string() });
}

#[test]
fn unknown_method_gets_fallback() {
    let mut s = server();
    let r = s.handle(CallValue { name: "Count".to_string(), params: vec![] });
    assert_eq!(r, ResponseValue::Fault { code: 404, message: "Requested method does not exist".to_string() });
    assert_eq!(on_missing_method(vec![]), r);
    s.set_on_missing(Box::new(|_p: Vec<Value>| ResponseValue::Success { params: vec![] }));
    let r = s.handle(CallValue { name: "nothing".to_string(), params: vec![] });
    assert_eq!(r, ResponseValue::Success { params: vec![] });
}

#[test]
fn later_registration_wins() {
    let mut s = server();
    s.register_value("count".to_string(), Box::new(|_p: Vec<Value>| ResponseValue::Success { params: vec![Value::Int(-1)] }));
    let r = s.handle(CallValue { name: "count".to_string(), params: vec![] });
    assert_eq!(r, ResponseValue::Success { params: vec![Value::Int(-1)] });
}

#[test]
fn bridge_failure_faults() {
    let err = DecodeError { message: "expected i32".to_string() };
    assert_eq!(
        on_decode_fail(&err),
        ResponseValue::Fault { code: 400, message: "Failed to decode request: expected i32".to_string() }
    );
    assert_eq!(
        on_encode_fail(&err),
        ResponseValue::Fault { code: 500, message: "Failed to encode response: expected i32".to_string() }
    );
}

#[test]
fn handles_http_request() {
    let s = server();
    let call = CallValue { name: "count".to_string(), params: vec![Value::String("a<&>b".into())] };
    let body = call.to_xml();
    let mut raw = format!("POST /RPC2 HTTP/1.1\r\nContent-Length: {}\r\n\r\n", body.len()).into_bytes();
    raw.extend_from_slice(&body);
    let (req, _) = create_request(&raw, None).unwrap();
    let resp = s.handle_outer(&req);
    assert_eq!(resp.status_code().0, 200);
    assert_eq!(resp.headers()[0].value, b"text/xml".to_vec());
    let text = resp.raw_print(false, 0);
    let pos = text.windows(4).position(|w| w == b"\r\n\r\n").unwrap();
    let decoded = parse::response_value(&text[pos + 4..]).unwrap();
    assert_eq!(decoded, ResponseValue::Success { params: vec![Value::Int(1)] });
}

#[test]
fn bad_http_requests_get_400() {
    let s = server();
    let (req, _) = create_request(b"POST / HTTP/1.1\r\n\r\n", None).unwrap();
    let resp = s.handle_outer(&req);
    assert_eq!(resp.status_code().0, 400);
    assert_eq!(resp.data_length(), 0);
    let (req, _) = create_request(b"POST / HTTP/1.1\r\nContent-Length: 3\r\n\r\nabc", None).unwrap();
    let resp = s.handle_outer(&req);
    assert_eq!(resp.status_code().0, 400);
    assert!(resp.headers().is_empty());
}

#[test]
fn text_is_escaped_and_restored() {
    let v = Value::String("1 < 2 & 3 > 2 \u{e9}".into());
    let bytes = v.to_xml();
    assert_eq!(String::from_utf8(bytes.clone()).unwrap(), "<string>1 &lt; 2 &amp; 3 &gt; 2 \u{e9}</string>");
    assert_eq!(parse::xml(&bytes).unwrap(), v);
    assert_eq!(parse::xml(b"<string>&quot;&apos;</string>").unwrap(), Value::String("\"'".into()));
    assert!(parse::xml(b"<string>&bogus;</string>").is_err());
}

#[test]
fn writes_exact_xml() {
    assert_eq!(Value::Int(-33).to_xml(), b"<i4>-33</i4>".to_vec());
    assert_eq!(Value::Int(i32::MIN).to_xml(), b"<i4>-2147483648</i4>".to_vec());
    assert_eq!(Value::Bool(true).to_xml(), b"<boolean>1</boolean>".to_vec());
    assert_eq!(
        ResponseValue::Fault { code: 4, message: "x".into() }.to_xml(),
        b"<methodResponse><fault><value><struct><member><name>faultCode</name><value><i4>4</i4></value></member><member><name>faultString</name><value><string>x</string></value></member></struct></value></fault></methodResponse>".to_vec()
    );
}

#[test]
fn decode_errors() {
    assert!(parse::xml(b"<boolean>2</boolean>").is_err());
    assert!(parse::xml(b"<int>2147483648</int>").is_err());
    assert_eq!(parse::xml(b"<int>-2147483648</int>").unwrap(), Value::Int(i32::MIN));
    assert!(parse::xml(b"<float>1</float>").is_err());
    assert!(parse::xml(b"<struct><member><name>a</name></member></struct>").is_err());
    assert!(parse::xml(b"<struct><member><value><i4>1</i4></value></member></struct>").is_err());
    assert!(parse::call_value(b"<methodCall><params></params></methodCall>").is_err());
    assert!(parse::response_value(b"<methodResponse></methodResponse>").is_err());
    assert!(parse::response_value(
        b"<methodResponse><fault><value><struct><member><name>faultCode</name><value><i4>1</i4></value></member></struct></value></fault></methodResponse>"
    ).is_err());
}

#[test]
fn struct_members_last_write_wins() {
    let v = parse::xml(
        b"<struct><member><name>a</name><value><i4>1</i4></value></member><member><name>b</name><value><i4>2</i4></value></member><member><name>a</name><value><i4>3</i4></value></member></struct>",
    )
    .unwrap();
    assert_eq!(
        v,
        Value::Struct(vec![("a".to_string(), Value::Int(3)), ("b".to_string(), Value::Int(2))])
    );
}

#[test]
fn struct_member_order_in_source() {
    let foo_first = parse::xml(
        b"<struct><member><name>foo</name><value><i4>42</i4></value></member><member><name>bar</name><value><string>baz</string></value></member></struct>",
    )
    .unwrap();
    let bar_first = parse::xml(
        b"<struct><member><name>bar</name><value><string>baz</string></value></member><member><name>foo</name><value><i4>42</i4></value></member></struct>",
    )
    .unwrap();
    assert_eq!(foo_first, bar_first);
    assert_eq!(
        foo_first,
        Value::Struct(vec![
            ("bar".to_string(), Value::String("baz".into())),
            ("foo".to_string(), Value::Int(42)),
        ])
    );
}

#[test]
fn handler_sees_same_struct_for_both_orders() {
    let mut s: Server<Handler> = Server::new();
    s.register_value("m".to_string(), Box::new(|p: Vec<Value>| ResponseValue::Success { params: p }));
    let a = b"<methodCall><methodName>m</methodName><params><param><value><struct><member><name>foo</name><value><i4>42</i4></value></member><member><name>bar</name><value><string>baz</string></value></member></struct></value></param></params></methodCall>";
    let b = b"<methodCall><methodName>m</methodName><params><param><value><struct><member><name>bar</name><value><string>baz</string></value></member><member><name>foo</name><value><i4>42</i4></value></member></struct></value></param></params></methodCall>";
    let ra = s.handle(parse::call_value(a).unwrap());
    let rb = s.handle(parse::call_value(b).unwrap());
    assert_eq!(ra, rb);
}

#[test]
fn call_without_params() {
    let c = parse::call_value(b"<?xml version=\"1.0\"?>\n<methodCall><methodName>ping</methodName></methodCall>\n").unwrap();
    assert_eq!(c, CallValue { name: "ping".to_string(), params: vec![] });
}
