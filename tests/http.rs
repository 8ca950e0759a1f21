use fetch::client::split_url;
use fetch::http::{
    HTTPHeaders, HTTPRequest, HTTPResponse, HTTPVersion, Method, Protocol, RequestLine, StatusCode,
    StatusLine,
};
use fetch::text::{parse_u16, parse_usize, trim_text, IntError};
use fetch::Client;

#[test]
fn test_http_request_line_to_string() {
    let req_line = RequestLine::new(Method::GET, "/hello");
    assert_eq!(req_line.to_string(), "GET /hello HTTP/1.1\r\n".to_string());
}

#[test]
fn test_http_header_to_string() {
    let headers = HTTPHeaders::from_pairs(vec![("foo".to_string(), "bar".to_string())]);
    assert_eq!(headers.to_string(), "foo: bar\r\n".to_string());
    let headers = HTTPHeaders::from_pairs(vec![
        ("foo".to_string(), "bar".to_string()),
        ("age".to_string(), "55".to_string()),
    ]);
    assert!(headers.to_string().contains("foo: bar\r\n"));
    assert!(headers.to_string().contains("age: 55\r\n"));
}

#[test]
fn test_http_request_to_string() {
    let req = HTTPRequest::new(Method::GET, "example.com", "/hello", None);
    assert_eq!(
        req.to_string(),
        "GET /hello HTTP/1.1\r\nHost: example.com\r\n\r\n".to_string()
    );
}

#[test]
fn test_http_version_from_vecu8() {
    let v: &[u8] = b"HTTP/1.1";
    assert_eq!(
        Ok(HTTPVersion(String::from("HTTP/1.1"))),
        HTTPVersion::from_bytes(v)
    );
}

#[test]
fn test_status_code_from_slice_u8() {
    let slc: &[u8] = b"200";
    assert_eq!(StatusCode::from_bytes(slc), Ok(StatusCode(200)));
}

#[test]
fn request_with_body_to_string() {
    let req = HTTPRequest::new(Method::POST, "h", "/", Some("x=1".to_string()));
    assert_eq!(req.to_string(), "POST / HTTP/1.1\r\nHost: h\r\n\r\nx=1\r\n");
}

#[test]
fn later_header_value_replaces_earlier() {
    let headers = HTTPHeaders::from_pairs(vec![
        ("a".to_string(), "1".to_string()),
        ("b".to_string(), "2".to_string()),
        ("a".to_string(), "3".to_string()),
    ]);
    assert_eq!(headers.to_string(), "a: 3\r\nb: 2\r\n");
    assert_eq!(headers.get("a"), Some(&"3".to_string()));
    assert_eq!(headers.get("c"), None);
}

#[test]
fn method_names() {
    assert_eq!(Method::parse("post"), Ok(Method::POST));
    assert_eq!(Method::parse("TRACE"), Ok(Method::TRACE));
    assert_eq!(Method::parse("Get"), Err("invalid HTTP method: Get".to_string()));
    assert_eq!(Method::OPTIONS.to_string(), "OPTIONS");
}

#[test]
fn protocol_schemes() {
    assert_eq!(Protocol::parse("http"), Ok(Protocol::HTTP));
    assert_eq!(Protocol::parse("https"), Ok(Protocol::HTTPS));
    assert_eq!(Protocol::parse("ftp"), Err("invalid protocol schema".to_string()));
}

#[test]
fn request_line_parse() {
    let l = RequestLine::parse("GET /index.html HTTP/1.0").unwrap();
    assert_eq!(l.method, Method::GET);
    assert_eq!(l.request_target, "/index.html");
    assert_eq!(l.http_version, "HTTP/1.0");
    assert_eq!(
        RequestLine::parse("GET /index.html").unwrap_err(),
        "failed to get HTTP version"
    );
    assert_eq!(RequestLine::parse("GET").unwrap_err(), "failed to get request target");
    assert_eq!(RequestLine::parse("FETCH / HTTP/1.1").unwrap_err(), "invalid HTTP method: FETCH");
}

#[test]
fn status_line_parse() {
    let l = StatusLine::parse("HTTP/1.1 404 Not Found").unwrap();
    assert_eq!(l.http_version, HTTPVersion("HTTP/1.1".to_string()));
    assert_eq!(l.status_code, StatusCode(404));
    assert_eq!(l.status_text, "Not");
    assert_eq!(StatusLine::parse("HTTP/1.1").unwrap_err(), "no status code to be parsed");
    assert_eq!(StatusLine::parse("HTTP/1.1 200").unwrap_err(), "failed to get status text");
    assert_eq!(StatusLine::parse("FTP/1 200 OK").unwrap_err(), "invalid HTTP Version: FTP/1");
    assert_eq!(
        StatusLine::parse("HTTP/1.1 2x0 OK").unwrap_err(),
        "error parsing status code: 2x0"
    );
}

#[test]
fn status_line_from_bytes() {
    let l = StatusLine::from_bytes(b"HTTP/1.1 200 OK\r").unwrap();
    assert_eq!(l.status_code, StatusCode(200));
    assert_eq!(l.status_text, "OK\r");
    assert_eq!(
        StatusLine::from_bytes(b"HTTP/1.1 99999 OK").unwrap_err(),
        "number too large to fit in target type"
    );
    assert!(StatusLine::from_bytes(&[0xff, b' ', b'2']).is_err());
}

#[test]
fn status_code_errors() {
    assert_eq!(StatusCode::from_bytes(b""), Err("cannot parse integer from empty string".to_string()));
    assert_eq!(StatusCode::from_bytes(b"2a"), Err("invalid digit found in string".to_string()));
    assert_eq!(StatusCode::parse("+7"), Ok(StatusCode(7)));
    assert!(HTTPVersion::parse("http/1.1").is_err());
}

#[test]
fn integer_parsing() {
    assert_eq!(parse_u16("65535"), Ok(65535));
    assert_eq!(parse_u16("65536"), Err(IntError::PosOverflow));
    assert_eq!(parse_u16("+"), Err(IntError::InvalidDigit));
    assert_eq!(parse_u16("-1"), Err(IntError::InvalidDigit));
    assert_eq!(parse_usize("0012"), Ok(12));
    assert_eq!(parse_usize(""), Err(IntError::Empty));
}

#[test]
fn trimming() {
    assert_eq!(trim_text(" \t value \r"), "value");
    assert_eq!(trim_text("   "), "");
    assert_eq!(trim_text("\u{3000}a b\u{a0}"), "a b");
}

#[test]
fn headers_from_byte_lines() {
    let lines: Vec<Vec<u8>> = vec![
        b"HTTP/1.1 200 OK\r".to_vec(),
        b"Content-Length: 4\r".to_vec(),
        b"no colon here\r".to_vec(),
        b"\r".to_vec(),
        b"body".to_vec(),
    ];
    let mut pos = 1;
    let h = HTTPHeaders::new(&lines, &mut pos).unwrap();
    assert_eq!(pos, 4);
    assert_eq!(h.to_string(), "Content-Length: 4\r\n");
}

#[test]
fn headers_from_text_lines() {
    let lines = vec!["Host: a:b ".to_string(), "".to_string(), "rest".to_string()];
    let mut pos = 0;
    let h = HTTPHeaders::new_from_string_iter(&lines, &mut pos).unwrap();
    assert_eq!(pos, 2);
    assert_eq!(h.get("Host"), Some(&"a:b".to_string()));
}

#[test]
fn request_parse() {
    let lines = vec![
        "POST /x HTTP/1.1".to_string(),
        "Host: example.com".to_string(),
        "".to_string(),
        "a=1".to_string(),
        "&b=2".to_string(),
    ];
    let r = HTTPRequest::parse(&lines).unwrap();
    assert_eq!(r.request_line.method, Method::POST);
    assert_eq!(r.body, Some("a=1&b=2".to_string()));
    assert_eq!(r.headers.get("Host"), Some(&"example.com".to_string()));
    assert_eq!(HTTPRequest::parse(&[]).unwrap_err(), "failed to get request line");
    let r = HTTPRequest::parse(&lines[..3]).unwrap();
    assert_eq!(r.body, None);
}

#[test]
fn response_parse() {
    let lines: Vec<Vec<u8>> = vec![
        b"HTTP/1.1 200 OK\r".to_vec(),
        b"Content-Length: 12\r".to_vec(),
        b"\r".to_vec(),
        b"hello".to_vec(),
        b"world".to_vec(),
        b"more".to_vec(),
    ];
    let r = HTTPResponse::parse(&lines).unwrap();
    assert_eq!(r.status_line.status_code, StatusCode(200));
    assert_eq!(r.body, Some("hello\n".to_string()));
    let missing: Vec<Vec<u8>> = vec![b"HTTP/1.1 200 OK\r".to_vec(), b"\r".to_vec()];
    assert_eq!(
        HTTPResponse::parse(&missing).unwrap_err(),
        "HTTP header doesn't have Content-Length header in it"
    );
    assert_eq!(HTTPResponse::parse(&[]).unwrap_err(), "failed to get status line");
}

#[test]
fn url_splitting() {
    assert_eq!(
        split_url("http://example.com/hello"),
        ("http".to_string(), "example.com".to_string(), "hello/".to_string())
    );
    assert_eq!(
        split_url("example.com"),
        ("http".to_string(), "example.com".to_string(), "/".to_string())
    );
    assert_eq!(
        split_url("https://a.b"),
        ("https".to_string(), "a.b".to_string(), "/".to_string())
    );
}

#[test]
fn client_uses_public_resolver() {
    let c = Client::new();
    assert_eq!(c.dns_client.server, [8, 8, 8, 8]);
    assert_eq!(c.dns_client.port, 53);
    let d = fetch::client::new();
    assert_eq!(d.dns_client.port, 53);
}

#[test]
fn body_reading_steps() {
    assert_eq!(fetch::http::body_step(12, 5), Some(6));
    assert_eq!(fetch::http::body_step(6, 5), None);
    assert_eq!(fetch::http::body_step(0, 0), None);
}

#[test]
fn scheme_splitting() {
    assert_eq!(
        fetch::client::split_scheme("http://example.com"),
        Ok(("http".to_string(), "example.com".to_string()))
    );
    assert_eq!(
        fetch::client::split_scheme("example.com"),
        Err("invalid URL passed: example.com".to_string())
    );
}
