use db6::errors::HttpError;
use db6::http::{Body, ContentType, HttpMethod, Request};
use db6::json::{Json, JsonNumber};
use db6::reader::ConnectionReader;

#[test]
fn simple_get_header_parses() {
    let req = Request::from_bytes(b"GET /status HTTP/1.1\r\nHost: localhost").unwrap();
    assert!(matches!(req.method, HttpMethod::GET));
    assert_eq!(req.route, "/status");
    assert_eq!(req.http_version, "HTTP/1.1");
    assert_eq!(req.host, "localhost");
    assert!(req.content_type.is_none());
    assert!(req.content_length.is_none());
    assert!(req.content.is_empty());
}

#[test]
fn post_header_carries_type_and_length() {
    let req = Request::from_bytes(
        b"POST /x HTTP/1.1\r\nHost: a\r\nContent-Type: application/json\r\nContent-Length: 13",
    )
    .unwrap();
    assert!(matches!(req.method, HttpMethod::POST));
    assert!(matches!(req.content_type, Some(ContentType::ApplicationJson)));
    assert_eq!(req.content_length, Some(13));
}

#[test]
fn body_headers_ignored_on_get() {
    let req = Request::from_bytes(
        b"GET / HTTP/1.1\r\nHost: a\r\nContent-Type: application/json\r\nContent-Length: 13",
    )
    .unwrap();
    assert!(req.content_type.is_none());
    assert!(req.content_length.is_none());
}

#[test]
fn malformed_request_line_rejected() {
    assert!(matches!(
        Request::from_bytes(b"GET /x\r\nHost: a"),
        Err(HttpError::MalformedRequestLine)
    ));
    assert!(matches!(
        Request::from_bytes(b"GET  /x HTTP/1.1\r\nHost: a"),
        Err(HttpError::MalformedRequestLine)
    ));
}

#[test]
fn unsupported_method_rejected() {
    assert!(matches!(
        Request::from_bytes(b"FETCH /x HTTP/1.1\r\nHost: a"),
        Err(HttpError::UnsupportedMethod)
    ));
}

#[test]
fn missing_host_rejected() {
    assert!(matches!(Request::from_bytes(b"GET /x HTTP/1.1"), Err(HttpError::MissingHost)));
    // An empty host value counts as an ignored line.
    assert!(matches!(
        Request::from_bytes(b"GET /x HTTP/1.1\r\nHost: "),
        Err(HttpError::MissingHost)
    ));
}

#[test]
fn unsupported_content_type_rejected() {
    assert!(matches!(
        Request::from_bytes(b"POST /x HTTP/1.1\r\nHost: a\r\nContent-Type: image/png"),
        Err(HttpError::UnsupportedContentType)
    ));
}

#[test]
fn content_type_ignored_without_body_support() {
    // The same unknown value is not even inspected on GET.
    let req = Request::from_bytes(b"GET /x HTTP/1.1\r\nHost: a\r\nContent-Type: image/png");
    assert!(req.is_ok());
}

#[test]
fn bad_content_length_treated_as_absent() {
    let req = Request::from_bytes(
        b"POST /x HTTP/1.1\r\nHost: a\r\nContent-Length: nonsense",
    )
    .unwrap();
    assert!(req.content_length.is_none());
}

#[test]
fn invalid_utf8_rejected() {
    assert!(matches!(Request::from_bytes(&[0xFF, 0xFE]), Err(HttpError::Utf8Decode)));
}

#[test]
fn later_host_wins() {
    let req = Request::from_bytes(b"GET / HTTP/1.1\r\nHost: one\r\nHost: two").unwrap();
    assert_eq!(req.host, "two");
}

#[test]
fn method_table() {
    for (name, body) in [
        ("GET", false),
        ("POST", true),
        ("PUT", true),
        ("DELETE", true),
        ("PATCH", true),
        ("HEAD", false),
        ("OPTIONS", true),
        ("TRACE", false),
        ("CONNECT", false),
    ] {
        let chars: Vec<char> = name.chars().collect();
        let m = HttpMethod::from_chars(&chars).unwrap();
        assert_eq!(m.name(), name);
        assert_eq!(m.supports_request_body(), body);
    }
    let bad: Vec<char> = "get".chars().collect();
    assert_eq!(HttpMethod::from_chars(&bad), Err(HttpError::UnsupportedMethod));
}

#[test]
fn content_type_table() {
    for name in ["text/plain", "application/json", "application/octet-stream"] {
        let chars: Vec<char> = name.chars().collect();
        let c = ContentType::from_chars(&chars).unwrap();
        assert_eq!(c.name(), name);
    }
    assert_eq!(ContentType::Absent.name(), "");
}

#[test]
fn get_request_completes_immediately() {
    let mut r = ConnectionReader::new();
    let done = r
        .consume_chunk(b"GET /status HTTP/1.1\r\nHost: localhost\r\n\r\n")
        .unwrap();
    assert!(done);
    let (req, body) = r.into_request();
    assert!(matches!(req.method, HttpMethod::GET));
    assert!(req.content_length.is_none());
    assert_eq!(req.route, "/status");
    assert!(body.is_empty());
}

#[test]
fn body_split_across_chunks_completes_only_at_declared_length() {
    let mut r = ConnectionReader::new();
    let header =
        b"POST /x HTTP/1.1\r\nHost: a\r\nContent-Type: application/json\r\nContent-Length: 13\r\n\r\n";
    assert_eq!(r.consume_chunk(header).unwrap(), false);
    assert_eq!(r.consume_chunk(b"{\"a\":1,").unwrap(), false);
    assert_eq!(r.consume_chunk(b"\"b\":2}").unwrap(), true);
    let (req, body) = r.into_request();
    assert_eq!(req.content_length, Some(13));
    assert_eq!(body, b"{\"a\":1,\"b\":2}");
    match Json::parse(&body).unwrap() {
        Json::Object(obj) => {
            match obj.lookup(&"a".to_string()) {
                Some(Json::Number(JsonNumber::Int(n))) => assert_eq!(*n, 1),
                _ => panic!("expected a -> 1"),
            }
            match obj.lookup(&"b".to_string()) {
                Some(Json::Number(JsonNumber::Int(n))) => assert_eq!(*n, 2),
                _ => panic!("expected b -> 2"),
            }
        },
        _ => panic!("expected object body"),
    }
}

#[test]
fn header_with_part_of_body_in_one_chunk() {
    let mut r = ConnectionReader::new();
    let done = r
        .consume_chunk(b"POST /x HTTP/1.1\r\nHost: a\r\nContent-Length: 5\r\n\r\nab")
        .unwrap();
    assert!(!done);
    assert_eq!(r.consume_chunk(b"cde").unwrap(), true);
    let (_, body) = r.into_request();
    assert_eq!(body, b"abcde");
}

#[test]
fn terminator_split_across_chunks_is_found() {
    let mut r = ConnectionReader::new();
    assert_eq!(r.consume_chunk(b"GET / HTTP/1.1\r\nHost: a\r\n").unwrap(), false);
    assert_eq!(r.consume_chunk(b"\r\n").unwrap(), true);
}

#[test]
fn bad_header_fails_the_read() {
    let mut r = ConnectionReader::new();
    assert_eq!(
        r.consume_chunk(b"FETCH / HTTP/1.1\r\nHost: a\r\n\r\n"),
        Err(HttpError::UnsupportedMethod)
    );
}

#[test]
fn body_renders_by_content_type() {
    assert_eq!(Body::TextPlain("hello".to_string()).to_text(), "hello");
    assert_eq!(Body::ApplicationOctetStream(vec![0x0F, 0xA0, 0x00]).to_text(), "0F A0 00");
    assert_eq!(Body::Empty.to_text(), "");
    let j = Json::parse(b"[1,2]").unwrap();
    assert_eq!(Body::ApplicationJson(j).to_text(), "[1, 2]");
}

#[test]
fn header_may_arrive_in_many_small_chunks() {
    let mut r = ConnectionReader::new();
    let wire = b"GET /a HTTP/1.1\r\nHost: h\r\n\r\n";
    let mut done = false;
    for b in wire.iter() {
        done = r.consume_chunk(&[*b]).unwrap();
    }
    assert!(done);
    let (req, body) = r.into_request();
    assert_eq!(req.route, "/a");
    assert!(body.is_empty());
}

#[test]
fn non_ascii_route_is_decoded() {
    let req = Request::from_bytes("GET /caf\u{e9} HTTP/1.1\r\nHost: a".as_bytes()).unwrap();
    assert_eq!(req.route, "/caf\u{e9}");
}

#[test]
fn huge_content_length_treated_as_absent() {
    let req = Request::from_bytes(
        b"POST /x HTTP/1.1\r\nHost: a\r\nContent-Length: 99999999999999999999999999999999",
    )
    .unwrap();
    assert!(req.content_length.is_none());
}

#[test]
fn headers_without_separator_are_ignored_lines() {
    let req = Request::from_bytes(b"GET / HTTP/1.1\r\nnonsense line\r\nHost: a").unwrap();
    assert_eq!(req.host, "a");
}
