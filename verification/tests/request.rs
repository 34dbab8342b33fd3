use httpserver::headers::HeaderMap;
use httpserver::httprequest::{
    parse_header_line, parse_request_line, HttpRequest, Method, ParseError, Resource, Version,
};

#[test]
fn test_method_into() {
    let m: Method = "GET".into();
    assert_eq!(m, Method::Get);
}

#[test]
fn test_method_from() {
    assert_eq!(Method::from("GET"), Method::Get);
}

#[test]
fn test_version_into() {
    let v: Version = "HTTP/1.1".into();
    assert_eq!(v, Version::Http11);
}

#[test]
fn test_version_from() {
    assert_eq!(Version::from("HTTP/1.1"), Version::Http11);
}

#[test]
fn test_read_http_request() {
    let s = "GET /greeting HTTP/1.1\r\nHost: localhost:3000\r\nUser-Agent: curl/7.54.0\r\nAccept: */*\r\n\r\n".to_string();
    let mut headers_expected = HeaderMap::new();
    headers_expected.insert("Host".to_string(), "localhost:3000".to_string());
    headers_expected.insert("User-Agent".to_string(), "curl/7.54.0".to_string());
    headers_expected.insert("Accept".to_string(), "*/*".to_string());
    let req: HttpRequest = HttpRequest::parse_text(&s).unwrap();

    assert_eq!(Method::Get, req.method);
    assert_eq!(Resource::Path("/greeting".to_string()), req.resource);
    assert_eq!(Version::Http11, req.version);
    assert_eq!(headers_expected, req.headers);
    assert_eq!("".to_string(), req.body);
}

#[test]
fn method_post_is_recognized() {
    assert_eq!(Method::from("POST"), Method::Post);
}

#[test]
fn other_methods_are_uninitialized() {
    assert_eq!(Method::from("DELETE"), Method::Uninitialized);
    assert_eq!(Method::from("get"), Method::Uninitialized);
    assert_eq!(Method::from("GET "), Method::Uninitialized);
    assert_eq!(Method::from("GETS"), Method::Uninitialized);
    assert_eq!(Method::from("POS"), Method::Uninitialized);
    assert_eq!(Method::from(""), Method::Uninitialized);
}

#[test]
fn only_http_1_1_is_a_recognized_version() {
    assert_eq!(Version::from("HTTP/1.0"), Version::Uninitialized);
    assert_eq!(Version::from("HTTP/2"), Version::Uninitialized);
    assert_eq!(Version::from("http/1.1"), Version::Uninitialized);
    assert_eq!(Version::from("HTTP/1.1 "), Version::Uninitialized);
    assert_eq!(Version::from(""), Version::Uninitialized);
}

#[test]
fn request_bytes_parse_like_their_text() {
    let s = "GET /greeting HTTP/1.1\r\nHost: localhost:3000\r\n\
             User-Agent: curl/7.54.0\r\nAccept: */*\r\n\r\n";
    let from_bytes = HttpRequest::parse(s.as_bytes()).unwrap();
    let from_text = HttpRequest::parse_text(s).unwrap();
    assert_eq!(from_bytes, from_text);
    assert_eq!(from_bytes.method, Method::Get);
    assert_eq!(from_bytes.resource, Resource::Path("/greeting".to_string()));
    assert_eq!(from_bytes.version, Version::Http11);
    assert_eq!(from_bytes.headers.len(), 3);
    assert_eq!(from_bytes.headers.get("Host"), Some(&"localhost:3000".to_string()));
    assert_eq!(from_bytes.headers.get("User-Agent"), Some(&"curl/7.54.0".to_string()));
    assert_eq!(from_bytes.headers.get("Accept"), Some(&"*/*".to_string()));
    assert_eq!(from_bytes.body, "");
}

#[test]
fn parsing_twice_gives_equal_requests() {
    let raw = b"POST /submit HTTP/1.1\r\nHost: a\r\nContent-Length: 5\r\n\r\nhello";
    let first = HttpRequest::parse(raw);
    let second = HttpRequest::parse(raw);
    assert_eq!(first, second);
    assert!(first.is_ok());

    let broken = b"GET /x\r\n\r\n";
    assert_eq!(HttpRequest::parse(broken), HttpRequest::parse(broken));
}

#[test]
fn trailing_line_without_blank_line_is_the_body() {
    let req = HttpRequest::parse(b"GET / HTTP/1.1\r\nHost: a\r\nname=value&x=1").unwrap();
    assert_eq!(req.body, "name=value&x=1");
    assert_eq!(req.method, Method::Get);
    assert_eq!(req.headers.get("Host"), Some(&"a".to_string()));
}

#[test]
fn trailing_line_keeps_a_lone_carriage_return() {
    let req = HttpRequest::parse(b"GET / HTTP/1.1\r\npayload\r").unwrap();
    assert_eq!(req.body, "payload\r");
}

#[test]
fn body_after_blank_line_is_kept() {
    let req = HttpRequest::parse(b"POST /p HTTP/1.1\r\nHost: a\r\n\r\nhello").unwrap();
    assert_eq!(req.method, Method::Post);
    assert_eq!(req.body, "hello");
}

#[test]
fn last_body_line_replaces_earlier_ones() {
    let req = HttpRequest::parse(b"GET / HTTP/1.1\r\n\r\nfirst\r\nsecond\r\n").unwrap();
    assert_eq!(req.body, "second");
}

#[test]
fn blank_line_after_body_line_empties_the_body() {
    let req = HttpRequest::parse(b"GET / HTTP/1.1\r\nfirst\r\n\r\n").unwrap();
    assert_eq!(req.body, "");
}

#[test]
fn duplicate_header_names_keep_the_last_value() {
    let raw = b"GET / HTTP/1.1\r\nX-Tag: one\r\nHost: a\r\nX-Tag: two\r\n\r\n";
    let req = HttpRequest::parse(raw).unwrap();
    assert_eq!(req.headers.len(), 2);
    assert_eq!(req.headers.get("X-Tag"), Some(&"two".to_string()));
    assert_eq!(req.headers.get("Host"), Some(&"a".to_string()));
}

#[test]
fn header_names_are_case_sensitive() {
    let req = HttpRequest::parse(b"GET / HTTP/1.1\r\nhost: a\r\nHost: b\r\n\r\n").unwrap();
    assert_eq!(req.headers.len(), 2);
    assert_eq!(req.headers.get("host"), Some(&"a".to_string()));
    assert_eq!(req.headers.get("Host"), Some(&"b".to_string()));
}

#[test]
fn request_line_with_two_tokens_is_malformed() {
    assert_eq!(HttpRequest::parse(b"GET HTTP/1.1\r\n\r\n"), Err(ParseError::MalformedRequestLine));
    assert_eq!(
        HttpRequest::parse(b"GET HTTP/1.1\r\nHost: a\r\n\r\n"),
        Err(ParseError::MalformedRequestLine)
    );
    assert_eq!(HttpRequest::parse(b"HTTP\r\n"), Err(ParseError::MalformedRequestLine));
    assert_eq!(HttpRequest::parse(b"  HTTP/1.1  \r\n"), Err(ParseError::MalformedRequestLine));
    assert_eq!(HttpRequest::parse_text("/x HTTP/1.1"), Err(ParseError::MalformedRequestLine));
}

#[test]
fn line_without_http_is_no_request_line() {
    let req = HttpRequest::parse(b"GET /x\r\n\r\n").unwrap();
    assert_eq!(req.method, Method::Uninitialized);
    assert_eq!(req.resource, Resource::Path("".to_string()));
    assert_eq!(req.version, Version::Http11);
    assert!(req.headers.is_empty());
    assert_eq!(req.body, "");

    let req = HttpRequest::parse(b"GET /x").unwrap();
    assert_eq!(req.method, Method::Uninitialized);
    assert_eq!(req.body, "GET /x");
}

#[test]
fn header_line_without_separator_is_malformed() {
    assert_eq!(
        HttpRequest::parse(b"GET / HTTP/1.1\r\nHost:localhost\r\n\r\n"),
        Err(ParseError::MalformedHeaderLine)
    );
    assert_eq!(HttpRequest::parse(b"a:b"), Err(ParseError::MalformedHeaderLine));
    assert_eq!(HttpRequest::parse(b":"), Err(ParseError::MalformedHeaderLine));
    assert_eq!(HttpRequest::parse(b"Host:"), Err(ParseError::MalformedHeaderLine));
    assert_eq!(HttpRequest::parse(b"Host :x"), Err(ParseError::MalformedHeaderLine));
}

#[test]
fn first_malformed_line_decides_the_error() {
    assert_eq!(
        HttpRequest::parse(b"Host:a\r\nGET HTTP/1.1\r\n"),
        Err(ParseError::MalformedHeaderLine)
    );
    assert_eq!(
        HttpRequest::parse(b"GET HTTP/1.1\r\nHost:a\r\n"),
        Err(ParseError::MalformedRequestLine)
    );
}

#[test]
fn bytes_that_are_not_utf8_are_rejected() {
    assert_eq!(HttpRequest::parse(&[0xff]), Err(ParseError::InvalidEncoding));
    assert_eq!(
        HttpRequest::parse(b"GET / HTTP/1.1\r\nHost: \xc3\x28\r\n\r\n"),
        Err(ParseError::InvalidEncoding)
    );
    // A surrogate and an overlong encoding are no UTF-8 either.
    assert_eq!(HttpRequest::parse(&[0xed, 0xa0, 0x80]), Err(ParseError::InvalidEncoding));
    assert_eq!(HttpRequest::parse(&[0xc0, 0xaf]), Err(ParseError::InvalidEncoding));
    // Invalid encoding is found before any malformed line.
    assert_eq!(HttpRequest::parse(b"GET HTTP/1.1\r\n\xff"), Err(ParseError::InvalidEncoding));
}

#[test]
fn multibyte_text_is_decoded() {
    let raw = "GET /caf\u{e9} HTTP/1.1\r\nX-Name: \u{65e5}\u{672c}\u{8a9e}\r\n\r\n\u{1f600}";
    let req = HttpRequest::parse(raw.as_bytes()).unwrap();
    assert_eq!(req.resource, Resource::Path("/caf\u{e9}".to_string()));
    assert_eq!(req.headers.get("X-Name"), Some(&"\u{65e5}\u{672c}\u{8a9e}".to_string()));
    assert_eq!(req.body, "\u{1f600}");
}

#[test]
fn empty_buffer_gives_the_initial_request() {
    let req = HttpRequest::parse(b"").unwrap();
    assert_eq!(req.method, Method::Uninitialized);
    assert_eq!(req.resource, Resource::Path("".to_string()));
    assert_eq!(req.version, Version::Http11);
    assert_eq!(req.headers, HeaderMap::new());
    assert_eq!(req.body, "");
}

#[test]
fn unrecognized_tokens_are_no_error() {
    let req = HttpRequest::parse(b"DELETE /item HTTP/1.0\r\n\r\n").unwrap();
    assert_eq!(req.method, Method::Uninitialized);
    assert_eq!(req.resource, Resource::Path("/item".to_string()));
    assert_eq!(req.version, Version::Uninitialized);
}

#[test]
fn path_is_kept_verbatim() {
    let req = HttpRequest::parse(b"GET /a/../b%20c?q=1#frag HTTP/1.1\r\n\r\n").unwrap();
    assert_eq!(req.resource, Resource::Path("/a/../b%20c?q=1#frag".to_string()));
}

#[test]
fn bare_line_feeds_end_lines_too() {
    let req = HttpRequest::parse(b"POST /p HTTP/1.1\nHost: a\n\nbody").unwrap();
    assert_eq!(req.method, Method::Post);
    assert_eq!(req.headers.get("Host"), Some(&"a".to_string()));
    assert_eq!(req.body, "body");
}

#[test]
fn later_request_line_replaces_earlier_one() {
    let req = HttpRequest::parse(b"GET /a HTTP/1.1\r\nPOST /b HTTP/1.0\r\n").unwrap();
    assert_eq!(req.method, Method::Post);
    assert_eq!(req.resource, Resource::Path("/b".to_string()));
    assert_eq!(req.version, Version::Uninitialized);
}

#[test]
fn request_line_may_follow_headers() {
    let req = HttpRequest::parse(b"Host: a\r\nGET /late HTTP/1.1\r\n\r\n").unwrap();
    assert_eq!(req.method, Method::Get);
    assert_eq!(req.resource, Resource::Path("/late".to_string()));
    assert_eq!(req.headers.get("Host"), Some(&"a".to_string()));
}

#[test]
fn line_with_http_is_a_request_line_whatever_else_it_holds() {
    // A header whose value holds the text is read as a request line.
    let req = HttpRequest::parse(b"Upgrade: HTTP/2.0 now\r\n").unwrap();
    assert_eq!(req.method, Method::Uninitialized);
    assert_eq!(req.resource, Resource::Path("HTTP/2.0".to_string()));
    assert_eq!(req.version, Version::Uninitialized);
    assert!(req.headers.is_empty());
}

#[test]
fn line_with_colon_after_blank_line_is_a_header() {
    let req = HttpRequest::parse(b"GET / HTTP/1.1\r\n\r\nkey: value").unwrap();
    assert_eq!(req.headers.get("key"), Some(&"value".to_string()));
    assert_eq!(req.body, "");
}

#[test]
fn tokens_after_the_third_are_ignored() {
    let (method, resource, version) = parse_request_line("GET /x HTTP/1.1 extra words").unwrap();
    assert_eq!(method, Method::Get);
    assert_eq!(resource, Resource::Path("/x".to_string()));
    assert_eq!(version, Version::Http11);
}

#[test]
fn request_line_tokens_are_split_on_any_whitespace() {
    let (method, resource, version) =
        parse_request_line("\t POST\u{a0}\u{a0}/submit\u{3000}HTTP/1.1\t").unwrap();
    assert_eq!(method, Method::Post);
    assert_eq!(resource, Resource::Path("/submit".to_string()));
    assert_eq!(version, Version::Http11);
}

#[test]
fn request_line_with_fewer_than_three_tokens_fails() {
    assert_eq!(parse_request_line(""), Err(ParseError::MalformedRequestLine));
    assert_eq!(parse_request_line("   "), Err(ParseError::MalformedRequestLine));
    assert_eq!(parse_request_line("GET"), Err(ParseError::MalformedRequestLine));
    assert_eq!(parse_request_line("GET /x"), Err(ParseError::MalformedRequestLine));
    assert_eq!(parse_request_line(" GET  /x "), Err(ParseError::MalformedRequestLine));
}

#[test]
fn header_line_splits_at_the_first_separator() {
    assert_eq!(
        parse_header_line("Host: localhost:3000"),
        Ok(("Host".to_string(), "localhost:3000".to_string()))
    );
    assert_eq!(
        parse_header_line("X: a: b: c"),
        Ok(("X".to_string(), "a: b: c".to_string()))
    );
    assert_eq!(parse_header_line("A:B: c"), Ok(("A:B".to_string(), "c".to_string())));
    assert_eq!(parse_header_line(": value"), Ok(("".to_string(), "value".to_string())));
    assert_eq!(parse_header_line("Name: "), Ok(("Name".to_string(), "".to_string())));
    assert_eq!(parse_header_line("Name:  two"), Ok(("Name".to_string(), " two".to_string())));
}

#[test]
fn header_line_without_colon_and_space_fails() {
    assert_eq!(parse_header_line("Host:localhost"), Err(ParseError::MalformedHeaderLine));
    assert_eq!(parse_header_line("no separator"), Err(ParseError::MalformedHeaderLine));
    assert_eq!(parse_header_line(""), Err(ParseError::MalformedHeaderLine));
    assert_eq!(parse_header_line("Host:"), Err(ParseError::MalformedHeaderLine));
}

#[test]
fn requests_compare_by_what_they_hold() {
    let a = HttpRequest::parse(b"GET / HTTP/1.1\r\nA: 1\r\nB: 2\r\n\r\n").unwrap();
    let b = HttpRequest::parse(b"GET / HTTP/1.1\r\nB: 2\r\nA: 1\r\n\r\n").unwrap();
    let c = HttpRequest::parse(b"GET / HTTP/1.1\r\nB: 2\r\nA: 3\r\n\r\n").unwrap();
    let d = HttpRequest::parse(b"GET /d HTTP/1.1\r\nB: 2\r\nA: 1\r\n\r\n").unwrap();
    let e = HttpRequest::parse(b"GET / HTTP/1.1\r\nB: 2\r\nA: 1\r\n\r\nbody").unwrap();
    assert!(a == b);
    assert!(a != c);
    assert!(a != d);
    assert!(a != e);
}

#[test]
fn padding_after_the_request_is_text_like_any_other() {
    let req = HttpRequest::parse(b"GET / HTTP/1.1\r\nHost: a\r\n\r\n\0\0\0").unwrap();
    assert_eq!(req.method, Method::Get);
    assert_eq!(req.body, "\0\0\0");
}
