use parser::http;
use parser::http::header::Header;
use parser::http::parse::ParserError;
use parser::http::request::Request;
use parser::http::response::Response;

#[test]
fn request_line_round_trip() {
    assert_eq!(
        http::parse::request_line(b"POST /a HTTP/2\r\ntail"),
        Some((&b"tail"[..], (&b"POST"[..], &b"/a"[..], &b"2"[..])))
    );
    assert_eq!(
        http::parse::request_line(b"OPTIONS /x/y?q=1 HTTP/1.1\r\n"),
        Some((&b""[..], (&b"OPTIONS"[..], &b"/x/y?q=1"[..], &b"1.1"[..])))
    );
    // Bare LF is not a terminator.
    assert_eq!(http::parse::request_line(b"GET /x HTTP/1.1\n"), None);
}

#[test]
fn method_length_bounds() {
    // Two letters are too few, eight too many; seven are accepted.
    assert_eq!(http::parse::method(b"AB /x HTTP/1.1\r\n"), None);
    assert_eq!(http::parse::method(b"ABCDEFGH /x HTTP/1.1\r\n"), None);
    assert_eq!(
        http::parse::method(b"ABCDEFG /x HTTP/1.1\r\n"),
        Some((&b" /x HTTP/1.1\r\n"[..], &b"ABCDEFG"[..]))
    );
    // One leading CRLF and leading digits are both discarded at once.
    assert_eq!(
        http::parse::method(b"\r\n123GET /x HTTP/1.1\r\n"),
        Some((&b" /x HTTP/1.1\r\n"[..], &b"GET"[..]))
    );
}

#[test]
fn excess_headers_truncated_to_capacity() {
    let data = "\
        GET / HTTP/1.1\r\n\
        A: 1\r\n\
        B: 2\r\n\
        C: 3\r\n\
        D: 4\r\n\
        E: 5\r\n\
        F: 6\r\n\
        \r\n\
    ";
    let headers = vec![Header::new(); 4];
    let mut request = Request::new(headers);
    assert_eq!(request.parse(data.as_bytes()), Ok(()));
    let shown = request.headers();
    assert_eq!(shown.len(), 4);
    assert_eq!(shown[0].name(), b"A");
    assert_eq!(shown[3].name(), b"D");
    assert_eq!(shown[3].value(), b"4");
    assert_eq!(request.body().len(), 0);
}

#[test]
fn content_length_zero_means_no_body() {
    let data = "GET / HTTP/1.1\r\nContent-Length: 0\r\n\r\nleftover";
    let headers = vec![Header::new(); 8];
    let mut request = Request::new(headers);
    assert_eq!(request.parse(data.as_bytes()), Ok(()));
    assert_eq!(request.body().len(), 0);
}

#[test]
fn content_length_sixteen_takes_exactly_sixteen() {
    let data = "GET / HTTP/1.1\r\nContent-Length: 16\r\n\r\n0123456789abcdefEXTRA";
    let headers = vec![Header::new(); 8];
    let mut request = Request::new(headers);
    assert_eq!(request.parse(data.as_bytes()), Ok(()));
    assert_eq!(request.body(), b"0123456789abcdef");
}

#[test]
fn body_error_when_fewer_bytes_than_content_length() {
    let data = "GET / HTTP/1.1\r\nContent-Length: 10\r\n\r\nxx";
    let headers = vec![Header::new(); 8];
    let mut request = Request::new(headers);
    assert_eq!(request.parse(data.as_bytes()), Err(ParserError::Body));
}

#[test]
fn body_error_when_crlf_separator_missing() {
    let data = "GET / HTTP/1.1\r\nContent-Length: 2\r\nab";
    let headers = vec![Header::new(); 8];
    let mut request = Request::new(headers);
    assert_eq!(request.parse(data.as_bytes()), Err(ParserError::Body));
}

#[test]
fn content_length_error_on_non_numeric_value() {
    let data = "GET / HTTP/1.1\r\nContent-Length: abc\r\n\r\nxx";
    let headers = vec![Header::new(); 8];
    let mut request = Request::new(headers);
    assert_eq!(request.parse(data.as_bytes()), Err(ParserError::ContentLength));
}

#[test]
fn invalid_utf8_error_on_undecodable_value() {
    let mut data: Vec<u8> = Vec::new();
    data.extend_from_slice(b"GET / HTTP/1.1\r\nContent-Length: ");
    data.push(0xff);
    data.extend_from_slice(b"\r\n\r\nxx");
    let headers = vec![Header::new(); 8];
    let mut request = Request::new(headers);
    assert_eq!(
        request.parse(&data),
        Err(ParserError::InvalidUtf8Content(0))
    );
}

#[test]
fn double_zero_sorts_after_zero_and_demands_a_separator() {
    // `00` compares greater than `0` byte-wise, so body extraction runs
    // with length zero and still demands the CRLF separator.
    let data = "GET / HTTP/1.1\r\nContent-Length: 00\r\nab";
    let headers = vec![Header::new(); 8];
    let mut request = Request::new(headers);
    assert_eq!(request.parse(data.as_bytes()), Err(ParserError::Body));

    let data2 = "GET / HTTP/1.1\r\nContent-Length: 00\r\n\r\n";
    let headers2 = vec![Header::new(); 8];
    let mut request2 = Request::new(headers2);
    assert_eq!(request2.parse(data2.as_bytes()), Ok(()));
    assert_eq!(request2.body().len(), 0);
}

#[test]
fn transfer_encoding_alone_captures_no_body() {
    let data = "GET / HTTP/1.1\r\nTransfer-Encoding: chunked\r\n\r\n5\r\nhello\r\n0\r\n\r\n";
    let headers = vec![Header::new(); 8];
    let mut request = Request::new(headers);
    assert_eq!(request.parse(data.as_bytes()), Ok(()));
    assert_eq!(request.body().len(), 0);
}

#[test]
fn request_line_error_leaves_fields_untouched() {
    let headers = vec![Header::new(); 4];
    let mut request = Request::new(headers);
    assert_eq!(request.parse(b"x"), Err(ParserError::RequestLine));
    assert_eq!(request.method(), b"");
    assert_eq!(request.path(), b"");
    assert_eq!(request.version(), b"");
    assert_eq!(request.body(), b"");
}

#[test]
fn body_parser_takes_exactly_the_requested_bytes() {
    assert_eq!(
        http::parse::body(3, b"\r\nabcdef"),
        Some((&b"def"[..], &b"abc"[..]))
    );
    assert_eq!(http::parse::body(3, b"\r\nab"), None);
    assert_eq!(http::parse::body(3, b"ab"), None);
    assert_eq!(http::parse::body(0, b"\r\n"), Some((&b""[..], &b""[..])));
}

#[test]
fn headers_iterator_stops_at_first_non_header_line() {
    let mut headers = vec![Header::new(); 3];
    let rest = http::parse::headers_iterator(b"A: 1\r\nB: 2\r\n\r\nrest", &mut headers);
    assert_eq!(rest, b"\r\nrest");
    assert_eq!((headers[0].name(), headers[0].value()), (&b"A"[..], &b"1"[..]));
    assert_eq!((headers[1].name(), headers[1].value()), (&b"B"[..], &b"2"[..]));
    assert_eq!(headers[2].name().len(), 0);
    assert_eq!(headers[2].value().len(), 0);
}

#[test]
fn header_rejects_missing_space_or_terminator() {
    let mut h = Header::new();
    assert_eq!(http::parse::header(b"Host:nospace\r\n", &mut h), None);
    let mut h2 = Header::new();
    assert_eq!(http::parse::header(b"Host: value", &mut h2), None);
    let mut h3 = Header::new();
    assert_eq!(http::parse::header(b"Host: bare\n", &mut h3), None);
}

#[test]
fn token_and_version_classifiers() {
    assert!(http::parse::is_header_name_token(b'A'));
    assert!(http::parse::is_header_name_token(b'7'));
    assert!(http::parse::is_header_name_token(b'-'));
    assert!(http::parse::is_header_name_token(b'~'));
    assert!(!http::parse::is_header_name_token(b':'));
    assert!(!http::parse::is_header_name_token(b' '));
    assert!(!http::parse::is_header_name_token(0x80));
    assert!(http::parse::is_version(b'9'));
    assert!(http::parse::is_version(b'.'));
    assert!(!http::parse::is_version(b'a'));
}

#[test]
fn parse_usize_grammar() {
    assert_eq!(parser::http::text::parse_usize(b"16"), Some(16));
    assert_eq!(parser::http::text::parse_usize(b"+16"), Some(16));
    assert_eq!(parser::http::text::parse_usize(b"0"), Some(0));
    assert_eq!(parser::http::text::parse_usize(b""), None);
    assert_eq!(parser::http::text::parse_usize(b"+"), None);
    assert_eq!(parser::http::text::parse_usize(b"1a"), None);
    assert_eq!(parser::http::text::parse_usize(b" 1"), None);
    assert_eq!(
        parser::http::text::parse_usize(b"99999999999999999999999999"),
        None
    );
}

#[test]
fn utf8_prefix_scans_scalars() {
    assert_eq!(parser::http::text::utf8_prefix(b"abc"), 3);
    assert_eq!(parser::http::text::utf8_prefix(&[0x61, 0xff, 0x62]), 1);
    assert_eq!(parser::http::text::utf8_prefix(&[0xc3, 0xa9]), 2);
    // Overlong two-byte encoding of NUL.
    assert_eq!(parser::http::text::utf8_prefix(&[0xc0, 0x80]), 0);
    // A surrogate is not a scalar.
    assert_eq!(parser::http::text::utf8_prefix(&[0xed, 0xa0, 0x80]), 0);
    assert_eq!(parser::http::text::utf8_prefix(&[0xf0, 0x9f, 0x98, 0x80]), 4);
    // A truncated two-byte encoding.
    assert_eq!(parser::http::text::utf8_prefix(&[0x61, 0xc3]), 1);
}

#[test]
fn parser_error_messages() {
    assert_eq!(
        ParserError::RequestLine.message(),
        "ParserError: Unable to parse HTTP Message request line."
    );
    assert_eq!(
        ParserError::ContentLength.message(),
        "ParserError: Unable to parse HTTP Message Content-Length header."
    );
}

#[test]
fn request_rendering() {
    let data = "GET /r HTTP/1.1\r\nHost: a\r\nX: y\r\n";
    let headers = vec![Header::new(); 4];
    let mut request = Request::new(headers);
    assert_eq!(request.parse(data.as_bytes()), Ok(()));
    assert_eq!(
        request.render(),
        "Request { method: GET, path: /r, version: HTTP/1.1, headers: { Host: a, X: y } }"
    );
}

#[test]
fn response_rendering_and_wire_form() {
    let response = Response {
        version: b"1.1",
        status: 200,
        reason: b"OK",
        headers: vec![Header { name: b"Content-Type", value: b"text/plain" }],
        body: b"hello",
    };
    assert_eq!(response.version(), b"1.1");
    assert_eq!(response.status(), 200);
    assert_eq!(response.reason(), b"OK");
    assert_eq!(response.headers().len(), 1);
    assert_eq!(response.body(), b"hello");
    assert_eq!(
        response.render(),
        "Response { version: HTTP/1.1, status: 200, reason: OK, headers: { Content-Type: text/plain }, body: { hello } }"
    );
    let wire: String = response.into_string();
    assert_eq!(wire, "HTTP/1.1 200 OK\r\nContent-Type: text/plain\r\n\r\nhello");
}

#[test]
fn response_wire_form_without_headers() {
    let mut response = Response::new();
    response.version = b"1.1";
    response.status = 204;
    response.reason = b"No Content";
    assert_eq!(response.into_string(), "HTTP/1.1 204 No Content\r\n");
}
