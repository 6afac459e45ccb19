use wruster::errors::HttpError;
use wruster::headers::Header;
use wruster::headers::Headers;
use wruster::message::Body;
use wruster::message::HttpResponseLine;
use wruster::message::Request;
use wruster::message::Response;
use wruster::method::HttpMethod;
use wruster::status::StatusCode;
use wruster::version::Version;

#[test]
fn http_header_parse_standard() {
    // Test parsing standard headers.
    let header_content = "Header-Name:header value\r\n";
    let (header, used) = Header::read_from(header_content.as_bytes()).unwrap();
    let header = header.unwrap();
    assert_eq!(header.name.as_str(), "Header-Name");
    assert_eq!(header.value.as_str(), "header value");
    assert_eq!(used, header_content.len());
}

#[test]
fn http_header_normalize_is_positional() {
    // Only a letter or digit directly after the start, a dash, an
    // underscore, or a space is upper-cased; nothing carries further.
    let (header, _) = Header::read_from("x-.a:v\r\n".as_bytes()).unwrap();
    assert_eq!(header.unwrap().name.as_str(), "X-.a");
    let (header, _) = Header::read_from("a_b:v\r\n".as_bytes()).unwrap();
    assert_eq!(header.unwrap().name.as_str(), "A_B");
}

#[test]
fn http_header_parse_normalize() {
    let header_content = "header:header value\r\n";
    let (header, _) = Header::read_from(header_content.as_bytes()).unwrap();
    assert_eq!(header.unwrap().name.as_str(), "Header");

    let header_content = "header-name:header value\r\n";
    let (header, _) = Header::read_from(header_content.as_bytes()).unwrap();
    assert_eq!(header.unwrap().name.as_str(), "Header-Name");

    let header_content = "header-name-1:header value\r\n";
    let (header, _) = Header::read_from(header_content.as_bytes()).unwrap();
    assert_eq!(header.unwrap().name.as_str(), "Header-Name-1");

    let header_content = "header_part1-part2-part3: header value\r\n";
    let (header, _) = Header::read_from(header_content.as_bytes()).unwrap();
    assert_eq!(header.unwrap().name.as_str(), "Header_Part1-Part2-Part3");
}

#[test]
fn http_header_parse_with_colon_values() {
    let header_content = "Host: localhost:1234\r\n";
    let (header, _) = Header::read_from(header_content.as_bytes()).unwrap();
    let header = header.unwrap();
    assert_eq!(header.name.as_str(), "Host");
    assert_eq!(header.value.as_str(), "localhost:1234");
}

#[test]
fn http_header_invalid_tokens() {
    // Only accepts valid chars in tokens.
    let header_content = "header\rname:headervalue\r\n";
    assert_eq!(
        Header::read_from(header_content.as_bytes()).unwrap_err(),
        HttpError::InvalidRequest(String::from("invalid header name line"))
    );

    let header_content = "header\x0Bname:headervalue\r\n";
    assert_eq!(
        Header::read_from(header_content.as_bytes()).unwrap_err(),
        HttpError::InvalidRequest(String::from("invalid header name line"))
    );
}

#[test]
fn http_header_no_colon() {
    let header_content = "header-name :headervalue\r\n";
    assert_eq!(
        Header::read_from(header_content.as_bytes()).unwrap_err(),
        HttpError::InvalidRequest(String::from("invalid header name line"))
    );
}

#[test]
fn http_header_invalid_header_values() {
    let header_content = "header-name: \0x1Aheadervalue\r\n";
    assert_eq!(
        Header::read_from(header_content.as_bytes()).unwrap_err(),
        HttpError::InvalidRequest(String::from("invalid header name value"))
    );
}

#[test]
fn http_headers_parse() {
    let header_content = "header-one: value-one\r\n\r\n";
    let (result, used) = Headers::read_from(header_content.as_bytes()).unwrap();
    let entries = result.iter();
    assert_eq!(entries.len(), 1);
    assert_eq!(entries[0].0.as_str(), "Header-One");
    assert_eq!(entries[0].1, vec![String::from("value-one")]);
    assert_eq!(used, header_content.len());

    // Multiple values for the same header.
    let header_content = "header-one: value-one\r\nheader-one: value-two\r\n\r\n";
    let (result, _) = Headers::read_from(header_content.as_bytes()).unwrap();
    let entries = result.iter();
    assert_eq!(entries.len(), 1);
    assert_eq!(entries[0].0.as_str(), "Header-One");
    assert_eq!(
        entries[0].1,
        vec![String::from("value-one"), String::from("value-two")]
    );
}

#[test]
fn http_request_from_str() {
    let str_req = "POST /file HTTP/1.1\r\n\
Content-Length: 4\r\n\
\r\n\
test";
    let req = Request::read_from_str(str_req).unwrap();
    let body = req.body.unwrap();
    let payload = String::from_utf8(body.content.clone()).unwrap();

    assert_eq!(req.uri, "/file");
    assert_eq!(req.method, HttpMethod::POST);
    assert_eq!(&payload, "test");
}

#[test]
fn http_body_write() {
    let content = "#wruster";
    let body = Body::new(
        Some(String::from("text/plain")),
        content.len() as u64,
        content.as_bytes().to_vec(),
    );
    let mut to: Vec<u8> = Vec::new();

    body.write(&mut to).unwrap();
    let got_content = String::from_utf8(to).unwrap();
    assert_eq!(content, &got_content)
}

#[test]
fn http_response_write() {
    let content = "#wruster";
    let body = Body::new(
        Some(String::from("text/plain")),
        content.len() as u64,
        content.as_bytes().to_vec(),
    );

    let mut headers = Headers::new();
    headers.add(Header {
        name: String::from("Content-Length"),
        value: String::from("8"),
    });
    let mut response = Response {
        status: StatusCode::OK,
        headers,
        body: Some(body),
    };

    let mut to: Vec<u8> = Vec::new();
    response.write(&mut to).unwrap();

    let got = String::from_utf8(to).unwrap();
    let want = "HTTP/1.1 200 OK\r\nContent-Length: 8\r\n\r\n#wruster";
    assert_eq!(want, &got)
}

#[test]
fn http_response_write_empty_body() {
    let headers = Headers::new();
    let mut response = Response {
        status: StatusCode::OK,
        headers,
        body: None,
    };

    let mut to: Vec<u8> = Vec::new();
    response.write(&mut to).unwrap();

    let got = String::from_utf8(to).unwrap();
    let want = "HTTP/1.1 200 OK\r\nContent-Length: 0\r\n\r\n";
    assert_eq!(want, &got)
}

#[test]
fn http_response_write_keeps_preset_content_length() {
    // A zero Content-Length is added only when the caller set none.
    let mut headers = Headers::new();
    headers.add(Header {
        name: String::from("Content-Length"),
        value: String::from("0"),
    });
    let mut response = Response {
        status: StatusCode::OK,
        headers,
        body: None,
    };
    let mut to: Vec<u8> = Vec::new();
    response.write(&mut to).unwrap();
    let got = String::from_utf8(to).unwrap();
    assert_eq!(got, "HTTP/1.1 200 OK\r\nContent-Length: 0\r\n\r\n");
}

#[test]
fn http_response_no_headers_no_body() {
    let headers = Headers::new();
    let mut response = Response {
        status: StatusCode::OK,
        headers,
        body: None,
    };
    let mut to: Vec<u8> = Vec::new();
    response.write(&mut to).unwrap();
    let got = String::from_utf8(to).unwrap();
    let want = "HTTP/1.1 200 OK\r\nContent-Length: 0\r\n\r\n";
    assert_eq!(want, &got)
}

#[test]
fn http_body_read_from_invalid_content_type() {
    let from = "test";
    let mut headers = Headers::new();
    headers.add(Header {
        name: "Content-Type".to_string(),
        value: "invalid".to_string(),
    });
    headers.add(Header {
        name: "Content-Length".to_string(),
        value: "4".to_string(),
    });
    assert!(Body::read_from(from.as_bytes(), &headers).is_err(), "");
}

#[test]
fn http_body_read_from_valid_content_type() {
    // The media type is parsed by the real parser: a valid one is kept in
    // its canonical text.
    let from = "test";
    let mut headers = Headers::new();
    headers.add(Header {
        name: "Content-Type".to_string(),
        value: "text/plain".to_string(),
    });
    headers.add(Header {
        name: "Content-Length".to_string(),
        value: "4".to_string(),
    });
    let body = Body::read_from(from.as_bytes(), &headers).unwrap().unwrap();
    assert_eq!(body.content_type.as_deref(), Some("text/plain"));
    assert_eq!(body.content_length, 4);
    assert_eq!(body.content, b"test".to_vec());
}

#[test]
fn response_from_str_is_plain_text() {
    let response = Response::from_str("hello");
    let body = response.body.unwrap();
    assert_eq!(response.status, StatusCode::OK);
    assert_eq!(body.content_type.as_deref(), Some("text/plain"));
    assert_eq!(body.content, b"hello".to_vec());
    assert_eq!(body.content_length, 5);
}

#[test]
fn headers_writability_check() {
    let mut headers = Headers::new();
    headers.add(Header {
        name: String::from("Host"),
        value: String::from("localhost"),
    });
    assert!(headers.is_writable());
    headers.add(Header {
        name: String::from("Comment"),
        value: String::from("\u{2603}"),
    });
    assert!(!headers.is_writable());
}

#[test]
fn parse_error_stores_string() {
    assert_eq!(Version::from_str("HTTP/1.0").unwrap(), Version::HTTP1_0);
    assert_eq!(Version::from_str("HTTP/2").unwrap(), Version::HTTP2);
    assert_eq!(Version::from_str("HTTP/1.1").unwrap(), Version::HTTP1_1);
    Version::from_str("error").expect_err("invalid version string error");
}

#[test]
fn http_body_absent_on_zero_content_length() {
    let req = Request::read_from_str("POST / HTTP/1.1\r\nContent-Length: 0\r\n\r\n").unwrap();
    assert!(req.body.is_none());
}

#[test]
fn http_body_absent_without_length_headers() {
    let req = Request::read_from_str("GET / HTTP/1.1\r\n\r\n").unwrap();
    assert!(req.body.is_none());
}

#[test]
fn http_chunked_transfer_encoding_rejected() {
    let err =
        Request::read_from_str("POST / HTTP/1.1\r\nTransfer-Encoding: chunked\r\n\r\n")
            .unwrap_err();
    assert!(matches!(err, HttpError::InvalidRequest(_)));
}

#[test]
fn http_identity_transfer_encoding_accepted() {
    let req =
        Request::read_from_str("POST / HTTP/1.1\r\nTransfer-Encoding: identity\r\n\r\n").unwrap();
    assert!(req.body.is_none());
}

#[test]
fn http_unknown_method_rejected() {
    let err = Request::read_from_str("FROB / HTTP/1.1\r\n\r\n").unwrap_err();
    assert_eq!(err, HttpError::InvalidRequest(String::from("invalid http method")));
}

#[test]
fn http_version_grammar() {
    assert!(HttpResponseLine::validate_version("HTTP/1.1").is_ok());
    assert!(HttpResponseLine::validate_version("HTTP/255.0").is_ok());
    assert!(HttpResponseLine::validate_version("FTP/1.1").is_err());
    assert!(HttpResponseLine::validate_version("HTTP/1.1.2").is_err());
    assert!(HttpResponseLine::validate_version("HTTP/999.1").is_err());
    assert!(HttpResponseLine::validate_version("HTTP/1").is_err());
    assert!(HttpResponseLine::validate_version("HTTP/a.1").is_err());
}

#[test]
fn http_response_parse_minimal() {
    let bytes = b"HTTP/1.1 200 OK\r\nContent-Length: 0\r\n\r\n";
    let (response, used) = Response::read_from(bytes).unwrap();
    assert_eq!(response.status, StatusCode::OK);
    assert!(response.body.is_none());
    assert_eq!(used, bytes.len());
}

#[test]
fn http_bad_content_length_rejected() {
    let err = Request::read_from_str("POST / HTTP/1.1\r\nContent-Length: abc\r\n\r\n")
        .unwrap_err();
    assert_eq!(
        err,
        HttpError::InvalidRequest(String::from("invalid Content-Length header"))
    );

    let err = Request::read_from_str(
        "POST / HTTP/1.1\r\nContent-Length: 4\r\nContent-Length: 5\r\n\r\ntest",
    )
    .unwrap_err();
    assert_eq!(
        err,
        HttpError::InvalidRequest(String::from("invalid Content-Length header"))
    );
}

#[test]
fn http_empty_input_means_connection_closed() {
    let err = Request::read_from(&[]).unwrap_err();
    assert_eq!(err, HttpError::ConnectionClosed);
}

#[test]
fn http_request_reads_exactly_advertised_body() {
    // Over one keep-alive connection a second request follows the first;
    // parsing consumes exactly the advertised number of body octets.
    let two = b"POST / HTTP/1.1\r\nContent-Length: 4\r\n\r\nabcdPOST / HTTP/1.1\r\nContent-Length: 4\r\n\r\nefgh";
    let (first, used) = Request::read_from(two).unwrap();
    assert_eq!(first.body.as_ref().unwrap().content, b"abcd".to_vec());
    let (second, used2) = Request::read_from(&two[used..]).unwrap();
    assert_eq!(second.body.as_ref().unwrap().content, b"efgh".to_vec());
    assert_eq!(used + used2, two.len());
}

#[test]
fn http_headers_round_trip() {
    let mut headers = Headers::new();
    headers.add(Header {
        name: String::from("Content-Length"),
        value: String::from("4"),
    });
    headers.add(Header {
        name: String::from("Host"),
        value: String::from("localhost:1234"),
    });
    headers.add(Header {
        name: String::from("Accept"),
        value: String::from("text/plain"),
    });
    headers.add(Header {
        name: String::from("Accept"),
        value: String::from("text/html"),
    });
    let mut to: Vec<u8> = Vec::new();
    headers.write(&mut to).unwrap();
    let (parsed, used) = Headers::read_from(&to).unwrap();
    assert_eq!(used, to.len());
    let entries = parsed.iter();
    let original = headers.iter();
    assert_eq!(entries.len(), original.len());
    for (a, b) in entries.iter().zip(original.iter()) {
        assert_eq!(a.0, b.0);
        assert_eq!(a.1, b.1);
    }
}

#[test]
fn http_response_round_trip() {
    let content = "payload!";
    let body = Body::new(None, content.len() as u64, content.as_bytes().to_vec());
    let mut headers = Headers::new();
    headers.add(Header {
        name: String::from("Content-Length"),
        value: String::from("8"),
    });
    let mut response = Response {
        status: StatusCode::NotFound,
        headers,
        body: Some(body),
    };
    let mut to: Vec<u8> = Vec::new();
    response.write(&mut to).unwrap();
    let (parsed, used) = Response::read_from(&to).unwrap();
    assert_eq!(used, to.len());
    assert_eq!(parsed.status, StatusCode::NotFound);
    let entries = parsed.headers.iter();
    assert_eq!(entries.len(), 1);
    assert_eq!(entries[0].0.as_str(), "Content-Length");
    assert_eq!(entries[0].1, vec![String::from("8")]);
    assert_eq!(parsed.body.unwrap().content, content.as_bytes().to_vec());
}

#[test]
fn http_status_code_maps_both_ways() {
    assert_eq!(StatusCode::from(503usize), StatusCode::ServiceUnavailable);
    assert_eq!(StatusCode::ServiceUnavailable.code(), 503);
    assert_eq!(StatusCode::from(599usize), StatusCode::ExtensionCode(599));
    assert_eq!(StatusCode::OK.reason(), "OK");
    assert_eq!(StatusCode::RequestTimeOut.reason(), "Request Time-out");
}

#[test]
fn http_method_parses_all_tokens() {
    assert_eq!(HttpMethod::from_str("GET").unwrap(), HttpMethod::GET);
    assert_eq!(HttpMethod::from_str("PATCH").unwrap(), HttpMethod::PATCH);
    assert_eq!(HttpMethod::get_last(), HttpMethod::PATCH);
    assert_eq!(
        HttpMethod::from_str("get").unwrap_err(),
        String::from("invalid http method")
    );
}

#[test]
fn http_request_write_adds_zero_content_length() {
    let request = Request {
        method: HttpMethod::GET,
        uri: String::from("/"),
        version: String::from("HTTP/1.1"),
        headers: Headers::new(),
        body: None,
    };
    let mut to: Vec<u8> = Vec::new();
    request.write(&mut to).unwrap();
    let got = String::from_utf8(to).unwrap();
    assert_eq!(got, "GET / HTTP/1.1\r\nContent-Length: 0\r\n\r\n");
}

#[test]
fn http_from_body_sets_headers() {
    let body = Body::new(Some(String::from("text/plain")), 4, b"test".to_vec());
    let request = Request::from_body(body, HttpMethod::POST, "/echo");
    assert_eq!(request.uri.as_str(), "/echo");
    assert_eq!(request.version.as_str(), "HTTP/1.1");
    let entries = request.headers.iter();
    assert_eq!(entries.len(), 2);
    assert_eq!(entries[0].0.as_str(), "Content-Type");
    assert_eq!(entries[0].1, vec![String::from("text/plain")]);
    assert_eq!(entries[1].0.as_str(), "Content-Length");
    assert_eq!(entries[1].1, vec![String::from("4")]);
}
