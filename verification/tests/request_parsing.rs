use r_http::errors::ParseError;
use r_http::request::Request;
use r_http::request::TargetForm;

#[test]
fn test_test_valid_get_request() {
    let request = b"GET / HTTP/1.1\r\nHost: localhost:42069\r\nUser-Agent: curl/7.81.0\r\nAccept: */*\r\n\r\n";
    let req = Request::req_from_reader(request).expect("Failed to parse request");

    assert_eq!(req.method().as_slice(), b"GET");
    assert_eq!(req.request_target().as_slice(), b"http://localhost:42069/");
    assert_eq!(req.http_version().as_slice(), b"HTTP/1.1");
    assert_eq!(req.header(b"Host").unwrap().as_slice(), b"localhost:42069");
    assert_eq!(req.header(b"User-Agent").unwrap().as_slice(), b"curl/7.81.0");
    assert_eq!(req.header(b"Accept").unwrap().as_slice(), b"*/*");
}

#[test]
fn test_test_crlf_after_request_line_should_fail() {
    let request = b"GET / HTTP/1.1\r\n\r\nHost: localhost\r\n";
    let result = Request::req_from_reader(request);
    assert!(result.is_err(), "Expected error for CRLF after request line");
}

#[test]
fn test_test_invalid_request_line_format() {
    let request = b"/ HTTP/1.1\r\nHost: localhost\r\n\r\n";
    let result = Request::req_from_reader(request);
    assert!(result.is_err());
}

#[test]
fn test_test_post_request() {
    let request = b"POST /submit HTTP/1.1\r\nHost: localhost\r\nContent-Type: application/json\r\nContent-Length: 18\r\n\r\n{\"key\":\"value\"}\n\n\n";
    let req = Request::req_from_reader(request).expect("Failed to parse request");

    assert_eq!(req.method().as_slice(), b"POST");
    assert_eq!(req.request_target().as_slice(), b"http://localhost/submit");
    assert_eq!(req.http_version().as_slice(), b"HTTP/1.1");
    assert_eq!(req.header(b"Host").unwrap().as_slice(), b"localhost");
    assert_eq!(
        req.header(b"Content-Type").unwrap().as_slice(),
        b"application/json"
    );
    assert_eq!(req.header(b"Content-Length").unwrap().as_slice(), b"18");
}

#[test]
fn test_test_invalid_path_in_request_line() {
    let request = b"GET HTTP/1.1\r\nHost: localhost\r\n\r\n";
    let result = Request::req_from_reader(request);
    assert!(result.is_err(), "Expected error for invalid path in request line");
}

#[test]
fn test_test_invalid_method_in_request_line() {
    let request = b"INVALID / HTTP/1.1\r\nHost: localhost\r\n\r\n";
    let result = Request::req_from_reader(request);
    assert!(result.is_err(), "Expected error for invalid method in request line");
}

#[test]
fn tests_test_valid_get_request() {
    let request = b"GET / HTTP/1.1\r\nHost: localhost\r\nUser-Agent: test\r\n\r\n";
    let req = Request::req_from_reader(request).expect("Failed to parse request");

    assert_eq!(req.method().as_slice(), b"GET");
    assert_eq!(req.request_target().as_slice(), b"http://localhost/");
    assert_eq!(req.http_version().as_slice(), b"HTTP/1.1");
    assert_eq!(req.header(b"Host").unwrap().as_slice(), b"localhost");
    assert_eq!(req.header(b"User-Agent").unwrap().as_slice(), b"test");
}

#[test]
fn tests_test_crlf_after_request_line_should_fail() {
    let request = b"GET / HTTP/1.1\r\n\r\nHost: localhost\r\n";
    let result = Request::req_from_reader(request);
    assert!(result.is_err(), "Expected error for CRLF after request line");
}

#[test]
fn tests_test_invalid_request_line_format() {
    let request = b"/ HTTP/1.1\r\nHost: localhost\r\n\r\n";
    let result = Request::req_from_reader(request);
    assert!(result.is_err());
}

#[test]
fn tests_test_post_request() {
    let request = b"POST /submit HTTP/1.1\r\nHost: localhost\r\nContent-Type: application/json\r\nContent-Length: 18\r\n\r\n{\"key\":\"value\"}\n\n\n";
    let req = Request::req_from_reader(request).expect("Failed to parse request");

    assert_eq!(req.method().as_slice(), b"POST");
    assert_eq!(req.request_target().as_slice(), b"http://localhost/submit");
    assert_eq!(req.http_version().as_slice(), b"HTTP/1.1");
    assert_eq!(req.header(b"Host").unwrap().as_slice(), b"localhost");
    assert_eq!(
        req.header(b"Content-Type").unwrap().as_slice(),
        b"application/json"
    );
    assert_eq!(req.header(b"Content-Length").unwrap().as_slice(), b"18");
}

#[test]
fn tests_test_invalid_path_in_request_line() {
    let request = b"GET HTTP/1.1\r\nHost: localhost\r\n\r\n";
    let result = Request::req_from_reader(request);
    assert!(result.is_err(), "Expected error for invalid path in request line");
}

#[test]
fn tests_test_invalid_method_in_request_line() {
    let request = b"INVALID / HTTP/1.1\r\nHost: localhost\r\n\r\n";
    let result = Request::req_from_reader(request);
    assert!(result.is_err(), "Expected error for invalid method in request line");
}

#[test]
fn crlf_after_request_line_is_protocol_violation() {
    let request = b"GET / HTTP/1.1\r\n\r\nHost: localhost\r\n";
    match Request::req_from_reader(request) {
        Err(e) => assert_eq!(e, ParseError::ProtocolViolation),
        Ok(_) => panic!("expected an error"),
    }
}

#[test]
fn invalid_method_error_kind() {
    let request = b"INVALID / HTTP/1.1\r\nHost: localhost\r\n\r\n";
    match Request::req_from_reader(request) {
        Err(e) => assert_eq!(e, ParseError::InvalidMethod),
        Ok(_) => panic!("expected an error"),
    }
}

#[test]
fn two_token_request_line_is_malformed() {
    let request = b"GET HTTP/1.1\r\nHost: localhost\r\n\r\n";
    match Request::req_from_reader(request) {
        Err(e) => assert_eq!(e, ParseError::MalformedRequestLine),
        Ok(_) => panic!("expected an error"),
    }
}

#[test]
fn version_must_start_with_http_slash() {
    let request = b"GET / XTTP/1.1\r\nHost: localhost\r\n\r\n";
    match Request::req_from_reader(request) {
        Err(e) => assert_eq!(e, ParseError::InvalidVersion),
        Ok(_) => panic!("expected an error"),
    }
}

#[test]
fn shapeless_target_is_invalid() {
    let request = b"GET nonsense HTTP/1.1\r\nHost: localhost\r\n\r\n";
    match Request::req_from_reader(request) {
        Err(e) => assert_eq!(e, ParseError::InvalidTarget),
        Ok(_) => panic!("expected an error"),
    }
}

#[test]
fn origin_form_without_host_fails() {
    let request = b"GET / HTTP/1.1\r\nAccept: */*\r\n\r\n";
    match Request::req_from_reader(request) {
        Err(e) => assert_eq!(e, ParseError::MissingHostHeader),
        Ok(_) => panic!("expected an error"),
    }
}

#[test]
fn request_line_longer_than_limit_fails() {
    let mut request: Vec<u8> = Vec::new();
    request.extend_from_slice(b"GET /");
    request.extend_from_slice(&vec![b'a'; 8300]);
    request.extend_from_slice(b" HTTP/1.1\r\nHost: x\r\n\r\n");
    match Request::req_from_reader(request.as_slice()) {
        Err(e) => assert_eq!(e, ParseError::LineTooLong),
        Ok(_) => panic!("expected an error"),
    }
}

#[test]
fn input_without_terminator_is_incomplete() {
    let request = b"GET / HTTP/1.1";
    match Request::req_from_reader(request) {
        Err(e) => assert_eq!(e, ParseError::UnexpectedEof),
        Ok(_) => panic!("expected an error"),
    }
}

#[test]
fn asterisk_target_stays_unchanged() {
    let request = b"OPTIONS * HTTP/1.1\r\nHost: x\r\n\r\n";
    let req = Request::req_from_reader(request).expect("Failed to parse request");
    assert_eq!(req.request_target().as_slice(), b"*");
}

#[test]
fn authority_target_gains_scheme() {
    let request = b"CONNECT example.com:443 HTTP/1.1\r\nHost: x\r\n\r\n";
    let req = Request::req_from_reader(request).expect("Failed to parse request");
    assert_eq!(req.request_target().as_slice(), b"http://example.com:443");
}

#[test]
fn empty_request_has_empty_parts() {
    let req = Request::new();
    assert!(req.method().is_empty());
    assert!(req.request_target().is_empty());
    assert!(req.http_version().is_empty());
    assert!(req.body().is_none());
    assert!(req.header(b"host").is_none());
}

#[test]
fn crlf_recognizer() {
    assert!(Request::is_crlf(b"\r\n"));
    assert!(!Request::is_crlf(b"\r\nx"));
    assert!(!Request::is_crlf(b"\n"));
}

#[test]
fn target_forms_classify() {
    assert_eq!(Request::verify_target_url(b"GET", b"/a/b").unwrap(), TargetForm::Origin);
    assert_eq!(
        Request::verify_target_url(b"GET", b"https://e.com/").unwrap(),
        TargetForm::Absolute
    );
    assert_eq!(Request::verify_target_url(b"OPTIONS", b"*").unwrap(), TargetForm::Asterisk);
    assert_eq!(
        Request::verify_target_url(b"CONNECT", b"e.com:443").unwrap(),
        TargetForm::Authority
    );
    assert_eq!(
        Request::verify_target_url(b"GET", b"e.com:443").unwrap_err(),
        ParseError::InvalidTarget
    );
}

#[test]
fn absolute_target_stays_unchanged() {
    let request = b"GET http://example.com/a HTTP/1.1\r\nHost: x\r\n\r\n";
    let req = Request::req_from_reader(request).expect("Failed to parse request");
    assert_eq!(req.request_target().as_slice(), b"http://example.com/a");
}
