use r_http::errors::ParseError;
use r_http::headers::Headers;

#[test]
fn valid_headers() {
    let request = b"Host: localhost:42069\r\nUser-Agent: curl/7.81.0\r\nAccept: */*\r\n\r\n";
    let (result, consumed) = Headers::parse_header_line(request).expect("Failed to parse request");

    assert_eq!(result.get_value(b"host").unwrap().as_slice(), b"localhost:42069");
    assert_eq!(result.get_value(b"user-agent").unwrap().as_slice(), b"curl/7.81.0");
    assert_eq!(result.get_value(b"accept").unwrap().as_slice(), b"*/*");
    assert_eq!(consumed, request.len());
}

#[test]
fn invalid_space_bet_field_and_colon() {
    let request = b"Host : localhost:42069\r\nUser-Agent: curl/7.81.0\r\nAccept: */*\r\n\r\n";
    let result = Headers::parse_header_line(request);
    assert!(result.is_err(), "Invalid header should not allow space before colon");
}

#[test]
fn test_duplicate_singleton_header() {
    let request = b"Host: example.com\r\nHost: duplicate.com\r\n\r\n";
    let result = Headers::parse_header_line(request);
    assert!(result.is_err(), "Duplicate singleton header should cause error");
}

#[test]
fn test_multiple_same_non_singleton_header() {
    let request = b"Accept: text/html\r\nAccept: application/json\r\n\r\n";
    let (result, _) = Headers::parse_header_line(request).expect("Failed to parse headers");
    assert_eq!(
        result.get_value(b"accept").unwrap().as_slice(),
        b"text/html, application/json",
    );
}

#[test]
fn test_header_with_invalid_characters() {
    let request = b"Bad@Header: value\r\n\r\n";
    let result = Headers::parse_header_line(request);
    assert!(
        result.is_err(),
        "Invalid header should not allow alphanumeric characters in field name",
    );
}

#[test]
fn test_header_line_without_colon() {
    let request = b"InvalidHeaderLine\r\n\r\n";
    let result = Headers::parse_header_line(request);
    assert!(result.is_err(), "Invalid header format");
}

#[test]
fn test_empty_header_value() {
    let request = b"X-Empty-Header:\r\n\r\n";
    let (result, _) = Headers::parse_header_line(request).expect("Failed to parse headers");
    assert_eq!(
        result.get_value(b"x-empty-header").unwrap().as_slice(),
        b"",
        "Empty header value should be allowed and parsed as empty string"
    );
}

#[test]
fn duplicate_singleton_error_kind() {
    let request = b"Host: example.com\r\nHost: duplicate.com\r\n\r\n";
    match Headers::parse_header_line(request) {
        Err(e) => assert_eq!(e, ParseError::DuplicateSingletonHeader),
        Ok(_) => panic!("expected an error"),
    }
}

#[test]
fn field_name_error_kinds() {
    match Headers::parse_header_line(b"Bad@Header: value\r\n\r\n") {
        Err(e) => assert_eq!(e, ParseError::InvalidFieldName),
        Ok(_) => panic!("expected an error"),
    }
    match Headers::parse_header_line(b"InvalidHeaderLine\r\n\r\n") {
        Err(e) => assert_eq!(e, ParseError::MalformedHeaderLine),
        Ok(_) => panic!("expected an error"),
    }
}

#[test]
fn original_spelling_is_kept() {
    let request = b"Host: localhost\r\nUser-Agent: curl\r\n\r\n";
    let (result, _) = Headers::parse_header_line(request).expect("Failed to parse headers");
    assert_eq!(result.original_name(b"HOST").unwrap().as_slice(), b"Host");
    assert_eq!(result.original_name(b"user-agent").unwrap().as_slice(), b"User-Agent");
    assert!(result.get_value(b"absent").is_none());
}

#[test]
fn values_are_trimmed() {
    let request = b"Padded:   value with spaces  \r\n\r\n";
    let (result, _) = Headers::parse_header_line(request).expect("Failed to parse headers");
    assert_eq!(result.get_value(b"padded").unwrap().as_slice(), b"value with spaces");
}

#[test]
fn lookup_is_case_insensitive() {
    let request = b"Content-Type: text/plain\r\n\r\n";
    let (result, _) = Headers::parse_header_line(request).expect("Failed to parse headers");
    assert_eq!(result.get_value(b"CONTENT-TYPE").unwrap().as_slice(), b"text/plain");
}
