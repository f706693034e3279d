use r_http::errors::ParseError;
use r_http::request::Request;

#[test]
fn no_body_headers_means_empty_body() {
    let request = b"GET / HTTP/1.1\r\nHost: x\r\n\r\nleftover bytes";
    let req = Request::req_from_reader(request).expect("Failed to parse request");
    assert!(req.body().is_none());
}

#[test]
fn content_length_consumes_exactly_n_bytes() {
    let request = b"POST / HTTP/1.1\r\nHost: x\r\nContent-Length: 5\r\n\r\nhello world";
    let req = Request::req_from_reader(request).expect("Failed to parse request");
    assert_eq!(req.body().unwrap().as_slice(), b"hello");
}

#[test]
fn short_body_is_truncated() {
    let request = b"POST / HTTP/1.1\r\nHost: x\r\nContent-Length: 10\r\n\r\nabc";
    match Request::req_from_reader(request) {
        Err(e) => assert_eq!(e, ParseError::TruncatedBody),
        Ok(_) => panic!("expected an error"),
    }
}

#[test]
fn zero_content_length_gives_empty_body() {
    let request = b"POST / HTTP/1.1\r\nHost: x\r\nContent-Length: 0\r\n\r\n";
    let req = Request::req_from_reader(request).expect("Failed to parse request");
    assert!(req.body().is_none());
}

#[test]
fn malformed_content_length_is_rejected() {
    let request = b"POST / HTTP/1.1\r\nHost: x\r\nContent-Length: abc\r\n\r\n";
    match Request::req_from_reader(request) {
        Err(e) => assert_eq!(e, ParseError::InvalidContentLength),
        Ok(_) => panic!("expected an error"),
    }
}

#[test]
fn both_length_headers_conflict() {
    let request =
        b"POST / HTTP/1.1\r\nHost: x\r\nContent-Length: 4\r\nTransfer-Encoding: chunked\r\n\r\nbody";
    match Request::req_from_reader(request) {
        Err(e) => assert_eq!(e, ParseError::ConflictingLengthSpecification),
        Ok(_) => panic!("expected an error"),
    }
}

#[test]
fn chunked_round_trip() {
    let body = Request::read_chunked_body(b"4\r\nWiki\r\n5\r\npedia\r\n0\r\n\r\n", 0)
        .expect("Failed to decode chunks");
    assert_eq!(body.as_slice(), b"Wikipedia");
}

#[test]
fn chunked_request_body_decodes() {
    let request =
        b"POST / HTTP/1.1\r\nHost: x\r\nTransfer-Encoding: chunked\r\n\r\n4\r\nWiki\r\n5\r\npedia\r\n0\r\n\r\n";
    let req = Request::req_from_reader(request).expect("Failed to parse request");
    assert_eq!(req.body().unwrap().as_slice(), b"Wikipedia");
}

#[test]
fn transfer_encoding_is_case_insensitive() {
    let request =
        b"POST / HTTP/1.1\r\nHost: x\r\nTransfer-Encoding: Chunked\r\n\r\n2\r\nok\r\n0\r\n\r\n";
    let req = Request::req_from_reader(request).expect("Failed to parse request");
    assert_eq!(req.body().unwrap().as_slice(), b"ok");
}

#[test]
fn unsupported_transfer_encoding_is_rejected() {
    let request = b"POST / HTTP/1.1\r\nHost: x\r\nTransfer-Encoding: gzip\r\n\r\n";
    match Request::req_from_reader(request) {
        Err(e) => assert_eq!(e, ParseError::UnsupportedTransferEncoding),
        Ok(_) => panic!("expected an error"),
    }
}

#[test]
fn chunk_without_terminator_is_framing_error() {
    let request = b"POST / HTTP/1.1\r\nHost: x\r\nTransfer-Encoding: chunked\r\n\r\n4\r\nWikiXX0\r\n\r\n";
    match Request::req_from_reader(request) {
        Err(e) => assert_eq!(e, ParseError::ChunkFramingError),
        Ok(_) => panic!("expected an error"),
    }
}

#[test]
fn bad_chunk_size_is_framing_error() {
    let request = b"POST / HTTP/1.1\r\nHost: x\r\nTransfer-Encoding: chunked\r\n\r\nzz\r\n\r\n";
    match Request::req_from_reader(request) {
        Err(e) => assert_eq!(e, ParseError::ChunkFramingError),
        Ok(_) => panic!("expected an error"),
    }
}

#[test]
fn chunked_body_cut_short_is_incomplete() {
    let request = b"POST / HTTP/1.1\r\nHost: x\r\nTransfer-Encoding: chunked\r\n\r\n8\r\nWi";
    match Request::req_from_reader(request) {
        Err(e) => assert_eq!(e, ParseError::UnexpectedEof),
        Ok(_) => panic!("expected an error"),
    }
}
