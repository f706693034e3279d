use r_http::response::{StatusCode, Writer};

#[test]
fn success_response_with_defaults() {
    let mut w = Writer::new();
    w.set_status(StatusCode::Okay).expect("status must be accepted");
    w.write_body(b"");
    assert_eq!(
        w.output().as_slice(),
        b"HTTP/1.1 200 OK\r\nContent-Length: 0\r\nContent-Type: text/plain; charset=utf-8\r\nConnection: close\r\n\r\n".as_slice()
    );
}

#[test]
fn body_length_fills_content_length() {
    let mut w = Writer::new();
    w.set_status(StatusCode::Okay).expect("status must be accepted");
    w.write_body(b"hello");
    assert_eq!(
        w.output().as_slice(),
        b"HTTP/1.1 200 OK\r\nContent-Length: 5\r\nContent-Type: text/plain; charset=utf-8\r\nConnection: close\r\n\r\nhello".as_slice()
    );
}

#[test]
fn caller_headers_are_kept_and_defaults_added() {
    let mut w = Writer::new();
    w.set_status(StatusCode::NotFound).expect("status must be accepted");
    w.set_header(b"Content-Type", b"text/html").expect("header must be accepted");
    w.write_body(b"gone");
    assert_eq!(
        w.output().as_slice(),
        b"HTTP/1.1 404 Not Found\r\nContent-Type: text/html\r\nContent-Length: 4\r\nConnection: close\r\n\r\ngone".as_slice()
    );
}

#[test]
fn set_header_replaces_equal_name() {
    let mut w = Writer::new();
    w.set_status(StatusCode::Okay).expect("status must be accepted");
    w.set_header(b"Content-Type", b"text/html").expect("header must be accepted");
    w.set_header(b"Content-Type", b"application/json").expect("header must be accepted");
    w.write_body(b"{}");
    assert_eq!(
        w.output().as_slice(),
        b"HTTP/1.1 200 OK\r\nContent-Type: application/json\r\nContent-Length: 2\r\nConnection: close\r\n\r\n{}".as_slice()
    );
}

#[test]
fn header_before_status_is_fatal_and_harmless() {
    let mut w = Writer::new();
    let r = w.set_header(b"Content-Type", b"text/html");
    assert!(r.is_err(), "misordered set_header must be rejected");
    assert!(w.output().is_empty(), "misordered set_header must not touch the output");
    w.set_status(StatusCode::Okay).expect("a fresh writer still accepts a status");
    w.write_body(b"");
    assert!(w.output().starts_with(b"HTTP/1.1 200 OK\r\n"));
}

#[test]
fn second_status_is_rejected() {
    let mut w = Writer::new();
    w.set_status(StatusCode::Okay).expect("status must be accepted");
    assert!(w.set_status(StatusCode::NotFound).is_err());
}

#[test]
fn second_write_body_is_a_no_op() {
    let mut w = Writer::new();
    w.set_status(StatusCode::Okay).expect("status must be accepted");
    w.write_body(b"first");
    let after_first = w.output().clone();
    w.write_body(b"second");
    assert_eq!(w.output().as_slice(), after_first.as_slice());
}

#[test]
fn write_body_without_status_defaults_to_200() {
    let mut w = Writer::new();
    w.write_body(b"x");
    assert!(w.output().starts_with(b"HTTP/1.1 200 OK\r\n"));
    assert!(w.output().ends_with(b"\r\n\r\nx"));
}

#[test]
fn status_lines_match_codes() {
    for (code, line) in [
        (StatusCode::Okay, b"HTTP/1.1 200 OK\r\n".as_slice()),
        (StatusCode::BadRequest, b"HTTP/1.1 400 Bad Request\r\n".as_slice()),
        (StatusCode::NotFound, b"HTTP/1.1 404 Not Found\r\n".as_slice()),
        (
            StatusCode::InternalServerError,
            b"HTTP/1.1 500 Internal Server Error\r\n".as_slice(),
        ),
    ] {
        let mut w = Writer::new();
        w.set_status(code).expect("status must be accepted");
        w.write_body(b"");
        assert!(w.output().starts_with(line));
    }
}
