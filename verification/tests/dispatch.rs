use r_http::request::Request;
use r_http::response::{HandlerError, StatusCode, Writer};
use r_http::server::{handle_connection, write_handler_error, Handler};

struct OkHandler;

impl Handler for OkHandler {
    fn handle(&self, _req: Request, res: &mut Writer) -> Result<(), HandlerError> {
        res.set_status(StatusCode::Okay).expect("fresh writer accepts a status");
        res.write_body(b"");
        Ok(())
    }
}

struct PanicHandler;

impl Handler for PanicHandler {
    fn handle(&self, _req: Request, _res: &mut Writer) -> Result<(), HandlerError> {
        panic!("the handler must not be invoked for an unparsable request");
    }
}

struct FailingHandler;

impl Handler for FailingHandler {
    fn handle(&self, _req: Request, _res: &mut Writer) -> Result<(), HandlerError> {
        Err(HandlerError { status: StatusCode::NotFound, message: b"nope".to_vec() })
    }
}

#[test]
fn end_to_end_success() {
    let input = b"GET / HTTP/1.1\r\nHost: x\r\n\r\n";
    let response = handle_connection(input, &OkHandler);
    assert_eq!(
        response.as_slice(),
        b"HTTP/1.1 200 OK\r\nContent-Length: 0\r\nContent-Type: text/plain; charset=utf-8\r\nConnection: close\r\n\r\n".as_slice()
    );
}

#[test]
fn unknown_method_bypasses_handler() {
    let input = b"FETCH / HTTP/1.1\r\nHost: x\r\n\r\n";
    match Request::req_from_reader(input) {
        Err(e) => assert_eq!(e, r_http::errors::ParseError::InvalidMethod),
        Ok(_) => panic!("expected an error"),
    }
    let response = handle_connection(input, &PanicHandler);
    assert!(response.starts_with(b"HTTP/1.1 400 Bad Request\r\n"));
    assert!(response.ends_with(b"Failed to parse request: invalid HTTP method\n"));
}

#[test]
fn handler_error_is_flushed() {
    let input = b"GET / HTTP/1.1\r\nHost: x\r\n\r\n";
    let response = handle_connection(input, &FailingHandler);
    assert_eq!(
        response.as_slice(),
        b"HTTP/1.1 404 Not Found\r\nContent-Type: text/html\r\nContent-Length: 4\r\nConnection: close\r\n\r\nnope".as_slice()
    );
}

#[test]
fn parse_failure_response_is_html_400() {
    let input = b"GET / HTTP/1.1\r\n\r\n";
    let response = handle_connection(input, &PanicHandler);
    assert_eq!(
        response.as_slice(),
        b"HTTP/1.1 400 Bad Request\r\nContent-Type: text/html\r\nContent-Length: 60\r\nConnection: close\r\n\r\nFailed to parse request: unexpected CRLF after request line\n".as_slice()
    );
}

#[test]
fn write_handler_error_on_used_writer_changes_nothing() {
    let mut w = Writer::new();
    w.write_body(b"done");
    let before = w.output().clone();
    write_handler_error(
        &mut w,
        HandlerError { status: StatusCode::InternalServerError, message: b"late".to_vec() },
    );
    assert_eq!(w.output().as_slice(), before.as_slice());
}
