//! The per-connection dispatch step. The accept loop, sockets, and worker
//! threads live outside the library: a worker reads the request bytes from
//! its connection, calls `handle_connection` once, writes the returned bytes
//! back, and closes the connection.
//!
//! A request that fails to parse never reaches the handler: the exchange
//! synthesizes a 400 response carrying the error text. A handler-returned
//! error is flushed through the same path.
use vstd::prelude::*;

use crate::bytes::{ascii_bytes, lit_bytes, push_all, push_lit};
use crate::errors::{message_spec, ParseError};
use crate::request::{req_spec, Request};
use crate::response::{
    pairs_of, response_bytes, set_pair, HandlerError, StatusCode, Writer, WriterState,
};

verus! {

broadcast use vstd::string::is_ascii_spec_bytes;

/// A user-supplied request handler: the single extension point external code
/// plugs into. Implementations are outside the library and unverified.
pub trait Handler {
    /// Handles one parsed request, writing the response through `res`;
    /// returns an error to have a response synthesized from it instead.
    fn handle(&self, req: Request, res: &mut Writer) -> (r: Result<(), HandlerError>);
}

/// The body of the response synthesized for a request that failed to parse.
pub open spec fn failure_body(e: ParseError) -> Seq<u8> {
    ascii_bytes("Failed to parse request: "@) + ascii_bytes(message_spec(e)) + ascii_bytes("\n"@)
}

/// The full response synthesized for a request that failed to parse: a 400
/// with an HTML content type and the error text as body.
pub open spec fn parse_failure_response(e: ParseError) -> Seq<u8> {
    response_bytes(
        StatusCode::BadRequest,
        set_pair(
            Seq::<(Seq<u8>, Seq<u8>)>::empty(),
            ascii_bytes("Content-Type"@),
            ascii_bytes("text/html"@),
        ),
        failure_body(e),
    )
}

/// Flushes a handler error through `writer`: status, HTML content type, and
/// the message as body. Legal only on a writer still in its initial state;
/// misuse by the handler (any other state) is fatal for the exchange and
/// leaves the writer untouched.
pub fn write_handler_error(writer: &mut Writer, err: HandlerError)
    ensures
        old(writer).state == WriterState::Init ==> final(writer).state == WriterState::BodyWritten
            && final(writer).out@ == old(writer).out@ + response_bytes(
            err.status,
            set_pair(
                pairs_of(old(writer).headers@),
                ascii_bytes("Content-Type"@),
                ascii_bytes("text/html"@),
            ),
            err.message@,
        ),
        old(writer).state != WriterState::Init ==> *final(writer) == *old(writer),
{
    proof {
        reveal_strlit("Content-Type");
        reveal_strlit("text/html");
    }
    match writer.set_status(err.status) {
        Err(_) => {
            return ;
        },
        Ok(_) => {},
    }
    match writer.set_header(lit_bytes("Content-Type"), lit_bytes("text/html")) {
        Err(_) => {
            return ;
        },
        Ok(_) => {},
    }
    writer.write_body(err.message.as_slice());
}

/// Runs one request/response exchange over `input`, the bytes read from one
/// connection, and returns the bytes to send back. A request that fails to
/// parse yields exactly the synthesized 400 response, and the handler is not
/// invoked; otherwise the handler writes the response, and a handler error
/// is flushed through the same path as parse failures.
pub fn handle_connection<H: Handler>(input: &[u8], handler: &H) -> (r: Vec<u8>)
    ensures
        req_spec(input@) matches Err(e) ==> r@ == parse_failure_response(e),
{
    let mut writer = Writer::new();
    let req = match Request::req_from_reader(input) {
        Err(e) => {
            let msg = e.message();
            let mut body: Vec<u8> = Vec::new();
            proof {
                reveal_strlit("Failed to parse request: ");
                reveal_strlit("\n");
            }
            push_lit(&mut body, "Failed to parse request: ");
            let mb = msg.as_bytes();
            proof {
                assert(mb@ =~= ascii_bytes(message_spec(e)));
            }
            push_all(&mut body, mb);
            push_lit(&mut body, "\n");
            proof {
                assert(body@ =~= failure_body(e));
            }
            let err = HandlerError { status: StatusCode::BadRequest, message: body };
            write_handler_error(&mut writer, err);
            proof {
                assert(writer.out@ =~= parse_failure_response(e));
            }
            return writer.out;
        },
        Ok(req) => req,
    };
    match handler.handle(req, &mut writer) {
        Ok(_) => {},
        Err(e) => {
            write_handler_error(&mut writer, e);
        },
    }
    writer.out
}

} // verus!
