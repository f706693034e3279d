//! The response side: a writer state machine that enforces the
//! status → headers → body order and serializes the response bytes.
//!
//! `set_status` is legal only before anything else, `set_header` only after
//! the status, and the first `write_body` flushes the status line, the
//! headers (with defaults filled in for those the caller did not set), the
//! blank terminator line, and the body. A second `write_body` is a no-op, so
//! a handler that double-writes cannot corrupt the stream.
use vstd::prelude::*;

use crate::bytes::{
    ascii_bytes, bytes_eq, dec_digits, lit_bytes, push_all, push_lit, to_dec, CR, LF,
};
use crate::errors::IllegalStateError;
use vstd::slice::slice_to_vec;

verus! {

/// The status codes a response can carry.
#[derive(Clone, Copy, Debug, PartialEq, Eq, Structural)]
pub enum StatusCode {
    /// 200 OK.
    Okay,
    /// 404 Not Found.
    NotFound,
    /// 500 Internal Server Error.
    InternalServerError,
    /// 400 Bad Request.
    BadRequest,
}

/// An error a handler hands back: a status code and a message body.
pub struct HandlerError {
    /// The status code of the synthesized response.
    pub status: StatusCode,
    /// The bytes of the response body.
    pub message: Vec<u8>,
}

/// Where the writer stands in the status → headers → body order.
#[derive(Clone, Copy, Debug, PartialEq, Eq, Structural)]
pub enum WriterState {
    /// Nothing recorded yet; only `set_status` or `write_body` are legal.
    Init,
    /// The status is recorded; headers may be set or the body written.
    StatusWritten,
    /// The status line and headers are flushed.
    HeadersWritten,
    /// The body is written; every further `write_body` is a no-op.
    BodyWritten,
}

/// One pending response header.
pub struct HeaderPair {
    /// The field name, in the spelling the caller gave.
    pub name: Vec<u8>,
    /// The field value.
    pub value: Vec<u8>,
}

/// The mathematical content of the pending header list.
pub open spec fn pairs_of(hs: Seq<HeaderPair>) -> Seq<(Seq<u8>, Seq<u8>)> {
    Seq::new(hs.len(), |i: int| (hs[i].name@, hs[i].value@))
}

/// Index of the first pending header named `name`, if any.
pub open spec fn pair_index_of(hs: Seq<(Seq<u8>, Seq<u8>)>, name: Seq<u8>) -> Option<nat>
    decreases hs.len(),
{
    if hs.len() == 0 {
        None
    } else if hs[0].0 == name {
        Some(0)
    } else {
        match pair_index_of(hs.skip(1), name) {
            None => None,
            Some(i) => Some((i + 1) as nat),
        }
    }
}

/// Whether some pending header is named `name`.
pub open spec fn has_pair(hs: Seq<(Seq<u8>, Seq<u8>)>, name: Seq<u8>) -> bool {
    pair_index_of(hs, name) is Some
}

/// Stores `value` under `name`: replaces the value of the first header so
/// named, or appends a new one.
pub open spec fn set_pair(hs: Seq<(Seq<u8>, Seq<u8>)>, name: Seq<u8>, value: Seq<u8>) -> Seq<
    (Seq<u8>, Seq<u8>),
> {
    match pair_index_of(hs, name) {
        Some(i) => hs.update(i as int, (name, value)),
        None => hs.push((name, value)),
    }
}

/// What `pair_index_of` returns: the least index named `name`, or `None`.
pub proof fn lemma_pair_index_of_props(hs: Seq<(Seq<u8>, Seq<u8>)>, name: Seq<u8>)
    ensures
        match pair_index_of(hs, name) {
            Some(i) => i < hs.len() && hs[i as int].0 == name && (forall|j: int|
                0 <= j < i ==> hs[j].0 != name),
            None => forall|j: int| 0 <= j < hs.len() ==> hs[j].0 != name,
        },
    decreases hs.len(),
{
    if hs.len() > 0 && hs[0].0 != name {
        lemma_pair_index_of_props(hs.skip(1), name);
        let t = hs.skip(1);
        assert(forall|j: int| 0 <= j < t.len() ==> t[j] == hs[j + 1]);
        match pair_index_of(t, name) {
            Some(i) => {
                assert(hs[i as int + 1] == t[i as int]);
                assert forall|j: int| 0 <= j < i + 1 implies hs[j].0 != name by {
                    if 1 <= j {
                        assert(t[j - 1].0 != name);
                    }
                }
            },
            None => {
                assert forall|j: int| 0 <= j < hs.len() implies hs[j].0 != name by {
                    if 1 <= j {
                        assert(t[j - 1].0 != name);
                    }
                }
            },
        }
    }
}

/// The status line emitted for each status code.
pub open spec fn status_line_view(c: StatusCode) -> Seq<u8> {
    match c {
        StatusCode::Okay => ascii_bytes("HTTP/1.1 200 OK\r\n"@),
        StatusCode::BadRequest => ascii_bytes("HTTP/1.1 400 Bad Request\r\n"@),
        StatusCode::NotFound => ascii_bytes("HTTP/1.1 404 Not Found\r\n"@),
        StatusCode::InternalServerError => ascii_bytes("HTTP/1.1 500 Internal Server Error\r\n"@),
    }
}

/// The recorded status, or 200 when none was set.
pub open spec fn effective_status(st: Option<StatusCode>) -> StatusCode {
    match st {
        Some(c) => c,
        None => StatusCode::Okay,
    }
}

/// The serialized `Name: Value\r\n` lines of the pending headers, in order.
pub open spec fn header_lines_view(hs: Seq<(Seq<u8>, Seq<u8>)>) -> Seq<u8>
    decreases hs.len(),
{
    if hs.len() == 0 {
        Seq::empty()
    } else {
        hs[0].0 + ascii_bytes(": "@) + hs[0].1 + seq![CR, LF] + header_lines_view(hs.skip(1))
    }
}

/// The pending headers with the defaults appended for whichever of
/// `Content-Length`, `Content-Type` and `Connection` the caller did not set.
pub open spec fn with_defaults(hs: Seq<(Seq<u8>, Seq<u8>)>, body_len: nat) -> Seq<
    (Seq<u8>, Seq<u8>),
> {
    let h1 = if has_pair(hs, ascii_bytes("Content-Length"@)) {
        hs
    } else {
        hs.push((ascii_bytes("Content-Length"@), dec_digits(body_len)))
    };
    let h2 = if has_pair(h1, ascii_bytes("Content-Type"@)) {
        h1
    } else {
        h1.push((ascii_bytes("Content-Type"@), ascii_bytes("text/plain; charset=utf-8"@)))
    };
    if has_pair(h2, ascii_bytes("Connection"@)) {
        h2
    } else {
        h2.push((ascii_bytes("Connection"@), ascii_bytes("close"@)))
    }
}

/// The full serialized response: status line, headers with defaults, blank
/// line, body.
pub open spec fn response_bytes(
    status: StatusCode,
    hs: Seq<(Seq<u8>, Seq<u8>)>,
    body: Seq<u8>,
) -> Seq<u8> {
    status_line_view(status) + header_lines_view(with_defaults(hs, body.len())) + seq![CR, LF]
        + body
}

/// The response writer: an output buffer, the pending headers, the recorded
/// status, and the state tag that enforces the write order. One instance per
/// connection.
pub struct Writer {
    /// The pending headers, in the order first set.
    pub headers: Vec<HeaderPair>,
    /// The recorded status code, if `set_status` was called.
    pub status: Option<StatusCode>,
    /// Where the writer stands in the write order.
    pub state: WriterState,
    /// The serialized output so far.
    pub out: Vec<u8>,
}

/// Scans `headers` for the first pair named `name`.
fn find_pair(headers: &Vec<HeaderPair>, name: &[u8]) -> (r: Option<usize>)
    ensures
        match r {
            Some(i) => i < headers@.len() && pair_index_of(pairs_of(headers@), name@) == Some(
                i as nat,
            ),
            None => pair_index_of(pairs_of(headers@), name@) == None::<nat>,
        },
{
    let ghost hs = pairs_of(headers@);
    let len = headers.len();
    let mut i: usize = 0;
    while i < len
        invariant
            i <= len,
            len == headers@.len(),
            hs == pairs_of(headers@),
            forall|j: int| 0 <= j < i ==> hs[j].0 != name@,
        decreases len - i,
    {
        if bytes_eq(headers[i].name.as_slice(), name) {
            proof {
                lemma_pair_index_of_props(hs, name@);
                match pair_index_of(hs, name@) {
                    Some(k) => {
                        if k < i {
                            assert(hs[k as int].0 != name@);
                        } else if i < k {
                            assert(hs[i as int].0 != name@);
                        }
                    },
                    None => {
                        assert(hs[i as int].0 != name@);
                    },
                }
            }
            return Some(i);
        }
        i = i + 1;
    }
    proof {
        lemma_pair_index_of_props(hs, name@);
        if pair_index_of(hs, name@) is Some {
            let k = pair_index_of(hs, name@)->Some_0;
            assert(hs[k as int].0 == name@);
        }
    }
    None
}

impl Writer {
    /// A fresh writer: empty output, no headers, no status, initial state.
    pub fn new() -> (r: Writer)
        ensures
            r.state == WriterState::Init,
            r.status is None,
            pairs_of(r.headers@) == Seq::<(Seq<u8>, Seq<u8>)>::empty(),
            r.out@ == Seq::<u8>::empty(),
    {
        let r = Writer {
            headers: Vec::new(),
            status: None,
            state: WriterState::Init,
            out: Vec::new(),
        };
        proof {
            assert(pairs_of(r.headers@) =~= Seq::<(Seq<u8>, Seq<u8>)>::empty());
        }
        r
    }

    /// The serialized output so far.
    pub fn output(&self) -> (r: &Vec<u8>)
        ensures
            r@ == self.out@,
    {
        &self.out
    }

    /// Records the status code. Legal only in the initial state; in any
    /// other state nothing changes and an error is returned.
    pub fn set_status(&mut self, status: StatusCode) -> (r: Result<(), IllegalStateError>)
        ensures
            old(self).state == WriterState::Init ==> r is Ok && final(self).state
                == WriterState::StatusWritten && final(self).status == Some(status)
                && final(self).headers == old(self).headers && final(self).out == old(self).out,
            old(self).state != WriterState::Init ==> r is Err && *final(self) == *old(self),
    {
        match self.state {
            WriterState::Init => {
                self.status = Some(status);
                self.state = WriterState::StatusWritten;
                Ok(())
            },
            _ => Err(IllegalStateError),
        }
    }

    /// Stores a pending header, replacing the value of an equally named one.
    /// Legal only after `set_status` and before the flush; in any other
    /// state nothing changes and an error is returned.
    pub fn set_header(&mut self, key: &[u8], value: &[u8]) -> (r: Result<(), IllegalStateError>)
        ensures
            old(self).state == WriterState::StatusWritten ==> r is Ok && pairs_of(
                final(self).headers@,
            ) == set_pair(pairs_of(old(self).headers@), key@, value@) && final(self).state == old(
                self,
            ).state && final(self).status == old(self).status && final(self).out == old(self).out,
            old(self).state != WriterState::StatusWritten ==> r is Err && *final(self) == *old(self),
    {
        match self.state {
            WriterState::StatusWritten => {},
            _ => {
                return Err(IllegalStateError);
            },
        }
        let kv = slice_to_vec(key);
        let vv = slice_to_vec(value);
        let ghost oldpairs = pairs_of(self.headers@);
        match find_pair(&self.headers, key) {
            Some(i) => {
                let mut hp = self.headers.remove(i);
                hp.value = vv;
                self.headers.insert(i, hp);
                proof {
                    lemma_pair_index_of_props(oldpairs, key@);
                    assert(oldpairs[i as int].0 == key@);
                    assert(pairs_of(self.headers@) =~= oldpairs.update(i as int, (key@, value@)));
                }
            },
            None => {
                self.headers.push(HeaderPair { name: kv, value: vv });
                proof {
                    assert(pairs_of(self.headers@) =~= oldpairs.push((key@, value@)));
                }
            },
        }
        Ok(())
    }

    /// Emits the status line (200 when no status was recorded), the pending
    /// headers with defaults filled in, and the blank terminator line.
    #[verifier::rlimit(60)]
    fn flush_headers(&mut self, content_length: usize)
        ensures
            final(self).out@ == old(self).out@ + status_line_view(
                effective_status(old(self).status),
            ) + header_lines_view(with_defaults(pairs_of(old(self).headers@), content_length as nat))
                + seq![CR, LF],
            pairs_of(final(self).headers@) == with_defaults(
                pairs_of(old(self).headers@),
                content_length as nat,
            ),
            final(self).state == WriterState::HeadersWritten,
            final(self).status == old(self).status,
    {
        proof {
            reveal_strlit("HTTP/1.1 200 OK\r\n");
            reveal_strlit("HTTP/1.1 400 Bad Request\r\n");
            reveal_strlit("HTTP/1.1 404 Not Found\r\n");
            reveal_strlit("HTTP/1.1 500 Internal Server Error\r\n");
            reveal_strlit("Content-Length");
            reveal_strlit("Content-Type");
            reveal_strlit("Connection");
            reveal_strlit("text/plain; charset=utf-8");
            reveal_strlit("close");
            reveal_strlit(": ");
        }
        match self.status {
            Some(StatusCode::BadRequest) => push_lit(&mut self.out, "HTTP/1.1 400 Bad Request\r\n"),
            Some(StatusCode::NotFound) => push_lit(&mut self.out, "HTTP/1.1 404 Not Found\r\n"),
            Some(StatusCode::InternalServerError) => push_lit(
                &mut self.out,
                "HTTP/1.1 500 Internal Server Error\r\n",
            ),
            _ => push_lit(&mut self.out, "HTTP/1.1 200 OK\r\n"),
        }
        let ghost out1 = self.out@;
        let ghost oldpairs = pairs_of(self.headers@);
        if find_pair(&self.headers, lit_bytes("Content-Length")).is_none() {
            let name = slice_to_vec(lit_bytes("Content-Length"));
            let value = to_dec(content_length);
            self.headers.push(HeaderPair { name, value });
        }
        proof {
            let h1 = if has_pair(oldpairs, ascii_bytes("Content-Length"@)) {
                oldpairs
            } else {
                oldpairs.push((ascii_bytes("Content-Length"@), dec_digits(content_length as nat)))
            };
            assert(pairs_of(self.headers@) =~= h1);
        }
        let ghost pairs1 = pairs_of(self.headers@);
        if find_pair(&self.headers, lit_bytes("Content-Type")).is_none() {
            let name = slice_to_vec(lit_bytes("Content-Type"));
            let value = slice_to_vec(lit_bytes("text/plain; charset=utf-8"));
            self.headers.push(HeaderPair { name, value });
        }
        proof {
            let h2 = if has_pair(pairs1, ascii_bytes("Content-Type"@)) {
                pairs1
            } else {
                pairs1.push((ascii_bytes("Content-Type"@), ascii_bytes("text/plain; charset=utf-8"@)))
            };
            assert(pairs_of(self.headers@) =~= h2);
        }
        let ghost pairs2 = pairs_of(self.headers@);
        if find_pair(&self.headers, lit_bytes("Connection")).is_none() {
            let name = slice_to_vec(lit_bytes("Connection"));
            let value = slice_to_vec(lit_bytes("close"));
            self.headers.push(HeaderPair { name, value });
        }
        proof {
            let h3 = if has_pair(pairs2, ascii_bytes("Connection"@)) {
                pairs2
            } else {
                pairs2.push((ascii_bytes("Connection"@), ascii_bytes("close"@)))
            };
            assert(pairs_of(self.headers@) =~= h3);
            assert(pairs_of(self.headers@) == with_defaults(oldpairs, content_length as nat));
        }
        let ghost pairs = pairs_of(self.headers@);
        let ghost base = self.out@;
        let len = self.headers.len();
        let mut i: usize = 0;
        proof {
            assert(pairs.skip(0) =~= pairs);
        }
        while i < len
            invariant
                i <= len,
                len == self.headers@.len(),
                pairs == pairs_of(self.headers@),
                self.out@ + header_lines_view(pairs.skip(i as int)) == base + header_lines_view(
                    pairs,
                ),
                pairs == with_defaults(oldpairs, content_length as nat),
                base == out1 + header_lines_view(Seq::<(Seq<u8>, Seq<u8>)>::empty()),
                self.status == old(self).status,
                self.state == old(self).state,
                out1 == old(self).out@ + status_line_view(effective_status(old(self).status)),
                oldpairs == pairs_of(old(self).headers@),
            decreases len - i,
        {
            proof {
                reveal_strlit(": ");
            }
            let ghost outpre = self.out@;
            let hname = slice_to_vec(self.headers[i].name.as_slice());
            let hvalue = slice_to_vec(self.headers[i].value.as_slice());
            push_all(&mut self.out, hname.as_slice());
            push_lit(&mut self.out, ": ");
            push_all(&mut self.out, hvalue.as_slice());
            self.out.push(CR);
            self.out.push(LF);
            proof {
                let rest = pairs.skip(i as int);
                assert(rest[0] == pairs[i as int]);
                assert(rest.skip(1) =~= pairs.skip(i as int + 1));
                assert(self.out@ =~= outpre + (pairs[i as int].0 + ascii_bytes(": "@)
                    + pairs[i as int].1 + seq![CR, LF]));
                assert(self.out@ + header_lines_view(pairs.skip(i as int + 1)) =~= outpre
                    + header_lines_view(pairs.skip(i as int)));
            }
            i = i + 1;
        }
        proof {
            assert(header_lines_view(pairs.skip(len as int)) =~= Seq::<u8>::empty());
            assert(self.out@ + header_lines_view(pairs.skip(len as int)) =~= self.out@);
            assert(header_lines_view(Seq::<(Seq<u8>, Seq<u8>)>::empty()) =~= Seq::<u8>::empty());
            assert(base =~= out1);
        }
        self.out.push(CR);
        self.out.push(LF);
        self.state = WriterState::HeadersWritten;
        proof {
            assert(self.out@ =~= old(self).out@ + status_line_view(
                effective_status(old(self).status),
            ) + header_lines_view(with_defaults(oldpairs, content_length as nat)) + seq![CR, LF]);
        }
    }

    /// Writes the body. On its first call this flushes the status line, the
    /// headers with defaults, and the blank line, then the body bytes, and
    /// reaches the terminal state; after that it is a no-op.
    pub fn write_body(&mut self, body: &[u8])
        ensures
            old(self).state == WriterState::BodyWritten ==> *final(self) == *old(self),
            old(self).state != WriterState::BodyWritten ==> final(self).state
                == WriterState::BodyWritten && final(self).out@ == old(self).out@ + response_bytes(
                effective_status(old(self).status),
                pairs_of(old(self).headers@),
                body@,
            ) && pairs_of(final(self).headers@) == with_defaults(
                pairs_of(old(self).headers@),
                body@.len(),
            ) && final(self).status == old(self).status,
    {
        match self.state {
            WriterState::BodyWritten => {},
            _ => {
                let blen = body.len();
                self.flush_headers(blen);
                push_all(&mut self.out, body);
                self.state = WriterState::BodyWritten;
                proof {
                    assert(self.out@ =~= old(self).out@ + response_bytes(
                        effective_status(old(self).status),
                        pairs_of(old(self).headers@),
                        body@,
                    ));
                }
            },
        }
    }
}

} // verus!
