//! The request side of the pipeline: the request line (method, target,
//! version), the header block, and the message body, decoded from one byte
//! buffer into a `Request`.
//!
//! The grammar and the error for every rejected input are fixed by the spec
//! functions here; each exec parser returns exactly what its spec function
//! denotes.
use vstd::prelude::*;

use crate::bytes::{
    ascii_bytes, bytes_eq, copy_range, find_byte, find_byte_spec, find_crlf, find_crlf_spec,
    has_prefix, is_ws_byte, is_ws_char, lemma_find_crlf_props, lit_bytes, lower_bytes, parse_dec,
    parse_hex, push_all, push_lit, starts_with, to_lower, trim_end, trim_end_spec, all_digits,
    all_hex_digits, dec_value, hex_value, CR, LF,
};
use crate::errors::ParseError;
use crate::headers::{
    has_name, parse_header_block_spec, value_of, wf_fields, HeaderFieldView, Headers,
};
use vstd::slice::{slice_index_get, slice_subrange};

verus! {

/// The longest permitted request line, in bytes, terminator excluded.
pub const MAX_LINE_LEN: usize = 8192;

/// Length of the run of non-whitespace bytes at the start of `s`.
pub open spec fn nonws_run(s: Seq<u8>) -> nat
    decreases s.len(),
{
    if s.len() > 0 && !is_ws_byte(s[0]) {
        1 + nonws_run(s.skip(1))
    } else {
        0
    }
}

/// The run is bounded by the length and is nonempty at a non-whitespace byte.
pub proof fn lemma_nonws_run_bound(s: Seq<u8>)
    ensures
        nonws_run(s) <= s.len(),
        s.len() > 0 && !is_ws_byte(s[0]) ==> nonws_run(s) >= 1,
    decreases s.len(),
{
    if s.len() > 0 && !is_ws_byte(s[0]) {
        lemma_nonws_run_bound(s.skip(1));
    }
}

/// The maximal non-whitespace runs of `s`, in order: what splitting on ASCII
/// whitespace yields.
pub open spec fn split_ws(s: Seq<u8>) -> Seq<Seq<u8>>
    decreases s.len(),
{
    if s.len() == 0 {
        Seq::empty()
    } else if is_ws_byte(s[0]) {
        split_ws(s.skip(1))
    } else {
        proof {
            lemma_nonws_run_bound(s);
        }
        seq![s.take(nonws_run(s) as int)] + split_ws(s.skip(nonws_run(s) as int))
    }
}

/// A boundary of all-non-whitespace bytes determines `nonws_run` exactly.
pub proof fn lemma_nonws_run_at(s: Seq<u8>, m: int)
    requires
        0 <= m <= s.len(),
        forall|j: int| 0 <= j < m ==> !is_ws_byte(s[j]),
        m < s.len() ==> is_ws_byte(s[m]),
    ensures
        nonws_run(s) == m,
    decreases s.len(),
{
    if s.len() > 0 && !is_ws_byte(s[0]) {
        let t = s.skip(1);
        assert(forall|j: int| 0 <= j < t.len() ==> t[j] == s[j + 1]);
        assert(m >= 1);
        lemma_nonws_run_at(t, m - 1);
    }
}

/// The supported request methods.
pub open spec fn is_method(t: Seq<u8>) -> bool {
    ||| t == ascii_bytes("GET"@)
    ||| t == ascii_bytes("POST"@)
    ||| t == ascii_bytes("PUT"@)
    ||| t == ascii_bytes("DELETE"@)
    ||| t == ascii_bytes("HEAD"@)
    ||| t == ascii_bytes("OPTIONS"@)
    ||| t == ascii_bytes("PATCH"@)
    ||| t == ascii_bytes("CONNECT"@)
}

/// The four permitted shapes of a request target.
#[derive(Clone, Copy, Debug, PartialEq, Eq, Structural)]
pub enum TargetForm {
    /// A path beginning with `/`.
    Origin,
    /// A full URL beginning with `http://` or `https://`.
    Absolute,
    /// The single byte `*`.
    Asterisk,
    /// A `host:port` pair, valid only with the CONNECT method.
    Authority,
}

/// Classifies `target` into exactly one form, or none when it fits no form.
pub open spec fn target_form_spec(method: Seq<u8>, target: Seq<u8>) -> Option<TargetForm> {
    if has_prefix(target, ascii_bytes("http://"@)) || has_prefix(target, ascii_bytes("https://"@)) {
        Some(TargetForm::Absolute)
    } else if target.len() > 0 && target[0] == ('/' as u8) {
        Some(TargetForm::Origin)
    } else if target == ascii_bytes("*"@) {
        Some(TargetForm::Asterisk)
    } else if method == ascii_bytes("CONNECT"@) && find_byte_spec(target, ':' as u8) is Some {
        Some(TargetForm::Authority)
    } else {
        None
    }
}

/// The mathematical content of a parsed request line.
pub struct RequestLineView {
    /// The method token.
    pub method: Seq<u8>,
    /// The target token, possibly rewritten to absolute form later.
    pub target: Seq<u8>,
    /// The version token.
    pub version: Seq<u8>,
}

/// Parses the request line at the start of `s`: one CRLF-terminated line of
/// at most `MAX_LINE_LEN` bytes holding exactly three tokens, a valid
/// method, any target of a permitted form, and a version beginning `HTTP/`.
/// Returns the line and the bytes consumed, terminator included.
pub open spec fn parse_request_line_spec(s: Seq<u8>) -> Result<(RequestLineView, nat), ParseError> {
    match find_crlf_spec(s) {
        None => {
            if s.len() >= MAX_LINE_LEN + 2 {
                Err(ParseError::LineTooLong)
            } else {
                Err(ParseError::UnexpectedEof)
            }
        },
        Some(k) => {
            if k > MAX_LINE_LEN {
                Err(ParseError::LineTooLong)
            } else {
                let toks = split_ws(s.take(k as int));
                if toks.len() != 3 {
                    Err(ParseError::MalformedRequestLine)
                } else if !is_method(toks[0]) {
                    Err(ParseError::InvalidMethod)
                } else if !has_prefix(toks[2], ascii_bytes("HTTP/"@)) {
                    Err(ParseError::InvalidVersion)
                } else if target_form_spec(toks[0], toks[1]) is None {
                    Err(ParseError::InvalidTarget)
                } else {
                    Ok(
                        (
                            RequestLineView { method: toks[0], target: toks[1], version: toks[2] },
                            (k + 2) as nat,
                        ),
                    )
                }
            }
        },
    }
}

/// Decodes a chunked body from the start of `s`: hexadecimal size lines,
/// each nonzero size followed by that many payload bytes and a mandatory
/// CRLF, until the zero size line. Payload bytes accumulate onto `acc`.
pub open spec fn chunked_spec(s: Seq<u8>, acc: Seq<u8>) -> Result<Seq<u8>, ParseError>
    decreases s.len(),
{
    match find_crlf_spec(s) {
        None => Err(ParseError::UnexpectedEof),
        Some(k) => {
            let szline = trim_end_spec(s.take(k as int));
            if !(szline.len() >= 1 && all_hex_digits(szline) && hex_value(szline) <= usize::MAX) {
                Err(ParseError::ChunkFramingError)
            } else {
                let n = hex_value(szline);
                if n == 0 {
                    Ok(acc)
                } else if s.len() < k + 2 + n + 2 {
                    Err(ParseError::UnexpectedEof)
                } else if !(s[(k + 2 + n) as int] == CR && s[(k + 2 + n + 1) as int] == LF) {
                    Err(ParseError::ChunkFramingError)
                } else {
                    proof {
                        lemma_find_crlf_props(s);
                    }
                    chunked_spec(
                        s.skip(k + 2 + n + 2 as int),
                        acc + s.subrange(k + 2 as int, (k + 2 + n) as int),
                    )
                }
            }
        },
    }
}

/// Decodes the message body from `s` (the bytes after the header block) as
/// the headers `hs` direct: exactly `content-length` bytes, or chunked
/// transfer encoding, or empty when neither header is present.
pub open spec fn body_spec(s: Seq<u8>, hs: Seq<HeaderFieldView>) -> Result<Seq<u8>, ParseError> {
    let has_cl = has_name(hs, ascii_bytes("content-length"@));
    let has_te = has_name(hs, ascii_bytes("transfer-encoding"@));
    if has_cl && has_te {
        Err(ParseError::ConflictingLengthSpecification)
    } else if has_cl {
        let v = value_of(hs, ascii_bytes("content-length"@));
        if !(v.len() >= 1 && all_digits(v) && dec_value(v) <= usize::MAX) {
            Err(ParseError::InvalidContentLength)
        } else if s.len() < dec_value(v) {
            Err(ParseError::TruncatedBody)
        } else {
            Ok(s.take(dec_value(v) as int))
        }
    } else if has_te {
        if lower_bytes(value_of(hs, ascii_bytes("transfer-encoding"@))) != ascii_bytes("chunked"@) {
            Err(ParseError::UnsupportedTransferEncoding)
        } else {
            chunked_spec(s, Seq::empty())
        }
    } else {
        Ok(Seq::empty())
    }
}

/// Rewrites the target after body decoding: origin form requires a `host`
/// header and becomes `http://` + host + path; authority form becomes
/// `http://` + target; absolute and asterisk forms stay unchanged. The
/// scheme is fixed to plaintext `http`, a documented limitation: the core
/// carries no transport-security signal to decide otherwise.
pub open spec fn normalize_target_spec(
    method: Seq<u8>,
    target: Seq<u8>,
    hs: Seq<HeaderFieldView>,
) -> Result<Seq<u8>, ParseError> {
    match target_form_spec(method, target) {
        Some(TargetForm::Origin) => {
            if !has_name(hs, ascii_bytes("host"@)) {
                Err(ParseError::MissingHostHeader)
            } else {
                Ok(ascii_bytes("http://"@) + value_of(hs, ascii_bytes("host"@)) + target)
            }
        },
        Some(TargetForm::Authority) => Ok(ascii_bytes("http://"@) + target),
        _ => Ok(target),
    }
}

/// The mathematical content of a parsed request.
pub struct RequestView {
    /// The method token.
    pub method: Seq<u8>,
    /// The target, after normalization.
    pub target: Seq<u8>,
    /// The version token.
    pub version: Seq<u8>,
    /// The parsed header block.
    pub headers: Seq<HeaderFieldView>,
    /// The decoded body bytes.
    pub body: Seq<u8>,
}

/// The mathematical content of a sequence of byte vectors.
pub open spec fn vecs_of(ts: Seq<Vec<u8>>) -> Seq<Seq<u8>> {
    Seq::new(ts.len(), |i: int| ts[i]@)
}

/// Splits `line` on runs of ASCII whitespace into its tokens.
fn split_tokens(line: &[u8]) -> (r: Vec<Vec<u8>>)
    ensures
        vecs_of(r@) == split_ws(line@),
{
    let len = line.len();
    let mut toks: Vec<Vec<u8>> = Vec::new();
    let mut p: usize = 0;
    proof {
        assert(line@.skip(0) =~= line@);
        assert(vecs_of(toks@) =~= Seq::<Seq<u8>>::empty());
        assert(vecs_of(toks@) + split_ws(line@) =~= split_ws(line@));
    }
    loop
        invariant
            p <= len,
            len == line@.len(),
            vecs_of(toks@) + split_ws(line@.skip(p as int)) == split_ws(line@),
        ensures
            p == len,
            vecs_of(toks@) + split_ws(line@.skip(p as int)) == split_ws(line@),
        decreases len - p,
    {
        let ghost p_at_entry = p as int;
        while p < len && is_ws_char(*slice_index_get(line, p))
            invariant
                p_at_entry <= p <= len,
                len == line@.len(),
                vecs_of(toks@) + split_ws(line@.skip(p as int)) == split_ws(line@),
            decreases len - p,
        {
            proof {
                let s = line@.skip(p as int);
                assert(s[0] == line@[p as int]);
                assert(s.skip(1) =~= line@.skip(p as int + 1));
            }
            p = p + 1;
        }
        if p == len {
            break ;
        }
        let start = p;
        let ghost startv = p as int;
        proof {
            assert(!is_ws_byte(line@[startv]));
        }
        p = p + 1;
        while p < len && !is_ws_char(*slice_index_get(line, p))
            invariant
                start < p <= len,
                len == line@.len(),
                forall|j: int| startv <= j < p ==> !is_ws_byte(line@[j]),
                startv == start as int,
                p_at_entry <= startv,
            decreases len - p,
        {
            p = p + 1;
        }
        let tok = copy_range(line, start, p);
        let ghost oldtoks = toks@;
        toks.push(tok);
        proof {
            let s = line@.skip(startv);
            assert(forall|j: int| 0 <= j < s.len() ==> s[j] == line@[j + startv]);
            lemma_nonws_run_at(s, p - startv);
            assert(s.take(p - startv) =~= line@.subrange(startv, p as int));
            assert(s.skip(p - startv) =~= line@.skip(p as int));
            assert(split_ws(s) == seq![tok@] + split_ws(line@.skip(p as int)));
            assert(vecs_of(toks@) =~= vecs_of(oldtoks).push(tok@));
            assert(vecs_of(toks@) + split_ws(line@.skip(p as int)) =~= vecs_of(oldtoks) + (
            seq![tok@] + split_ws(line@.skip(p as int))));
        }
    }
    proof {
        assert(line@.skip(len as int) =~= Seq::<u8>::empty());
        assert(vecs_of(toks@) + split_ws(line@.skip(len as int)) =~= vecs_of(toks@));
    }
    toks
}

/// Exec mirror of `is_method`.
pub fn is_valid_method(m: &[u8]) -> (r: bool)
    ensures
        r == is_method(m@),
{
    proof {
        reveal_strlit("GET");
        reveal_strlit("POST");
        reveal_strlit("PUT");
        reveal_strlit("DELETE");
        reveal_strlit("HEAD");
        reveal_strlit("OPTIONS");
        reveal_strlit("PATCH");
        reveal_strlit("CONNECT");
    }
    bytes_eq(m, lit_bytes("GET")) || bytes_eq(m, lit_bytes("POST")) || bytes_eq(
        m,
        lit_bytes("PUT"),
    ) || bytes_eq(m, lit_bytes("DELETE")) || bytes_eq(m, lit_bytes("HEAD")) || bytes_eq(
        m,
        lit_bytes("OPTIONS"),
    ) || bytes_eq(m, lit_bytes("PATCH")) || bytes_eq(m, lit_bytes("CONNECT"))
}

/// A parsed request line: method, target, and version, immutable once
/// parsed. The target may be rewritten to absolute form by normalization.
#[derive(Debug)]
pub struct RequestLine {
    /// The method token.
    pub method: Vec<u8>,
    /// The target token.
    pub request_target: Vec<u8>,
    /// The version token.
    pub http_version: Vec<u8>,
}

impl View for RequestLine {
    type V = RequestLineView;

    open spec fn view(&self) -> RequestLineView {
        RequestLineView {
            method: self.method@,
            target: self.request_target@,
            version: self.http_version@,
        }
    }
}

/// A parsed request: request line, headers, and body. Built entirely by the
/// parser and read-only thereafter.
#[derive(Debug)]
pub struct Request {
    /// The request line, with the target in normalized form.
    pub request_line: RequestLine,
    /// The parsed header block.
    pub headers: Headers,
    /// The decoded body bytes, possibly empty.
    pub body: Vec<u8>,
}

impl View for Request {
    type V = RequestView;

    open spec fn view(&self) -> RequestView {
        RequestView {
            method: self.request_line.method@,
            target: self.request_line.request_target@,
            version: self.request_line.http_version@,
            headers: self.headers@,
            body: self.body@,
        }
    }
}

impl Request {
    /// An empty request: every part zero-length.
    pub fn new() -> (r: Request)
        ensures
            r@.method == Seq::<u8>::empty(),
            r@.target == Seq::<u8>::empty(),
            r@.version == Seq::<u8>::empty(),
            r@.headers == Seq::<HeaderFieldView>::empty(),
            r@.body == Seq::<u8>::empty(),
    {
        let r = Request {
            request_line: RequestLine {
                method: Vec::new(),
                request_target: Vec::new(),
                http_version: Vec::new(),
            },
            headers: Headers { entries: Vec::new() },
            body: Vec::new(),
        };
        proof {
            assert(r@.headers =~= Seq::<HeaderFieldView>::empty());
        }
        r
    }

    /// The method token.
    pub fn method(&self) -> (r: &Vec<u8>)
        ensures
            r@ == self@.method,
    {
        &self.request_line.method
    }

    /// The target, after normalization.
    pub fn request_target(&self) -> (r: &Vec<u8>)
        ensures
            r@ == self@.target,
    {
        &self.request_line.request_target
    }

    /// The version token.
    pub fn http_version(&self) -> (r: &Vec<u8>)
        ensures
            r@ == self@.version,
    {
        &self.request_line.http_version
    }

    /// Looks up a header value by name, compared case-insensitively.
    pub fn header(&self, key: &[u8]) -> (r: Option<&Vec<u8>>)
        ensures
            match r {
                Some(v) => has_name(self@.headers, lower_bytes(key@)) && v@ == value_of(
                    self@.headers,
                    lower_bytes(key@),
                ),
                None => !has_name(self@.headers, lower_bytes(key@)),
            },
    {
        self.headers.get_value(key)
    }

    /// The parsed header block.
    pub fn headers(&self) -> (r: Option<&Headers>)
        ensures
            r matches Some(h) && h@ == self@.headers,
    {
        Some(&self.headers)
    }

    /// The body bytes, or `None` when the body is empty.
    pub fn body(&self) -> (r: Option<&Vec<u8>>)
        ensures
            match r {
                Some(b) => b@ == self@.body && self@.body.len() > 0,
                None => self@.body.len() == 0,
            },
    {
        if self.body.len() == 0 {
            None
        } else {
            Some(&self.body)
        }
    }

    /// Whether `line` is exactly the CRLF terminator.
    pub fn is_crlf(line: &[u8]) -> (r: bool)
        ensures
            r == (line@ == seq![CR, LF]),
    {
        let r = line.len() == 2 && *slice_index_get(line, 0) == CR && *slice_index_get(line, 1)
            == LF;
        proof {
            if r {
                assert(line@ =~= seq![CR, LF]);
            } else {
                if line@ == seq![CR, LF] {
                    assert(line@.len() == 2 && line@[0] == CR && line@[1] == LF);
                }
            }
        }
        r
    }

    /// Classifies `target` into exactly one of the four permitted forms; any
    /// other shape is rejected.
    pub fn verify_target_url(method: &[u8], target: &[u8]) -> (r: Result<TargetForm, ParseError>)
        ensures
            match r {
                Ok(f) => target_form_spec(method@, target@) == Some(f),
                Err(e) => target_form_spec(method@, target@) is None && e
                    == ParseError::InvalidTarget,
            },
    {
        proof {
            reveal_strlit("http://");
            reveal_strlit("https://");
            reveal_strlit("*");
            reveal_strlit("CONNECT");
        }
        if starts_with(target, lit_bytes("http://")) || starts_with(target, lit_bytes("https://")) {
            Ok(TargetForm::Absolute)
        } else if target.len() > 0 && *slice_index_get(target, 0) == ('/' as u8) {
            Ok(TargetForm::Origin)
        } else if bytes_eq(target, lit_bytes("*")) {
            Ok(TargetForm::Asterisk)
        } else if bytes_eq(method, lit_bytes("CONNECT")) && find_byte(target, ':' as u8).is_some() {
            Ok(TargetForm::Authority)
        } else {
            Err(ParseError::InvalidTarget)
        }
    }

    /// Parses the request line at the start of `input`. Returns the line and
    /// the number of bytes consumed, terminator included.
    pub fn parse_request_line(input: &[u8]) -> (r: Result<(RequestLine, usize), ParseError>)
        ensures
            match r {
                Ok(p) => parse_request_line_spec(input@) == Ok::<(RequestLineView, nat),
                    ParseError,
                >((p.0@, p.1 as nat)) && p.1 <= input@.len(),
                Err(e) => parse_request_line_spec(input@) == Err::<(RequestLineView, nat),
                    ParseError,
                >(e),
            },
    {
        let ilen = input.len();
        proof {
            assert(input@.skip(0) =~= input@);
        }
        let k = match find_crlf(input, 0) {
            None => {
                if ilen >= MAX_LINE_LEN + 2 {
                    return Err(ParseError::LineTooLong);
                } else {
                    return Err(ParseError::UnexpectedEof);
                }
            },
            Some(k) => k,
        };
        if k > MAX_LINE_LEN {
            return Err(ParseError::LineTooLong);
        }
        let line = slice_subrange(input, 0, k);
        proof {
            assert(line@ =~= input@.take(k as int));
        }
        let mut toks = split_tokens(line);
        let ghost toksv = split_ws(input@.take(k as int));
        if toks.len() != 3 {
            return Err(ParseError::MalformedRequestLine);
        }
        let version = match toks.pop() {
            Some(v) => v,
            None => {
                return Err(ParseError::MalformedRequestLine);
            },
        };
        let target = match toks.pop() {
            Some(v) => v,
            None => {
                return Err(ParseError::MalformedRequestLine);
            },
        };
        let method = match toks.pop() {
            Some(v) => v,
            None => {
                return Err(ParseError::MalformedRequestLine);
            },
        };
        proof {
            assert(method@ == toksv[0]);
            assert(target@ == toksv[1]);
            assert(version@ == toksv[2]);
        }
        if !is_valid_method(method.as_slice()) {
            return Err(ParseError::InvalidMethod);
        }
        proof {
            reveal_strlit("HTTP/");
        }
        if !starts_with(version.as_slice(), lit_bytes("HTTP/")) {
            return Err(ParseError::InvalidVersion);
        }
        match Self::verify_target_url(method.as_slice(), target.as_slice()) {
            Err(e) => Err(e),
            Ok(_form) => Ok(
                (
                    RequestLine { method, request_target: target, http_version: version },
                    k + 2,
                ),
            ),
        }
    }

    /// Decodes a chunked body from `input` at position `from`: size lines
    /// and payloads up to and including the zero size line.
    pub fn read_chunked_body(input: &[u8], from: usize) -> (r: Result<Vec<u8>, ParseError>)
        requires
            from <= input@.len(),
        ensures
            match r {
                Ok(b) => chunked_spec(input@.skip(from as int), Seq::empty()) == Ok::<
                    Seq<u8>,
                    ParseError,
                >(b@),
                Err(e) => chunked_spec(input@.skip(from as int), Seq::empty()) == Err::<
                    Seq<u8>,
                    ParseError,
                >(e),
            },
    {
        let ilen = input.len();
        let mut body: Vec<u8> = Vec::new();
        let mut p = from;
        proof {
            assert(body@ =~= Seq::<u8>::empty());
        }
        loop
            invariant
                from <= p <= ilen,
                ilen == input@.len(),
                chunked_spec(input@.skip(p as int), body@) == chunked_spec(
                    input@.skip(from as int),
                    Seq::empty(),
                ),
            decreases ilen - p,
        {
            let ghost s = input@.skip(p as int);
            let kabs = match find_crlf(input, p) {
                None => {
                    return Err(ParseError::UnexpectedEof);
                },
                Some(kabs) => kabs,
            };
            let ghost k = kabs - p;
            let szline = slice_subrange(input, p, kabs);
            proof {
                assert(szline@ =~= s.take(k));
            }
            let sz = trim_end(szline);
            let n = match parse_hex(sz.as_slice()) {
                None => {
                    return Err(ParseError::ChunkFramingError);
                },
                Some(n) => n,
            };
            if n == 0 {
                return Ok(body);
            }
            let p2 = kabs + 2;
            if ilen - p2 < n || ilen - p2 - n < 2 {
                proof {
                    assert(s.len() < k + 2 + n + 2);
                }
                return Err(ParseError::UnexpectedEof);
            }
            proof {
                assert(s[k + 2 + n] == input@[p2 + n]);
                assert(s[k + 2 + n + 1] == input@[p2 + n + 1]);
            }
            let c1 = *slice_index_get(input, p2 + n);
            let c2 = *slice_index_get(input, p2 + n + 1);
            if !(c1 == CR && c2 == LF) {
                return Err(ParseError::ChunkFramingError);
            }
            let chunk = slice_subrange(input, p2, p2 + n);
            push_all(&mut body, chunk);
            proof {
                assert(chunk@ =~= s.subrange(k + 2, k + 2 + n));
                assert(s.skip(k + 2 + n + 2) =~= input@.skip((p2 + n + 2) as int));
            }
            p = p2 + n + 2;
        }
    }

    /// Parses one full request from the start of `input`: request line,
    /// header block, body, then target normalization. Bytes after the
    /// request are ignored.
    pub fn req_from_reader(input: &[u8]) -> (r: Result<Request, ParseError>)
        ensures
            match r {
                Ok(req) => req_spec(input@) == Ok::<RequestView, ParseError>(req@) && wf_fields(
                    req.headers@,
                ),
                Err(e) => req_spec(input@) == Err::<RequestView, ParseError>(e),
            },
    {
        let ilen = input.len();
        let (mut request_line, n1) = match Self::parse_request_line(input) {
            Err(e) => {
                return Err(e);
            },
            Ok(p) => p,
        };
        let rest1 = slice_subrange(input, n1, ilen);
        proof {
            assert(rest1@ =~= input@.skip(n1 as int));
        }
        let (headers, n2) = match Headers::parse_header_line(rest1) {
            Err(e) => {
                return Err(e);
            },
            Ok(p) => p,
        };
        let bstart = n1 + n2;
        let ghost srest = input@.skip(bstart as int);
        proof {
            reveal_strlit("content-length");
            reveal_strlit("transfer-encoding");
            reveal_strlit("chunked");
            reveal_strlit("host");
            assert(lower_bytes(ascii_bytes("content-length"@)) =~= ascii_bytes("content-length"@));
            assert(lower_bytes(ascii_bytes("transfer-encoding"@)) =~= ascii_bytes(
                "transfer-encoding"@,
            ));
            assert(lower_bytes(ascii_bytes("host"@)) =~= ascii_bytes("host"@));
        }
        let cl = headers.get_value(lit_bytes("content-length"));
        let te_present = headers.get_value(lit_bytes("transfer-encoding")).is_some();
        let mut body: Vec<u8> = Vec::new();
        proof {
            assert(body@ =~= Seq::<u8>::empty());
        }
        if cl.is_some() && te_present {
            return Err(ParseError::ConflictingLengthSpecification);
        }
        match cl {
            Some(v) => {
                let n = match parse_dec(v.as_slice()) {
                    None => {
                        return Err(ParseError::InvalidContentLength);
                    },
                    Some(n) => n,
                };
                if ilen - bstart < n {
                    proof {
                        assert(srest.len() < n);
                    }
                    return Err(ParseError::TruncatedBody);
                }
                body = copy_range(input, bstart, bstart + n);
                proof {
                    assert(body@ =~= srest.take(n as int));
                }
            },
            None => {
                if te_present {
                    let tev = match headers.get_value(lit_bytes("transfer-encoding")) {
                        Some(tev) => tev,
                        None => {
                            return Err(ParseError::UnsupportedTransferEncoding);
                        },
                    };
                    let tel = to_lower(tev.as_slice());
                    if !bytes_eq(tel.as_slice(), lit_bytes("chunked")) {
                        return Err(ParseError::UnsupportedTransferEncoding);
                    }
                    body = match Self::read_chunked_body(input, bstart) {
                        Err(e) => {
                            return Err(e);
                        },
                        Ok(b) => b,
                    };
                }
            },
        }
        let form = match Self::verify_target_url(
            request_line.method.as_slice(),
            request_line.request_target.as_slice(),
        ) {
            Err(e) => {
                return Err(e);
            },
            Ok(f) => f,
        };
        match form {
            TargetForm::Origin => {
                let host = match headers.get_value(lit_bytes("host")) {
                    None => {
                        return Err(ParseError::MissingHostHeader);
                    },
                    Some(h) => h,
                };
                let mut t: Vec<u8> = Vec::new();
                proof {
                    reveal_strlit("http://");
                }
                push_lit(&mut t, "http://");
                push_all(&mut t, host.as_slice());
                push_all(&mut t, request_line.request_target.as_slice());
                request_line.request_target = t;
            },
            TargetForm::Authority => {
                let mut t: Vec<u8> = Vec::new();
                proof {
                    reveal_strlit("http://");
                }
                push_lit(&mut t, "http://");
                push_all(&mut t, request_line.request_target.as_slice());
                request_line.request_target = t;
            },
            _ => {},
        }
        Ok(Request { request_line, headers, body })
    }
}

/// Parses one full request from the start of `s`: request line, header
/// block, body, then target normalization. Bytes after the request are
/// ignored.
pub open spec fn req_spec(s: Seq<u8>) -> Result<RequestView, ParseError> {
    match parse_request_line_spec(s) {
        Err(e) => Err(e),
        Ok((rl, n1)) => match parse_header_block_spec(s.skip(n1 as int)) {
            Err(e) => Err(e),
            Ok((hs, n2)) => match body_spec(s.skip(n1 as int + n2 as int), hs) {
                Err(e) => Err(e),
                Ok(body) => match normalize_target_spec(rl.method, rl.target, hs) {
                    Err(e) => Err(e),
                    Ok(t2) => Ok(
                        RequestView {
                            method: rl.method,
                            target: t2,
                            version: rl.version,
                            headers: hs,
                            body,
                        },
                    ),
                },
            },
        },
    }
}

/// A well-formed request whose headers name neither `content-length` nor
/// `transfer-encoding` has an empty body.
pub proof fn lemma_no_body_headers_empty_body(s: Seq<u8>, req: RequestView)
    requires
        req_spec(s) == Ok::<RequestView, ParseError>(req),
        !has_name(req.headers, ascii_bytes("content-length"@)),
        !has_name(req.headers, ascii_bytes("transfer-encoding"@)),
    ensures
        req.body == Seq::<u8>::empty(),
{
    match parse_request_line_spec(s) {
        Err(_) => {
            assert(false);
        },
        Ok((rl, n1)) => match parse_header_block_spec(s.skip(n1 as int)) {
            Err(_) => {
                assert(false);
            },
            Ok((hs, n2)) => {
                assert(req.headers == hs);
                assert(body_spec(s.skip(n1 as int + n2 as int), hs) == Ok::<Seq<u8>, ParseError>(
                    Seq::<u8>::empty(),
                ));
            },
        },
    }
}

/// With a `content-length` of `N` and no `transfer-encoding`: fewer than `N`
/// bytes available after the header block fail with `TruncatedBody`, and a
/// successful parse takes exactly the first `N` of them as the body.
pub proof fn lemma_content_length_body(
    s: Seq<u8>,
    rl: RequestLineView,
    n1: nat,
    hs: Seq<HeaderFieldView>,
    n2: nat,
)
    requires
        parse_request_line_spec(s) == Ok::<(RequestLineView, nat), ParseError>((rl, n1)),
        parse_header_block_spec(s.skip(n1 as int)) == Ok::<(Seq<HeaderFieldView>, nat), ParseError>(
            (hs, n2),
        ),
        has_name(hs, ascii_bytes("content-length"@)),
        !has_name(hs, ascii_bytes("transfer-encoding"@)),
        ({
            let v = value_of(hs, ascii_bytes("content-length"@));
            v.len() >= 1 && all_digits(v) && dec_value(v) <= usize::MAX
        }),
    ensures
        ({
            let n = dec_value(value_of(hs, ascii_bytes("content-length"@)));
            let rest = s.skip(n1 as int + n2 as int);
            &&& rest.len() < n ==> req_spec(s) == Err::<RequestView, ParseError>(
                ParseError::TruncatedBody,
            )
            &&& rest.len() >= n && req_spec(s) is Ok ==> req_spec(s)->Ok_0.body == rest.take(
                n as int,
            ) && req_spec(s)->Ok_0.body.len() == n
        }),
{
    let n = dec_value(value_of(hs, ascii_bytes("content-length"@)));
    let rest = s.skip(n1 as int + n2 as int);
    if rest.len() < n {
        assert(body_spec(rest, hs) == Err::<Seq<u8>, ParseError>(ParseError::TruncatedBody));
    } else {
        assert(body_spec(rest, hs) == Ok::<Seq<u8>, ParseError>(rest.take(n as int)));
    }
}

/// A request whose headers name both `content-length` and
/// `transfer-encoding` fails with `ConflictingLengthSpecification`.
pub proof fn lemma_conflicting_length_rejected(
    s: Seq<u8>,
    rl: RequestLineView,
    n1: nat,
    hs: Seq<HeaderFieldView>,
    n2: nat,
)
    requires
        parse_request_line_spec(s) == Ok::<(RequestLineView, nat), ParseError>((rl, n1)),
        parse_header_block_spec(s.skip(n1 as int)) == Ok::<(Seq<HeaderFieldView>, nat), ParseError>(
            (hs, n2),
        ),
        has_name(hs, ascii_bytes("content-length"@)),
        has_name(hs, ascii_bytes("transfer-encoding"@)),
    ensures
        req_spec(s) == Err::<RequestView, ParseError>(ParseError::ConflictingLengthSpecification),
{
    assert(body_spec(s.skip(n1 as int + n2 as int), hs) == Err::<Seq<u8>, ParseError>(
        ParseError::ConflictingLengthSpecification,
    ));
}

} // verus!
