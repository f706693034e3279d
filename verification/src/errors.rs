//! Error kinds of the request parser and the response writer.
use vstd::prelude::*;

verus! {

/// Why parsing a request failed. Every failure of the wire-format parser is
/// one of these kinds; the dispatcher turns each into a client-visible
/// response.
#[derive(Clone, Copy, Debug, PartialEq, Eq, Structural)]
pub enum ParseError {
    /// A line exceeded the maximum permitted length.
    LineTooLong,
    /// The input ended before a complete syntactic element.
    UnexpectedEof,
    /// Fewer body bytes were available than `content-length` announced.
    TruncatedBody,
    /// The request line did not have exactly three tokens.
    MalformedRequestLine,
    /// The method is not one of the supported methods.
    InvalidMethod,
    /// The version token does not begin with `HTTP/`.
    InvalidVersion,
    /// The target fits none of the four permitted target forms.
    InvalidTarget,
    /// An origin-form target came without a `host` header.
    MissingHostHeader,
    /// A bare empty line stood where at least one header line is required.
    ProtocolViolation,
    /// A header line had no colon separating name and value.
    MalformedHeaderLine,
    /// A header field name held a byte outside the token characters.
    InvalidFieldName,
    /// A header that may occur at most once occurred twice.
    DuplicateSingletonHeader,
    /// Both `content-length` and `transfer-encoding` were present.
    ConflictingLengthSpecification,
    /// A `transfer-encoding` other than `chunked` was requested.
    UnsupportedTransferEncoding,
    /// The `content-length` value is not a non-negative base-10 integer.
    InvalidContentLength,
    /// A chunk size line or chunk terminator was malformed.
    ChunkFramingError,
}

/// The descriptive text of each parse error, as it appears in synthesized
/// error responses.
pub open spec fn message_spec(e: ParseError) -> Seq<char> {
    match e {
        ParseError::LineTooLong => "line exceeds maximum length"@,
        ParseError::UnexpectedEof => "unexpected end of stream"@,
        ParseError::TruncatedBody => "body ended before the declared length"@,
        ParseError::MalformedRequestLine => "request line must have exactly three parts"@,
        ParseError::InvalidMethod => "invalid HTTP method"@,
        ParseError::InvalidVersion => "HTTP version must start with 'HTTP/'"@,
        ParseError::InvalidTarget => "invalid request target format"@,
        ParseError::MissingHostHeader => "Host header is required for origin target"@,
        ParseError::ProtocolViolation => "unexpected CRLF after request line"@,
        ParseError::MalformedHeaderLine => "invalid header format"@,
        ParseError::InvalidFieldName => "invalid character in header field name"@,
        ParseError::DuplicateSingletonHeader => "duplicate singleton header"@,
        ParseError::ConflictingLengthSpecification
            => "cannot have both Content-Length and Transfer-Encoding headers"@,
        ParseError::UnsupportedTransferEncoding
            => "unsupported Transfer-Encoding, only 'chunked' is supported"@,
        ParseError::InvalidContentLength => "invalid Content-Length value"@,
        ParseError::ChunkFramingError => "invalid chunk framing"@,
    }
}

impl ParseError {
    /// The descriptive text of this error.
    pub fn message(&self) -> (r: &'static str)
        ensures
            r@ == message_spec(*self),
            r.is_ascii(),
    {
        match self {
            ParseError::LineTooLong => {
                proof {
                    reveal_strlit("line exceeds maximum length");
                }
                "line exceeds maximum length"
            },
            ParseError::UnexpectedEof => {
                proof {
                    reveal_strlit("unexpected end of stream");
                }
                "unexpected end of stream"
            },
            ParseError::TruncatedBody => {
                proof {
                    reveal_strlit("body ended before the declared length");
                }
                "body ended before the declared length"
            },
            ParseError::MalformedRequestLine => {
                proof {
                    reveal_strlit("request line must have exactly three parts");
                }
                "request line must have exactly three parts"
            },
            ParseError::InvalidMethod => {
                proof {
                    reveal_strlit("invalid HTTP method");
                }
                "invalid HTTP method"
            },
            ParseError::InvalidVersion => {
                proof {
                    reveal_strlit("HTTP version must start with 'HTTP/'");
                }
                "HTTP version must start with 'HTTP/'"
            },
            ParseError::InvalidTarget => {
                proof {
                    reveal_strlit("invalid request target format");
                }
                "invalid request target format"
            },
            ParseError::MissingHostHeader => {
                proof {
                    reveal_strlit("Host header is required for origin target");
                }
                "Host header is required for origin target"
            },
            ParseError::ProtocolViolation => {
                proof {
                    reveal_strlit("unexpected CRLF after request line");
                }
                "unexpected CRLF after request line"
            },
            ParseError::MalformedHeaderLine => {
                proof {
                    reveal_strlit("invalid header format");
                }
                "invalid header format"
            },
            ParseError::InvalidFieldName => {
                proof {
                    reveal_strlit("invalid character in header field name");
                }
                "invalid character in header field name"
            },
            ParseError::DuplicateSingletonHeader => {
                proof {
                    reveal_strlit("duplicate singleton header");
                }
                "duplicate singleton header"
            },
            ParseError::ConflictingLengthSpecification => {
                proof {
                    reveal_strlit("cannot have both Content-Length and Transfer-Encoding headers");
                }
                "cannot have both Content-Length and Transfer-Encoding headers"
            },
            ParseError::UnsupportedTransferEncoding => {
                proof {
                    reveal_strlit("unsupported Transfer-Encoding, only 'chunked' is supported");
                }
                "unsupported Transfer-Encoding, only 'chunked' is supported"
            },
            ParseError::InvalidContentLength => {
                proof {
                    reveal_strlit("invalid Content-Length value");
                }
                "invalid Content-Length value"
            },
            ParseError::ChunkFramingError => {
                proof {
                    reveal_strlit("invalid chunk framing");
                }
                "invalid chunk framing"
            },
        }
    }
}

/// Returned by the response writer when a method is called in a state where
/// it is not legal; the caller must treat it as fatal for the exchange.
#[derive(Clone, Copy, Debug, PartialEq, Eq, Structural)]
pub struct IllegalStateError;

} // verus!
