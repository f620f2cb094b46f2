use vstd::prelude::*;

verus! {

/// Everything that can go wrong while decoding or encoding a CBOR item.
///
/// Every error is fatal to the operation that raised it; nothing is retried.
#[derive(Copy, Clone, Debug, PartialEq, Eq, Structural)]
pub enum Error {
    /// A head carried one of the reserved additional-information values
    /// 28-30, or an additional-information value that is illegal for its
    /// major type (indefinite integers or tags, simple values below 32 in
    /// two-byte form).
    MalformedHead,
    /// The input ended in the middle of an item.
    UnexpectedEof,
    /// A break stop code appeared where no indefinite-length container was
    /// open.
    UnexpectedBreak,
    /// A text string did not hold valid UTF-8.
    InvalidUtf8,
    /// A chunk inside an indefinite-length string was not a definite-length
    /// string of the same major type.
    InvalidIndefinite,
    /// Nesting went beyond the configured depth limit.
    RecursionLimit,
    /// Bytes remained after the single top-level item that was asked for.
    TrailingBytes,
    /// An integer on the wire does not fit the numeric type it must land in.
    OutOfRange,
    /// The wire held a shape that the requested target cannot represent,
    /// such as an array used as a map key.
    SchemaMismatch,
}

impl Error {
    /// A short description of the error, for embedding in messages.
    pub fn describe(&self) -> (r: &'static str)
        ensures r@.len() > 0,
    {
        proof {
            reveal_strlit("malformed head");
            reveal_strlit("unexpected end of input");
            reveal_strlit("unexpected break");
            reveal_strlit("invalid utf-8");
            reveal_strlit("invalid indefinite-length chunk");
            reveal_strlit("recursion limit reached");
            reveal_strlit("trailing bytes");
            reveal_strlit("integer out of range");
            reveal_strlit("shape mismatch");
        }
        match self {
            Error::MalformedHead => "malformed head",
            Error::UnexpectedEof => "unexpected end of input",
            Error::UnexpectedBreak => "unexpected break",
            Error::InvalidUtf8 => "invalid utf-8",
            Error::InvalidIndefinite => "invalid indefinite-length chunk",
            Error::RecursionLimit => "recursion limit reached",
            Error::TrailingBytes => "trailing bytes",
            Error::OutOfRange => "integer out of range",
            Error::SchemaMismatch => "shape mismatch",
        }
    }
}

/// The kinds of failure a byte sink can report, mirroring the usual
/// input/output error kinds.
#[derive(Copy, Clone, Debug, PartialEq, Eq, Structural)]
pub enum WriteErrorKind {
    NotFound,
    PermissionDenied,
    ConnectionRefused,
    ConnectionReset,
    ConnectionAborted,
    NotConnected,
    AddrInUse,
    AddrNotAvailable,
    BrokenPipe,
    AlreadyExists,
    WouldBlock,
    InvalidInput,
    InvalidData,
    TimedOut,
    WriteZero,
    Interrupted,
    Other,
    UnexpectedEof,
}

/// An error raised while writing serialized bytes to a sink.
#[derive(Copy, Clone, Debug, PartialEq, Eq, Structural)]
pub enum WriteError {
    /// The sink itself failed.
    Simple(WriteErrorKind),
    /// A reserved head width was asked to serialize itself.
    ReservedCborValue,
}

} // verus!
