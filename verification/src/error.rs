use vstd::prelude::*;

pub use crate::report::ParseErrorDisplay;

verus! {

/// Error returned by a [`crate::write::SliceWriter`] sink.
#[derive(Debug, Clone, Copy, PartialEq, Eq, Hash)]
pub enum WriteError {
    BufferFull,
    DepthExceeded,
}

/// A parse failure: what went wrong, and the byte offset in the source where it happened.
#[derive(Debug, Clone, PartialEq, Eq, Hash)]
pub struct ParseError {
    pub kind: ParseErrorKind,
    /// Byte offset into the source where the error occurred.
    pub offset: usize,
}

/// The different ways parsing can fail.
#[derive(Debug, Clone, PartialEq, Eq, Hash)]
pub enum ParseErrorKind {
    UnexpectedToken { expected: &'static str, got: &'static str },
    UnexpectedEof,
    InvalidEscape(u8),
    StringBufferOverflow,
    InvalidUtf8,
    UnknownField,
    MissingField { field: &'static str },
}

impl ParseError {
    pub(crate) fn at(offset: usize, kind: ParseErrorKind) -> (e: Self)
        ensures
            e.offset == offset,
            e.kind == kind,
    {
        ParseError { kind, offset }
    }
}

} // verus!
