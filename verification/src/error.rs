//! The ways in which encoding, decoding and model construction fail.

use vstd::prelude::*;

verus! {

/// What can be wrong with a building that is to be written, or with a
/// stream that is read.
#[derive(Debug, Clone, Copy, PartialEq, Eq, Structural)]
pub enum CodecError {
    /// A count, length or index does not fit the width the format gives it.
    FormatViolation,
    /// A variable-length integer runs on past the width of its target type.
    MalformedVarint,
    /// A string's bytes are not valid UTF-8.
    InvalidUtf8,
    /// The stream ends inside a record.
    TruncatedStream,
}

/// A failure to read a stream: what is wrong, and the offset in the stream
/// at which it was met.
#[derive(Debug, Clone, Copy, PartialEq, Eq, Structural)]
pub struct DecodeError {
    pub kind: CodecError,
    pub offset: usize,
}

/// The failure of the given kind at the given position.
pub open spec fn at(kind: CodecError, pos: int) -> DecodeError {
    DecodeError { kind, offset: pos as usize }
}

/// Why a model value could not be built.
#[derive(Debug, Clone, Copy, PartialEq, Eq, Structural)]
pub enum ModelError {
    /// No block definition carries the given name.
    NotFound,
    /// Both the fields and the vectors of a metadata record are non-empty.
    FieldsAndVectors,
}

} // verus!
