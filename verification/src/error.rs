//! Typed failures of the codec layer.
//!
//! Every decode or parse operation returns one of these instead of a
//! sentinel value, so a caller can tell a malformed entry apart from a
//! malformed batch and apply its own poison-entry policy.

use vstd::prelude::*;

verus! {

/// The shape of a reply value, used to report shape mismatches.
#[derive(Debug, Copy, Clone, PartialEq, Eq, Structural)]
pub enum Shape {
    /// A nil value.
    Nil,
    /// A scalar holding raw bytes.
    Scalar,
    /// A nested list of values.
    List,
    /// A nested list of the given length.
    ListOfLen(usize),
}

/// An error of the codec layer.
#[derive(Debug, Clone, PartialEq, Eq)]
pub enum StreamError {
    /// A textual ordering key did not have the `<timestamp>-<sequence>` form.
    InvalidFormat,
    /// A part of a textual key or identity was not a valid integer.
    NumericParseError,
    /// Bytes were not valid UTF-8 where text was expected.
    Utf8Error,
    /// A reply value had the wrong shape.
    TypeError { expected: Shape, found: Shape },
    /// A required field was missing, or a field name did not match;
    /// carries the offending name.
    UnexpectedValue(String),
    /// A structured serialization of an event failed.
    EncodingError,
    /// A compressed payload could not be decompressed.
    DecompressionError,
}

/// The mathematical value of a [`StreamError`]: the same variants with
/// the field-name payload abstracted to a character sequence.
pub enum ErrorView {
    InvalidFormat,
    NumericParseError,
    Utf8Error,
    TypeError { expected: Shape, found: Shape },
    UnexpectedValue(Seq<char>),
    EncodingError,
    DecompressionError,
}

impl View for StreamError {
    type V = ErrorView;

    open spec fn view(&self) -> ErrorView {
        match self {
            StreamError::InvalidFormat => ErrorView::InvalidFormat,
            StreamError::NumericParseError => ErrorView::NumericParseError,
            StreamError::Utf8Error => ErrorView::Utf8Error,
            StreamError::TypeError { expected, found } => ErrorView::TypeError {
                expected: *expected,
                found: *found,
            },
            StreamError::UnexpectedValue(name) => ErrorView::UnexpectedValue(name@),
            StreamError::EncodingError => ErrorView::EncodingError,
            StreamError::DecompressionError => ErrorView::DecompressionError,
        }
    }
}

} // verus!
