//! The error model: every failure is a value, never a panic.

use vstd::prelude::*;

verus! {

/// Error raised while writing a document.
#[derive(Clone, Copy, Debug, PartialEq, Eq, Structural)]
pub enum WriteError {
    /// The sink cannot accept the remaining bytes of the object.
    EndOfOutput,
}

/// Error raised while reading a document.
#[derive(Clone, Copy, Debug, PartialEq, Eq, Structural)]
pub enum ReadError {
    /// Fewer bytes remain than the current field or primitive requires.
    EndOfInput,
    /// A tagged-union selector that the schema does not recognise, or that
    /// was introduced after the document's stamped version.
    UnknownVariant(u16),
    /// The bytes of an owned text value are not valid UTF-8.
    InvalidUtf8String,
    /// The bytes of a borrowed text value are not valid UTF-8.
    InvalidUtf8Str,
    /// Strict mode found this many unconsumed bytes after a complete decode.
    TrailingBytes(usize),
    /// A zero-copy slice was requested from a reader that has no persistent
    /// backing buffer.
    ReaderNotPersistent,
}

} // verus!
