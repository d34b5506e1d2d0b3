//! What can go wrong: a byte record that does not follow the format, and a
//! graph operation that names a node which is not there.

use vstd::prelude::*;

verus! {

/// Why a byte record was rejected.
#[derive(Clone, Copy, Debug, PartialEq, Eq, Structural)]
pub enum FormatError {
    /// The input ends inside a field of fixed width, or before a discriminant.
    Truncated,
    /// A name or a text runs to the end of the input with no separator after it.
    MissingSeparator,
    /// A field of fixed width is not followed by its separator.
    WrongWidth,
    /// A name or a text is not UTF-8.
    InvalidUtf8,
    /// The discriminant of a value is none of the four.
    UnknownDiscriminant,
    /// The payload of a boolean is neither 0 nor 1.
    InvalidBool,
    /// Bytes are left over behind a complete value or record.
    TrailingBytes,
    /// A record carries the largest identifier there is, behind which no
    /// identifier is left for the next node.
    IdOutOfRange,
    /// Two records carry this identifier.
    DuplicateId(u64),
    /// A relation names an identifier that no record carries.
    DanglingRelation(u64),
}

/// Why a graph operation was refused.
#[derive(Clone, Copy, Debug, PartialEq, Eq, Structural)]
pub enum GraphError {
    /// No node has the identifier the operation was given.
    NotFound,
    /// A relation list names this identifier, which no node has.
    InvalidReference(u64),
}

} // verus!
