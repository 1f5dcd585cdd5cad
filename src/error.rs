//! Errors of the codec.

use vstd::prelude::*;

verus! {

/// A type that cannot be encoded at all.
#[derive(Clone, Copy, Debug, PartialEq, Eq, Structural)]
pub enum TypeError {
    /// A fixed-length sequence declared with this length (zero).
    InvalidBound(usize),
}

/// A decoded value that breaks its type's rules.
#[derive(Clone, Copy, Debug, PartialEq, Eq, Structural)]
pub enum InstanceError {
    /// The number of elements decoded differs from the one the type requires.
    Exact { required: usize, provided: usize },
}

#[derive(Clone, Copy, Debug, PartialEq, Eq, Structural)]
pub enum SerializeError {
    InvalidType(TypeError),
    /// The encoding would be too long for the offsets of the format.
    MaximumEncodedLengthExceeded,
}

#[derive(Clone, Copy, Debug, PartialEq, Eq, Structural)]
pub enum DeserializeError {
    /// The input is shorter than the encoding requires.
    ExpectedFurtherInput { provided: usize, expected: usize },
    /// The input is longer than the encoding requires.
    AdditionalInput { provided: usize, expected: usize },
    /// A byte that no value of the type encodes to.
    InvalidByte(u8),
    InvalidType(TypeError),
    InvalidInstance(InstanceError),
    /// An offset that is not a multiple of four where the table ends, goes back,
    /// or points past the input.
    InvalidOffset(usize),
    /// The input is this long, too long for the offsets of the format.
    MaximumEncodedLengthExceeded(usize),
}

} // verus!
