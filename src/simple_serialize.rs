//! The capabilities that every encodable type offers.

use crate::error::{DeserializeError, SerializeError};
use crate::merkleization::{MerkleizationError, Node};
use vstd::prelude::*;

verus! {

/// A type with a canonical byte encoding and a Merkle root.
pub trait SimpleSerialize: Sized {
    /// Whether encodings of values of the type differ in length.
    spec fn spec_is_variable_size() -> bool;

    /// Length of every encoding, for a fixed-size type.
    spec fn spec_size_hint() -> nat;

    /// Whether the type is built of other types.
    spec fn spec_is_composite_type() -> bool;

    /// Whether values of the type can be encoded at all.
    spec fn spec_type_ok() -> bool;

    /// Whether this value can be encoded (its encoding fits the offsets of the format).
    spec fn spec_valid(&self) -> bool;

    /// The canonical encoding of the value.
    spec fn spec_encoding(&self) -> Seq<u8>;

    /// The Merkle root of the value.
    spec fn spec_root(&self) -> Seq<u8>;

    /// Every encoding of a fixed-size type has the same length.
    proof fn lemma_encoding_len(&self)
        requires
            Self::spec_type_ok(),
            !Self::spec_is_variable_size(),
        ensures
            self.spec_encoding().len() == Self::spec_size_hint(),
    ;

    /// Distinct values have distinct encodings.
    proof fn lemma_encoding_injective(&self, other: &Self)
        requires
            Self::spec_type_ok(),
            self.spec_valid(),
            other.spec_valid(),
            self.spec_encoding() == other.spec_encoding(),
        ensures
            *self == *other,
    ;

    fn is_variable_size() -> (r: bool)
        ensures
            r == Self::spec_is_variable_size(),
    ;

    fn size_hint() -> (r: usize)
        requires
            Self::spec_size_hint() <= usize::MAX,
        ensures
            r == Self::spec_size_hint(),
    ;

    fn is_composite_type() -> (r: bool)
        ensures
            r == Self::spec_is_composite_type(),
    ;

    /// Appends the encoding to `buffer` and returns its length.
    fn serialize(&self, buffer: &mut Vec<u8>) -> (r: Result<usize, SerializeError>)
        ensures
            Self::spec_type_ok() && self.spec_valid() ==> (r matches Ok(n) && n
                == self.spec_encoding().len() && final(buffer)@ == old(buffer)@
                + self.spec_encoding()),
            !(Self::spec_type_ok() && self.spec_valid()) ==> r is Err && final(buffer)@ == old(
                buffer,
            )@,
    ;

    /// Decodes a value from exactly the bytes of `encoding`.
    fn deserialize(encoding: &[u8]) -> (r: Result<Self, DeserializeError>)
        requires
            Self::spec_size_hint() <= usize::MAX,
        ensures
            r matches Ok(v) ==> Self::spec_type_ok() && v.spec_valid() && v.spec_encoding()
                == encoding@,
            Self::spec_type_ok() && (exists|v: Self| #[trigger] v.spec_encoding() == encoding@
                && v.spec_valid()) ==> r is Ok,
    ;

    fn hash_tree_root(&self) -> (r: Result<Node, MerkleizationError>)
        ensures
            r matches Ok(n) ==> n@ == self.spec_root() && n@.len() == 32,
            Self::spec_type_ok() && self.spec_valid() ==> r is Ok,
            !Self::spec_type_ok() ==> r is Err,
    ;
}

} // verus!
