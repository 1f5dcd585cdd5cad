//! One-byte basic types.

use crate::error::{DeserializeError, SerializeError};
use crate::merkleization::{merkleize_packed, packed_root, MerkleizationError, Node};
use crate::simple_serialize::SimpleSerialize;
use vstd::prelude::*;

verus! {

/// Checks that `encoding` is one byte long.
fn check_one_byte(encoding: &[u8]) -> (r: Result<(), DeserializeError>)
    ensures
        encoding@.len() == 0 ==> r == Err::<(), DeserializeError>(
            DeserializeError::ExpectedFurtherInput { provided: 0, expected: 1 },
        ),
        encoding@.len() > 1 ==> r == Err::<(), DeserializeError>(
            DeserializeError::AdditionalInput { provided: encoding@.len() as usize, expected: 1 },
        ),
        encoding@.len() == 1 ==> r is Ok,
{
    if encoding.len() < 1 {
        Err(DeserializeError::ExpectedFurtherInput { provided: encoding.len(), expected: 1 })
    } else if encoding.len() > 1 {
        Err(DeserializeError::AdditionalInput { provided: encoding.len(), expected: 1 })
    } else {
        Ok(())
    }
}

impl SimpleSerialize for u8 {
    open spec fn spec_is_variable_size() -> bool {
        false
    }

    open spec fn spec_size_hint() -> nat {
        1
    }

    open spec fn spec_is_composite_type() -> bool {
        false
    }

    open spec fn spec_type_ok() -> bool {
        true
    }

    open spec fn spec_valid(&self) -> bool {
        true
    }

    open spec fn spec_encoding(&self) -> Seq<u8> {
        seq![*self]
    }

    open spec fn spec_root(&self) -> Seq<u8> {
        packed_root(self.spec_encoding())
    }

    proof fn lemma_encoding_len(&self) {
    }

    proof fn lemma_encoding_injective(&self, other: &Self) {
        assert(self.spec_encoding()[0] == *self);
        assert(other.spec_encoding()[0] == *other);
    }

    fn is_variable_size() -> (r: bool) {
        false
    }

    fn size_hint() -> (r: usize) {
        1
    }

    fn is_composite_type() -> (r: bool) {
        false
    }

    fn serialize(&self, buffer: &mut Vec<u8>) -> (r: Result<usize, SerializeError>) {
        buffer.push(*self);
        Ok(1)
    }

    fn deserialize(encoding: &[u8]) -> (r: Result<Self, DeserializeError>) {
        match check_one_byte(encoding) {
            Err(e) => Err(e),
            Ok(()) => {
                let b = encoding[0];
                assert(b.spec_encoding() =~= encoding@);
                Ok(b)
            },
        }
    }

    fn hash_tree_root(&self) -> (r: Result<Node, MerkleizationError>) {
        let mut data: Vec<u8> = Vec::new();
        data.push(*self);
        assert(data@ =~= self.spec_encoding());
        Ok(merkleize_packed(data))
    }
}

pub open spec fn bool_byte(b: bool) -> u8 {
    if b {
        1
    } else {
        0
    }
}

impl SimpleSerialize for bool {
    open spec fn spec_is_variable_size() -> bool {
        false
    }

    open spec fn spec_size_hint() -> nat {
        1
    }

    open spec fn spec_is_composite_type() -> bool {
        false
    }

    open spec fn spec_type_ok() -> bool {
        true
    }

    open spec fn spec_valid(&self) -> bool {
        true
    }

    open spec fn spec_encoding(&self) -> Seq<u8> {
        seq![bool_byte(*self)]
    }

    open spec fn spec_root(&self) -> Seq<u8> {
        packed_root(self.spec_encoding())
    }

    proof fn lemma_encoding_len(&self) {
    }

    proof fn lemma_encoding_injective(&self, other: &Self) {
        assert(self.spec_encoding()[0] == bool_byte(*self));
        assert(other.spec_encoding()[0] == bool_byte(*other));
    }

    fn is_variable_size() -> (r: bool) {
        false
    }

    fn size_hint() -> (r: usize) {
        1
    }

    fn is_composite_type() -> (r: bool) {
        false
    }

    fn serialize(&self, buffer: &mut Vec<u8>) -> (r: Result<usize, SerializeError>) {
        buffer.push(if *self { 1u8 } else { 0u8 });
        Ok(1)
    }

    fn deserialize(encoding: &[u8]) -> (r: Result<Self, DeserializeError>) {
        match check_one_byte(encoding) {
            Err(e) => Err(e),
            Ok(()) => {
                let b = encoding[0];
                if b == 0 {
                    assert(false.spec_encoding() =~= encoding@);
                    Ok(false)
                } else if b == 1 {
                    assert(true.spec_encoding() =~= encoding@);
                    Ok(true)
                } else {
                    assert forall|v: bool| #[trigger] v.spec_encoding() != encoding@ by {
                        assert(v.spec_encoding()[0] != encoding@[0]);
                    }
                    Err(DeserializeError::InvalidByte(b))
                }
            },
        }
    }

    fn hash_tree_root(&self) -> (r: Result<Node, MerkleizationError>) {
        let mut data: Vec<u8> = Vec::new();
        data.push(if *self { 1u8 } else { 0u8 });
        assert(data@ =~= self.spec_encoding());
        Ok(merkleize_packed(data))
    }
}

} // verus!
