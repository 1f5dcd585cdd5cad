//! Canonical binary encoding and Merkle commitments for fixed-length homogeneous
//! sequences.

pub mod array;
pub mod basic;
pub mod error;
pub mod merkleization;
pub mod simple_serialize;
