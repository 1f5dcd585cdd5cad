use sha2::Digest;
use ssz_rs::error::{DeserializeError, SerializeError, TypeError};
use ssz_rs::merkleization::{merkleize, MerkleizationError};
use ssz_rs::simple_serialize::SimpleSerialize;

fn sha256(data: &[u8]) -> Vec<u8> {
    sha2::Sha256::digest(data).to_vec()
}

fn chunk_of(bytes: &[u8]) -> Vec<u8> {
    let mut c = bytes.to_vec();
    c.resize(32, 0);
    c
}

#[test]
fn serializes_four_bytes() {
    let value: [u8; 4] = [1, 2, 3, 4];
    let mut buffer = Vec::new();
    let written = value.serialize(&mut buffer).unwrap();
    assert_eq!(written, 4);
    assert_eq!(buffer, vec![0x01, 0x02, 0x03, 0x04]);
}

#[test]
fn serialize_appends_to_buffer() {
    let value: [u8; 2] = [7, 8];
    let mut buffer = vec![9u8];
    value.serialize(&mut buffer).unwrap();
    assert_eq!(buffer, vec![9, 7, 8]);
}

#[test]
fn short_input_is_refused() {
    let r = <[u8; 4]>::deserialize(&[1, 2, 3]);
    assert_eq!(r, Err(DeserializeError::ExpectedFurtherInput { provided: 3, expected: 4 }));
}

#[test]
fn long_input_is_refused() {
    let r = <[u8; 4]>::deserialize(&[1, 2, 3, 4, 5]);
    assert_eq!(r, Err(DeserializeError::AdditionalInput { provided: 5, expected: 4 }));
}

#[test]
fn empty_input_is_refused() {
    let r = <[u8; 4]>::deserialize(&[]);
    assert_eq!(r, Err(DeserializeError::ExpectedFurtherInput { provided: 0, expected: 4 }));
}

#[test]
fn truncated_and_extended_encodings() {
    let value: [bool; 3] = [true, false, true];
    let mut buffer = Vec::new();
    value.serialize(&mut buffer).unwrap();
    let short = &buffer[..buffer.len() - 1];
    assert_eq!(
        <[bool; 3]>::deserialize(short),
        Err(DeserializeError::ExpectedFurtherInput { provided: 2, expected: 3 })
    );
    let mut long = buffer.clone();
    long.push(0);
    assert_eq!(
        <[bool; 3]>::deserialize(&long),
        Err(DeserializeError::AdditionalInput { provided: 4, expected: 3 })
    );
}

#[test]
fn zero_length_array_is_refused() {
    let value: [u8; 0] = [];
    let mut buffer = vec![5u8];
    assert_eq!(
        value.serialize(&mut buffer),
        Err(SerializeError::InvalidType(TypeError::InvalidBound(0)))
    );
    assert_eq!(buffer, vec![5u8]);
    assert_eq!(
        <[u8; 0]>::deserialize(&[]),
        Err(DeserializeError::InvalidType(TypeError::InvalidBound(0)))
    );
    assert_eq!(
        <[u8; 0]>::deserialize(&[1, 2, 3]),
        Err(DeserializeError::InvalidType(TypeError::InvalidBound(0)))
    );
    assert_eq!(
        value.hash_tree_root(),
        Err(MerkleizationError::SerializationError(SerializeError::InvalidType(
            TypeError::InvalidBound(0)
        )))
    );
}

#[test]
fn nested_zero_length_array_is_refused() {
    let value: [[u8; 0]; 2] = [[], []];
    let mut buffer = Vec::new();
    assert_eq!(
        value.serialize(&mut buffer),
        Err(SerializeError::InvalidType(TypeError::InvalidBound(0)))
    );
    assert!(buffer.is_empty());
    assert!(<[[u8; 0]; 2]>::deserialize(&[]).is_err());
}

#[test]
fn round_trip_bytes() {
    let value: [u8; 5] = [0, 255, 17, 3, 9];
    let mut buffer = Vec::new();
    value.serialize(&mut buffer).unwrap();
    assert_eq!(<[u8; 5]>::deserialize(&buffer), Ok(value));
}

#[test]
fn round_trip_bools() {
    let value: [bool; 4] = [true, true, false, true];
    let mut buffer = Vec::new();
    value.serialize(&mut buffer).unwrap();
    assert_eq!(buffer, vec![1, 1, 0, 1]);
    assert_eq!(<[bool; 4]>::deserialize(&buffer), Ok(value));
}

#[test]
fn round_trip_nested() {
    let value: [[u8; 2]; 3] = [[1, 2], [3, 4], [5, 6]];
    let mut buffer = Vec::new();
    assert_eq!(value.serialize(&mut buffer), Ok(6));
    assert_eq!(buffer, vec![1, 2, 3, 4, 5, 6]);
    assert_eq!(<[[u8; 2]; 3]>::deserialize(&buffer), Ok(value));
}

#[test]
fn invalid_bool_byte() {
    assert_eq!(<[bool; 2]>::deserialize(&[1, 2]), Err(DeserializeError::InvalidByte(2)));
    assert_eq!(bool::deserialize(&[7]), Err(DeserializeError::InvalidByte(7)));
}

#[test]
fn type_descriptors() {
    assert!(!<[u8; 4]>::is_variable_size());
    assert_eq!(<[u8; 4]>::size_hint(), 4);
    assert_eq!(<[[bool; 3]; 5]>::size_hint(), 15);
    assert!(<[u8; 4]>::is_composite_type());
    assert!(!u8::is_composite_type());
    assert!(!bool::is_variable_size());
    assert_eq!(u8::size_hint(), 1);
}

#[test]
fn basic_array_root_is_packed_chunk() {
    let value: [u8; 4] = [1, 2, 3, 4];
    let root = value.hash_tree_root().unwrap();
    assert_eq!(root.as_bytes(), &chunk_of(&[1, 2, 3, 4]));
}

#[test]
fn basic_array_root_over_two_chunks() {
    let mut value = [0u8; 40];
    for (i, b) in value.iter_mut().enumerate() {
        *b = i as u8;
    }
    let root = value.hash_tree_root().unwrap();
    let mut pair = value[..32].to_vec();
    pair.extend_from_slice(&chunk_of(&value[32..]));
    assert_eq!(root.as_bytes(), &sha256(&pair));
}

#[test]
fn composite_array_root_uses_element_roots() {
    let value: [[u8; 2]; 3] = [[1, 2], [3, 4], [5, 6]];
    let root = value.hash_tree_root().unwrap();
    let mut chunks = Vec::new();
    for elem in value.iter() {
        chunks.extend_from_slice(elem.hash_tree_root().unwrap().as_bytes());
    }
    assert_eq!(root, merkleize(&chunks, None).unwrap());
    let left = sha256(&[chunk_of(&[1, 2]), chunk_of(&[3, 4])].concat());
    let right = sha256(&[chunk_of(&[5, 6]), vec![0u8; 32]].concat());
    assert_eq!(root.as_bytes(), &sha256(&[left, right].concat()));
}

#[test]
fn equal_values_have_equal_roots() {
    let a: [u8; 3] = [9, 8, 7];
    let b: [u8; 3] = [9, 8, 7];
    assert_eq!(a.hash_tree_root(), b.hash_tree_root());
}

#[test]
fn changed_element_changes_root() {
    let a: [[u8; 2]; 2] = [[1, 2], [3, 4]];
    let mut b = a;
    b[1][0] = 5;
    assert_ne!(a.hash_tree_root().unwrap(), b.hash_tree_root().unwrap());
    let c: [u8; 3] = [1, 2, 3];
    let d: [u8; 3] = [1, 2, 4];
    assert_ne!(c.hash_tree_root().unwrap(), d.hash_tree_root().unwrap());
}

#[test]
fn bool_root() {
    let root = true.hash_tree_root().unwrap();
    assert_eq!(root.as_bytes(), &chunk_of(&[1]));
}

#[test]
fn bool_array_root_packs_bytes() {
    let value: [bool; 3] = [true, false, true];
    let root = value.hash_tree_root().unwrap();
    assert_eq!(root.as_bytes(), &chunk_of(&[1, 0, 1]));
}

#[test]
fn nested_length_errors() {
    assert_eq!(
        <[[u8; 2]; 2]>::deserialize(&[1, 2, 3]),
        Err(DeserializeError::ExpectedFurtherInput { provided: 3, expected: 4 })
    );
    assert_eq!(
        <[[u8; 2]; 2]>::deserialize(&[1, 2, 3, 4, 5]),
        Err(DeserializeError::AdditionalInput { provided: 5, expected: 4 })
    );
}

#[test]
fn single_byte_element_errors() {
    assert_eq!(
        u8::deserialize(&[]),
        Err(DeserializeError::ExpectedFurtherInput { provided: 0, expected: 1 })
    );
    assert_eq!(
        u8::deserialize(&[1, 2]),
        Err(DeserializeError::AdditionalInput { provided: 2, expected: 1 })
    );
    assert_eq!(u8::deserialize(&[42]), Ok(42));
}
