use sha2::Digest;
use ssz_rs::merkleization::{hash_pair, merkleize, merkleize_packed, pack_bytes, MerkleizationError};

fn sha256(data: &[u8]) -> Vec<u8> {
    sha2::Sha256::digest(data).to_vec()
}

fn chunk(b: u8) -> Vec<u8> {
    vec![b; 32]
}

fn hex(bytes: &[u8]) -> String {
    bytes.iter().map(|b| format!("{:02x}", b)).collect()
}

#[test]
fn no_chunks_give_the_zero_leaf() {
    let root = merkleize(&Vec::new(), None).unwrap();
    assert_eq!(root.as_bytes(), &vec![0u8; 32]);
}

#[test]
fn one_chunk_is_its_own_root() {
    let root = merkleize(&chunk(7), None).unwrap();
    assert_eq!(root.as_bytes(), &chunk(7));
}

#[test]
fn zero_subtree_of_depth_one() {
    let root = merkleize(&Vec::new(), Some(2)).unwrap();
    assert_eq!(
        hex(root.as_bytes()),
        "f5a5fd42d16a20302798ef6ed309979b43003d2320d9f0e8ea9831a92759fb4b"
    );
}

#[test]
fn hash_pair_digests_the_concatenation() {
    let r = hash_pair(&vec![0u8; 32], &vec![0u8; 32]);
    assert_eq!(hex(&r), "f5a5fd42d16a20302798ef6ed309979b43003d2320d9f0e8ea9831a92759fb4b");
    let s = hash_pair(&chunk(1), &chunk(2));
    assert_eq!(s, sha256(&[chunk(1), chunk(2)].concat()));
}

#[test]
fn three_chunks_pad_to_four() {
    let three = [chunk(1), chunk(2), chunk(3)].concat();
    let four = [chunk(1), chunk(2), chunk(3), vec![0u8; 32]].concat();
    let a = merkleize(&three, None).unwrap();
    let b = merkleize(&four, None).unwrap();
    assert_eq!(a, b);
    let left = sha256(&[chunk(1), chunk(2)].concat());
    let right = sha256(&[chunk(3), vec![0u8; 32]].concat());
    assert_eq!(a.as_bytes(), &sha256(&[left, right].concat()));
}

#[test]
fn five_chunks_pad_to_eight() {
    let five: Vec<u8> = (1..=5).flat_map(chunk).collect();
    let mut eight = five.clone();
    eight.extend_from_slice(&vec![0u8; 96]);
    assert_eq!(merkleize(&five, None), merkleize(&eight, None));
}

#[test]
fn limit_fixes_the_depth() {
    let two = [chunk(1), chunk(2)].concat();
    let padded = [chunk(1), chunk(2), vec![0u8; 32], vec![0u8; 32], vec![0u8; 64]].concat();
    assert_eq!(merkleize(&two, Some(5)), merkleize(&padded, None));
    assert_eq!(merkleize(&two, Some(8)), merkleize(&padded, None));
    assert_ne!(merkleize(&two, Some(5)), merkleize(&two, None));
    assert_eq!(merkleize(&two, Some(2)), merkleize(&two, None));
}

#[test]
fn limit_zero_with_no_chunks() {
    assert_eq!(merkleize(&Vec::new(), Some(0)).unwrap().as_bytes(), &vec![0u8; 32]);
}

#[test]
fn exceeding_the_limit_is_refused() {
    let three = [chunk(1), chunk(2), chunk(3)].concat();
    assert_eq!(merkleize(&three, Some(2)), Err(MerkleizationError::InputExceedsLimit(2)));
    assert_eq!(merkleize(&chunk(1), Some(0)), Err(MerkleizationError::InputExceedsLimit(0)));
}

#[test]
fn packing_pads_the_tail() {
    let mut data = vec![1u8, 2, 3, 4, 5];
    pack_bytes(&mut data);
    assert_eq!(data.len(), 32);
    assert_eq!(&data[..5], &[1, 2, 3, 4, 5]);
    assert!(data[5..].iter().all(|b| *b == 0));
    let mut full = vec![9u8; 64];
    pack_bytes(&mut full);
    assert_eq!(full, vec![9u8; 64]);
    let mut empty: Vec<u8> = Vec::new();
    pack_bytes(&mut empty);
    assert!(empty.is_empty());
}

#[test]
fn packed_root_of_bytes() {
    let root = merkleize_packed(vec![1u8; 33]);
    let mut second = vec![1u8];
    second.resize(32, 0);
    assert_eq!(root.as_bytes(), &sha256(&[vec![1u8; 32], second].concat()));
}
