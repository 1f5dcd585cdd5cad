//! Chunk packing and binary Merkle trees over 32-byte chunks.

use sha2::Digest;
use vstd::prelude::*;

verus! {

/// Width of one Merkle leaf.
pub const BYTES_PER_CHUNK: usize = 32;

pub open spec fn pow2(d: nat) -> nat
    decreases d,
{
    if d == 0 {
        1
    } else {
        2 * pow2((d - 1) as nat)
    }
}

/// Depth of the smallest perfect binary tree with at least `n` leaves (at least one leaf).
pub open spec fn ceil_log2(n: nat) -> nat
    decreases n,
{
    if n <= 1 {
        0
    } else {
        1 + ceil_log2(((n + 1) / 2) as nat)
    }
}

/// The SHA-256 digest of `data`.
pub uninterp spec fn sha256_of(data: Seq<u8>) -> Seq<u8>;

pub open spec fn zero_bytes(n: nat) -> Seq<u8> {
    Seq::new(n, |i: int| 0u8)
}

/// The leaf that holds `data`, zero-padded to a full chunk.
pub open spec fn leaf_of(data: Seq<u8>) -> Seq<u8> {
    Seq::new(32, |i: int| if i < data.len() { data[i] } else { 0u8 })
}

/// Root of the perfect tree of the given depth whose leaves are the consecutive
/// 32-byte chunks of `data`, followed by as many zero chunks as the tree has room for.
pub open spec fn subtree_root(data: Seq<u8>, depth: nat) -> Seq<u8>
    decreases depth,
{
    if depth == 0 {
        leaf_of(data)
    } else {
        let half = 32 * pow2((depth - 1) as nat);
        let split = if data.len() < half {
            data.len()
        } else {
            half
        };
        sha256_of(
            subtree_root(data.take(split as int), (depth - 1) as nat) + subtree_root(
                data.skip(split as int),
                (depth - 1) as nat,
            ),
        )
    }
}

/// Root of an all-zero subtree of the given depth.
pub open spec fn zero_hash(depth: nat) -> Seq<u8> {
    subtree_root(Seq::empty(), depth)
}

pub open spec fn chunk_count(chunks: Seq<u8>) -> nat {
    chunks.len() / 32
}

/// Root of the tree over `chunks` that has room for `leaves` leaves, rounded up to
/// a power of two.
pub open spec fn merkle_root(chunks: Seq<u8>, leaves: nat) -> Seq<u8> {
    subtree_root(chunks, ceil_log2(leaves))
}

/// `data` zero-padded up to a whole number of chunks.
pub open spec fn packed(data: Seq<u8>) -> Seq<u8> {
    if data.len() % 32 == 0 {
        data
    } else {
        data + zero_bytes((32 - data.len() % 32) as nat)
    }
}

#[derive(Clone, Copy, Debug, PartialEq, Eq, Structural)]
pub enum MerkleizationError {
    /// An element could not be serialized for packing.
    SerializationError(crate::error::SerializeError),
    /// More chunks than the declared limit.
    InputExceedsLimit(usize),
}

/// A 32-byte Merkle tree node.
#[derive(Clone, Debug, PartialEq, Eq)]
pub struct Node {
    bytes: Vec<u8>,
}

impl View for Node {
    type V = Seq<u8>;

    closed spec fn view(&self) -> Seq<u8> {
        self.bytes@
    }
}

impl Node {
    pub fn as_bytes(&self) -> (r: &Vec<u8>)
        ensures
            r@ == self@,
    {
        &self.bytes
    }
}

/// Relies on sha2::Sha256::digest: the SHA-256 digest of the input, 32 bytes long.
#[verifier::external_body]
fn sha256(data: &Vec<u8>) -> (r: Vec<u8>)
    ensures
        r@ == sha256_of(data@),
        r@.len() == 32,
{
    sha2::Sha256::digest(data.as_slice()).to_vec()
}

/// Appends the bytes of `src` to `buf`.
pub fn append_bytes(buf: &mut Vec<u8>, src: &Vec<u8>)
    ensures
        final(buf)@ == old(buf)@ + src@,
{
    let mut i: usize = 0;
    while i < src.len()
        invariant
            i <= src@.len(),
            buf@ == old(buf)@ + src@.take(i as int),
        decreases src@.len() - i,
    {
        buf.push(src[i]);
        i = i + 1;
        assert(src@.take(i as int) =~= src@.take(i - 1) + seq![src@[i - 1]]);
    }
    assert(src@.take(i as int) =~= src@);
}

/// The parent of two nodes: the digest of their concatenation.
pub fn hash_pair(left: &Vec<u8>, right: &Vec<u8>) -> (r: Vec<u8>)
    ensures
        r@ == sha256_of(left@ + right@),
        r@.len() == 32,
{
    let mut buf: Vec<u8> = Vec::new();
    append_bytes(&mut buf, left);
    append_bytes(&mut buf, right);
    assert(buf@ =~= left@ + right@);
    sha256(&buf)
}

/// Zero-pads `data` up to a whole number of chunks.
pub fn pack_bytes(data: &mut Vec<u8>)
    ensures
        final(data)@ == packed(old(data)@),
        final(data)@.len() % 32 == 0,
{
    let rem: usize = data.len() % BYTES_PER_CHUNK;
    if rem != 0 {
        let pad: usize = BYTES_PER_CHUNK - rem;
        let mut i: usize = 0;
        while i < pad
            invariant
                i <= pad,
                pad == 32 - old(data)@.len() % 32,
                data@ == old(data)@ + zero_bytes(i as nat),
            decreases pad - i,
        {
            data.push(0u8);
            i = i + 1;
            assert(data@ =~= old(data)@ + zero_bytes(i as nat));
        }
    }
}

proof fn lemma_pow2_positive(d: nat)
    ensures
        pow2(d) >= 1,
        pow2(d) > d,
    decreases d,
{
    if d > 0 {
        lemma_pow2_positive((d - 1) as nat);
    }
}

/// `d` is the least depth whose tree has room for `n` leaves.
proof fn lemma_ceil_log2_least(n: nat, d: nat)
    requires
        pow2(d) >= n,
        d == 0 || pow2((d - 1) as nat) < n,
    ensures
        ceil_log2(n) == d,
    decreases d,
{
    if d > 0 {
        let m = ((n + 1) / 2) as nat;
        if d > 1 {
            assert(pow2((d - 1) as nat) == 2 * pow2((d - 2) as nat));
        }
        lemma_ceil_log2_least(m, (d - 1) as nat);
    }
}

pub proof fn lemma_pow2_ceil_log2(n: nat)
    ensures
        pow2(ceil_log2(n)) >= n,
        ceil_log2(n) == 0 || pow2((ceil_log2(n) - 1) as nat) < n,
    decreases n,
{
    if n > 1 {
        let m = ((n + 1) / 2) as nat;
        lemma_pow2_ceil_log2(m);
        let e = ceil_log2(m);
        if e > 0 {
            assert(pow2(e) == 2 * pow2((e - 1) as nat));
        }
    }
}

/// Depth of the tree for `n` leaves, and the number of bytes its leaves span.
fn tree_depth(n: usize) -> (r: (usize, u128))
    ensures
        r.0 as nat == ceil_log2(n as nat),
        r.1 as nat == 32 * pow2(r.0 as nat),
        r.0 < usize::MAX,
{
    let mut d: usize = 0;
    let mut p: u128 = 1;
    while p < n as u128
        invariant
            p as nat == pow2(d as nat),
            p >= 1,
            d == 0 || pow2((d - 1) as nat) < n,
        decreases 2 * (n as int) - p as int,
    {
        proof {
            lemma_pow2_positive(d as nat);
        }
        assert(p < n);
        p = p * 2;
        d = d + 1;
    }
    proof {
        lemma_pow2_positive(d as nat);
        if d > 0 {
            lemma_pow2_positive((d - 1) as nat);
        }
        lemma_ceil_log2_least(n as nat, d as nat);
    }
    (d, 32 * p)
}

/// The roots of all-zero subtrees of depth `0..=depth`.
fn zero_hashes(depth: usize) -> (z: Vec<Vec<u8>>)
    requires
        depth < usize::MAX,
    ensures
        z@.len() == depth + 1,
        forall|i: int| 0 <= i < z@.len() ==> (#[trigger] z@[i])@ == zero_hash(i as nat) && z@[i]@.len() == 32,
{
    let mut first: Vec<u8> = Vec::new();
    let mut i: usize = 0;
    while i < BYTES_PER_CHUNK
        invariant
            i <= 32,
            first@ == zero_bytes(i as nat),
        decreases 32 - i,
    {
        first.push(0u8);
        i = i + 1;
        assert(first@ =~= zero_bytes(i as nat));
    }
    assert(first@ =~= zero_hash(0));
    assert(first@.len() == 32);
    let mut z: Vec<Vec<u8>> = Vec::new();
    z.push(first);
    let mut k: usize = 1;
    while k <= depth
        invariant
            1 <= k <= depth + 1,
            depth < usize::MAX,
            z@.len() == k,
            forall|i: int| 0 <= i < z@.len() ==> (#[trigger] z@[i])@ == zero_hash(i as nat) && z@[i]@.len() == 32,
        decreases depth + 1 - k,
    {
        let h = hash_pair(&z[k - 1], &z[k - 1]);
        proof {
            let e = Seq::<u8>::empty();
            assert(e.take(0) =~= e);
            assert(e.skip(0) =~= e);
            assert(h@ == zero_hash(k as nat));
        }
        z.push(h);
        k = k + 1;
    }
    z
}

/// Root of the subtree of the given depth over the bytes `data[lo..hi]`.
fn range_root(
    data: &Vec<u8>,
    lo: usize,
    hi: usize,
    depth: usize,
    width: u128,
    zeros: &Vec<Vec<u8>>,
) -> (r: Vec<u8>)
    requires
        lo <= hi <= data@.len(),
        width as nat == 32 * pow2(depth as nat),
        (hi - lo) as nat <= width as nat,
        depth < zeros@.len(),
        forall|i: int| 0 <= i < zeros@.len() ==> (#[trigger] zeros@[i])@ == zero_hash(i as nat) && zeros@[i]@.len() == 32,
    ensures
        r@ == subtree_root(data@.subrange(lo as int, hi as int), depth as nat),
        r@.len() == 32,
    decreases depth,
{
    if lo == hi {
        let mut r: Vec<u8> = Vec::new();
        append_bytes(&mut r, &zeros[depth]);
        assert(data@.subrange(lo as int, hi as int) =~= Seq::<u8>::empty());
        assert(r@ =~= zeros@[depth as int]@);
        return r;
    }
    if depth == 0 {
        let mut leaf: Vec<u8> = Vec::new();
        let mut i: usize = 0;
        while i < BYTES_PER_CHUNK
            invariant
                i <= 32,
                lo <= hi <= data@.len(),
                leaf@.len() == i,
                forall|j: int|
                    0 <= j < i ==> leaf@[j] == leaf_of(data@.subrange(lo as int, hi as int))[j],
            decreases 32 - i,
        {
            if i < hi - lo {
                leaf.push(data[lo + i]);
            } else {
                leaf.push(0u8);
            }
            i = i + 1;
        }
        assert(leaf@ =~= leaf_of(data@.subrange(lo as int, hi as int)));
        return leaf;
    }
    let half: u128 = width / 2;
    assert(half as nat == 32 * pow2((depth - 1) as nat));
    let mid: usize = if ((hi - lo) as u128) < half {
        hi
    } else {
        lo + half as usize
    };
    let left = range_root(data, lo, mid, depth - 1, half, zeros);
    let right = range_root(data, mid, hi, depth - 1, half, zeros);
    proof {
        let s = data@.subrange(lo as int, hi as int);
        assert(s.take(mid - lo) =~= data@.subrange(lo as int, mid as int));
        assert(s.skip(mid - lo) =~= data@.subrange(mid as int, hi as int));
    }
    hash_pair(&left, &right)
}

/// Appending zero bytes that still fit among the leaves leaves the root unchanged.
pub proof fn lemma_zero_padding(data: Seq<u8>, n: nat, depth: nat)
    requires
        data.len() + n <= 32 * pow2(depth),
    ensures
        subtree_root(data + zero_bytes(n), depth) == subtree_root(data, depth),
    decreases depth,
{
    let p = data + zero_bytes(n);
    if depth == 0 {
        assert(leaf_of(p) =~= leaf_of(data));
    } else {
        let d1 = (depth - 1) as nat;
        let half = 32 * pow2(d1);
        if data.len() >= half {
            assert(p.take(half as int) =~= data.take(half as int));
            assert(p.skip(half as int) =~= data.skip(half as int) + zero_bytes(n));
            lemma_zero_padding(data.skip(half as int), n, d1);
        } else {
            let sp: nat = if p.len() < half {
                p.len()
            } else {
                half
            };
            let n1 = (sp - data.len()) as nat;
            let n2 = (n - n1) as nat;
            let e = Seq::<u8>::empty();
            assert(p.take(sp as int) =~= data + zero_bytes(n1));
            assert(p.skip(sp as int) =~= e + zero_bytes(n2));
            lemma_zero_padding(data, n1, d1);
            lemma_zero_padding(e, n2, d1);
            assert(data.take(data.len() as int) =~= data);
            assert(data.skip(data.len() as int) =~= e);
        }
    }
}

proof fn lemma_ceil_log2_pow2(e: nat)
    ensures
        ceil_log2(pow2(e)) == e,
{
    if e > 0 {
        lemma_pow2_positive((e - 1) as nat);
    }
    lemma_ceil_log2_least(pow2(e), e);
}

/// `chunks` followed by zero chunks up to a perfect tree with room for `leaves` leaves.
pub open spec fn padded_to_tree(chunks: Seq<u8>, leaves: nat) -> Seq<u8> {
    chunks + zero_bytes((32 * pow2(ceil_log2(leaves)) - chunks.len()) as nat)
}

proof fn lemma_pad_to_tree(chunks: Seq<u8>, leaves: nat)
    requires
        chunks.len() % 32 == 0,
        chunk_count(chunks) <= leaves,
    ensures
        merkle_root(chunks, leaves) == merkle_root(
            padded_to_tree(chunks, leaves),
            chunk_count(padded_to_tree(chunks, leaves)),
        ),
        chunk_count(padded_to_tree(chunks, leaves)) == pow2(ceil_log2(leaves)),
{
    let e = ceil_log2(leaves);
    lemma_pow2_ceil_log2(leaves);
    let padded = padded_to_tree(chunks, leaves);
    assert(padded.len() == 32 * pow2(e));
    assert(chunk_count(padded) == pow2(e));
    lemma_ceil_log2_pow2(e);
    lemma_zero_padding(chunks, (32 * pow2(e) - chunks.len()) as nat, e);
}

/// Merkleizing `k` chunks gives the root of the perfect tree over those chunks
/// followed by zero chunks up to the next power of two.
pub proof fn lemma_padding_to_power_of_two(chunks: Seq<u8>)
    requires
        chunks.len() % 32 == 0,
    ensures
        merkle_root(chunks, chunk_count(chunks)) == merkle_root(
            padded_to_tree(chunks, chunk_count(chunks)),
            chunk_count(padded_to_tree(chunks, chunk_count(chunks))),
        ),
        chunk_count(padded_to_tree(chunks, chunk_count(chunks))) == pow2(
            ceil_log2(chunk_count(chunks)),
        ),
{
    lemma_pad_to_tree(chunks, chunk_count(chunks));
}

/// Merkleizing under a limit `l` that the chunks fit in gives the root, without
/// a limit, of the chunks padded with zero chunks to the next power of two of `l`.
pub proof fn lemma_limit_is_padding(chunks: Seq<u8>, l: nat)
    requires
        chunks.len() % 32 == 0,
        chunk_count(chunks) <= l,
    ensures
        merkle_root(chunks, l) == merkle_root(
            padded_to_tree(chunks, l),
            chunk_count(padded_to_tree(chunks, l)),
        ),
        chunk_count(padded_to_tree(chunks, l)) == pow2(ceil_log2(l)),
{
    lemma_pad_to_tree(chunks, l);
}

/// Root of a byte string packed into zero-padded chunks.
pub open spec fn packed_root(data: Seq<u8>) -> Seq<u8> {
    merkle_root(packed(data), chunk_count(packed(data)))
}

/// Packs `data` into chunks and merkleizes them without a limit.
pub fn merkleize_packed(data: Vec<u8>) -> (r: Node)
    ensures
        r@ == packed_root(data@),
        r@.len() == 32,
{
    let mut chunks = data;
    pack_bytes(&mut chunks);
    let root = merkleize(&chunks, None);
    root.unwrap()
}

/// Merkle root of a sequence of 32-byte chunks. Without a limit the tree has room
/// for the chunks themselves; with one it has room for `limit` chunks, and more
/// chunks than that are refused.
pub fn merkleize(chunks: &Vec<u8>, limit: Option<usize>) -> (r: Result<Node, MerkleizationError>)
    requires
        chunks@.len() % 32 == 0,
    ensures
        match limit {
            None => r matches Ok(n) && n@ == merkle_root(chunks@, chunk_count(chunks@)),
            Some(l) => if chunk_count(chunks@) > l {
                r == Err::<Node, MerkleizationError>(MerkleizationError::InputExceedsLimit(l))
            } else {
                r matches Ok(n) && n@ == merkle_root(chunks@, l as nat)
            },
        },
        r matches Ok(n) ==> n@.len() == 32,
{
    let count: usize = chunks.len() / BYTES_PER_CHUNK;
    let leaves: usize = match limit {
        None => count,
        Some(l) => {
            if l < count {
                return Err(MerkleizationError::InputExceedsLimit(l));
            }
            l
        },
    };
    let (depth, width) = tree_depth(leaves);
    proof {
        lemma_pow2_ceil_log2(leaves as nat);
    }
    let zeros = zero_hashes(depth);
    let root = range_root(chunks, 0, chunks.len(), depth, width, &zeros);
    assert(chunks@.subrange(0, chunks@.len() as int) =~= chunks@);
    Ok(Node { bytes: root })
}

} // verus!
