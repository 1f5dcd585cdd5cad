//! Fixed-length homogeneous arrays: encoding, decoding and Merkle roots.

use crate::error::{DeserializeError, InstanceError, SerializeError, TypeError};
use crate::merkleization::{
    append_bytes, chunk_count, merkle_root, merkleize, merkleize_packed, packed_root,
    MerkleizationError, Node,
};
use crate::simple_serialize::SimpleSerialize;
use vstd::prelude::*;

verus! {

/// The encodings of the elements of `s`, one after another.
pub open spec fn concat_encodings<T: SimpleSerialize>(s: Seq<T>) -> Seq<u8>
    decreases s.len(),
{
    if s.len() == 0 {
        Seq::empty()
    } else {
        concat_encodings(s.drop_last()) + s.last().spec_encoding()
    }
}

/// The roots of the elements of `s`, one after another.
pub open spec fn concat_roots<T: SimpleSerialize>(s: Seq<T>) -> Seq<u8>
    decreases s.len(),
{
    if s.len() == 0 {
        Seq::empty()
    } else {
        concat_roots(s.drop_last()) + s.last().spec_root()
    }
}

/// The encoding of the first `j` elements begins the encoding of all of them.
proof fn lemma_concat_prefix<T: SimpleSerialize>(s: Seq<T>, j: int)
    requires
        0 <= j <= s.len(),
    ensures
        concat_encodings(s.take(j)).len() <= concat_encodings(s).len(),
        concat_encodings(s).take(concat_encodings(s.take(j)).len() as int) == concat_encodings(
            s.take(j),
        ),
    decreases s.len(),
{
    let c = concat_encodings(s);
    if j == s.len() {
        assert(s.take(j) =~= s);
        assert(c.take(c.len() as int) =~= c);
    } else {
        let t = s.drop_last();
        assert(s.take(j) =~= t.take(j));
        lemma_concat_prefix(t, j);
        let l = concat_encodings(s.take(j)).len() as int;
        assert(c.take(l) =~= concat_encodings(t).take(l));
    }
}

/// Encodings of elements that all have `sz` bytes.
proof fn lemma_concat_fixed<T: SimpleSerialize>(s: Seq<T>, sz: nat, i: int)
    requires
        forall|k: int| 0 <= k < s.len() ==> (#[trigger] s[k]).spec_encoding().len() == sz,
        0 <= i < s.len(),
    ensures
        concat_encodings(s).len() == s.len() * sz,
        concat_encodings(s.take(i)).len() == i * sz,
        concat_encodings(s).subrange(i * sz, i * sz + sz) == s[i].spec_encoding(),
{
    lemma_concat_len(s, sz);
    lemma_concat_len(s.take(i), sz);
    lemma_concat_len(s.take(i + 1), sz);
    lemma_concat_prefix(s, i + 1);
    assert(s.take(i + 1).drop_last() =~= s.take(i));
    assert((i + 1) * sz == i * sz + sz) by (nonlinear_arith);
    let c = concat_encodings(s);
    assert(c.subrange(i * sz, i * sz + sz) =~= concat_encodings(s.take(i + 1)).subrange(
        i * sz,
        i * sz + sz,
    ));
    assert(concat_encodings(s.take(i + 1)).subrange(i * sz, i * sz + sz) =~= s[i].spec_encoding());
}

proof fn lemma_concat_len<T: SimpleSerialize>(s: Seq<T>, sz: nat)
    requires
        forall|k: int| 0 <= k < s.len() ==> (#[trigger] s[k]).spec_encoding().len() == sz,
    ensures
        concat_encodings(s).len() == s.len() * sz,
    decreases s.len(),
{
    if s.len() > 0 {
        let t = s.drop_last();
        assert forall|k: int| 0 <= k < t.len() implies (#[trigger] t[k]).spec_encoding().len()
            == sz by {
            assert(t[k] == s[k]);
        }
        lemma_concat_len(t, sz);
        assert(s.len() * sz == (s.len() - 1) * sz + sz) by (nonlinear_arith);
    }
}

proof fn lemma_elements_fixed<T: SimpleSerialize>(s: Seq<T>)
    requires
        T::spec_type_ok(),
        !T::spec_is_variable_size(),
    ensures
        forall|k: int|
            0 <= k < s.len() ==> (#[trigger] s[k]).spec_encoding().len() == T::spec_size_hint(),
{
    assert forall|k: int| 0 <= k < s.len() implies (#[trigger] s[k]).spec_encoding().len()
        == T::spec_size_hint() by {
        s[k].lemma_encoding_len();
    }
}

/// Relies on `<[T; N]>::try_from(Vec<T>)`: it succeeds exactly when the vector holds
/// `N` elements, and then keeps them in order; otherwise it hands the vector back.
#[verifier::external_body]
fn vec_into_array<T, const N: usize>(v: Vec<T>) -> (r: Result<[T; N], Vec<T>>)
    ensures
        match r {
            Ok(a) => v@.len() == N && a@ == v@,
            Err(w) => v@.len() != N && w@ == v@,
        },
{
    v.try_into()
}

/// Four little-endian bytes of `x`.
pub open spec fn le32(x: u32) -> Seq<u8> {
    seq![
        (x & 0xff) as u8,
        ((x >> 8u32) & 0xff) as u8,
        ((x >> 16u32) & 0xff) as u8,
        ((x >> 24u32) & 0xff) as u8,
    ]
}

/// The offset table of a sequence of variable-size elements: for each element, the
/// position of its payload, counted from the start of an encoding whose table
/// takes `table` bytes.
pub open spec fn offset_table<T: SimpleSerialize>(s: Seq<T>, table: nat) -> Seq<u8>
    decreases s.len(),
{
    if s.len() == 0 {
        Seq::empty()
    } else {
        offset_table(s.drop_last(), table) + le32(
            (table + concat_encodings(s.drop_last()).len()) as u32,
        )
    }
}

/// Encoding of a sequence of variable-size elements: the offset table, then the
/// elements' encodings in order.
pub open spec fn variable_layout<T: SimpleSerialize>(s: Seq<T>) -> Seq<u8> {
    offset_table(s, 4 * s.len()) + concat_encodings(s)
}

/// Longest encoding whose offsets fit in four bytes.
pub const MAX_ENCODED_LEN: u64 = 0xffff_ffff;

proof fn lemma_le32_decode(x: u32)
    ensures
        ((le32(x)[0] as u32) | ((le32(x)[1] as u32) << 8u32) | ((le32(x)[2] as u32) << 16u32) | ((
        le32(x)[3] as u32) << 24u32)) == x,
{
    let b0 = (x & 0xff) as u8;
    let b1 = ((x >> 8u32) & 0xff) as u8;
    let b2 = ((x >> 16u32) & 0xff) as u8;
    let b3 = ((x >> 24u32) & 0xff) as u8;
    assert(((b0 as u32) | ((b1 as u32) << 8u32) | ((b2 as u32) << 16u32) | ((b3 as u32)
        << 24u32)) == x) by (bit_vector)
        requires
            b0 == (x & 0xff) as u8,
            b1 == ((x >> 8u32) & 0xff) as u8,
            b2 == ((x >> 16u32) & 0xff) as u8,
            b3 == ((x >> 24u32) & 0xff) as u8,
    ;
}

proof fn lemma_le32_injective(x: u32, y: u32)
    requires
        le32(x) == le32(y),
    ensures
        x == y,
{
    lemma_le32_decode(x);
    lemma_le32_decode(y);
}

/// Appends the four little-endian bytes of `x`.
fn push_le32(buf: &mut Vec<u8>, x: u32)
    ensures
        final(buf)@ == old(buf)@ + le32(x),
{
    buf.push((x & 0xff) as u8);
    buf.push(((x >> 8u32) & 0xff) as u8);
    buf.push(((x >> 16u32) & 0xff) as u8);
    buf.push(((x >> 24u32) & 0xff) as u8);
    assert(buf@ =~= old(buf)@ + le32(x));
}

/// Reads the four little-endian bytes at `at`.
fn read_le32(b: &[u8], at: usize) -> (r: u32)
    requires
        at + 4 <= b@.len(),
    ensures
        le32(r) == b@.subrange(at as int, at + 4),
{
    let b0 = b[at];
    let b1 = b[at + 1];
    let b2 = b[at + 2];
    let b3 = b[at + 3];
    let r = (b0 as u32) | ((b1 as u32) << 8u32) | ((b2 as u32) << 16u32) | ((b3 as u32) << 24u32);
    assert(((r & 0xff) as u8 == b0 && ((r >> 8u32) & 0xff) as u8 == b1 && ((r >> 16u32) & 0xff) as u8
        == b2 && ((r >> 24u32) & 0xff) as u8 == b3)) by (bit_vector)
        requires
            r == (b0 as u32) | ((b1 as u32) << 8u32) | ((b2 as u32) << 16u32) | ((b3 as u32)
                << 24u32),
    ;
    assert(le32(r) =~= b@.subrange(at as int, at + 4));
    r
}

/// Length of the encodings of the first `i` elements.
pub open spec fn prefix_len<T: SimpleSerialize>(s: Seq<T>, i: int) -> nat {
    concat_encodings(s.take(i)).len()
}

/// Where the encoding of element `i` stands among the concatenated encodings.
proof fn lemma_concat_element<T: SimpleSerialize>(s: Seq<T>, i: int)
    requires
        0 <= i < s.len(),
    ensures
        prefix_len(s, i + 1) == prefix_len(s, i) + s[i].spec_encoding().len(),
        prefix_len(s, i + 1) <= concat_encodings(s).len(),
        concat_encodings(s).subrange(prefix_len(s, i) as int, prefix_len(s, i + 1) as int)
            == s[i].spec_encoding(),
        prefix_len(s, 0) == 0,
        prefix_len(s, s.len() as int) == concat_encodings(s).len(),
{
    lemma_concat_prefix(s, i + 1);
    assert(s.take(i + 1).drop_last() =~= s.take(i));
    assert(s.take(0) =~= Seq::<T>::empty());
    assert(s.take(s.len() as int) =~= s);
    let c = concat_encodings(s);
    let a = prefix_len(s, i) as int;
    let b = prefix_len(s, i + 1) as int;
    assert(c.subrange(a, b) =~= concat_encodings(s.take(i + 1)).subrange(a, b));
    assert(concat_encodings(s.take(i + 1)).subrange(a, b) =~= s[i].spec_encoding());
}

proof fn lemma_offset_table_len<T: SimpleSerialize>(s: Seq<T>, table: nat)
    ensures
        offset_table(s, table).len() == 4 * s.len(),
    decreases s.len(),
{
    if s.len() > 0 {
        lemma_offset_table_len(s.drop_last(), table);
    }
}

/// Entry `i` of the offset table.
proof fn lemma_offset_entry<T: SimpleSerialize>(s: Seq<T>, table: nat, i: int)
    requires
        0 <= i < s.len(),
    ensures
        offset_table(s, table).subrange(4 * i, 4 * i + 4) == le32(
            (table + prefix_len(s, i)) as u32,
        ),
    decreases s.len(),
{
    let t = s.drop_last();
    lemma_offset_table_len(t, table);
    if i == s.len() - 1 {
        assert(s.take(i) =~= t);
        assert(offset_table(s, table).subrange(4 * i, 4 * i + 4) =~= le32(
            (table + concat_encodings(t).len()) as u32,
        ));
    } else {
        lemma_offset_entry(t, table, i);
        assert(t.take(i) =~= s.take(i));
        assert(offset_table(s, table).subrange(4 * i, 4 * i + 4) =~= offset_table(
            t,
            table,
        ).subrange(4 * i, 4 * i + 4));
    }
}

/// Where offset `i` and the encoding of element `i` stand in a variable layout.
proof fn lemma_layout_element<T: SimpleSerialize>(s: Seq<T>, i: int)
    requires
        0 <= i < s.len(),
    ensures
        variable_layout(s).len() == 4 * s.len() + concat_encodings(s).len(),
        variable_layout(s).subrange(4 * i, 4 * i + 4) == le32(
            (4 * s.len() + prefix_len(s, i)) as u32,
        ),
        variable_layout(s).subrange(
            (4 * s.len() + prefix_len(s, i)) as int,
            (4 * s.len() + prefix_len(s, i + 1)) as int,
        ) == s[i].spec_encoding(),
        prefix_len(s, i + 1) == prefix_len(s, i) + s[i].spec_encoding().len(),
        prefix_len(s, i + 1) <= concat_encodings(s).len(),
        prefix_len(s, 0) == 0,
        prefix_len(s, s.len() as int) == concat_encodings(s).len(),
{
    let n = 4 * s.len();
    let l = variable_layout(s);
    let c = concat_encodings(s);
    lemma_offset_table_len(s, n);
    lemma_offset_entry(s, n, i);
    lemma_concat_element(s, i);
    assert(l.subrange(4 * i, 4 * i + 4) =~= offset_table(s, n).subrange(4 * i, 4 * i + 4));
    assert(l.subrange((n + prefix_len(s, i)) as int, (n + prefix_len(s, i + 1)) as int)
        =~= c.subrange(
        prefix_len(s, i) as int,
        prefix_len(s, i + 1) as int,
    ));
}

/// No array of a fixed-size element type encodes to a byte string of another length.
proof fn lemma_no_value_of_other_len<T: SimpleSerialize, const N: usize>(b: Seq<u8>)
    requires
        N > 0,
        T::spec_type_ok(),
        !T::spec_is_variable_size(),
        b.len() != T::spec_size_hint() * N,
    ensures
        forall|v: [T; N]| #[trigger] v.spec_encoding() != b,
{
    assert forall|v: [T; N]| #[trigger] v.spec_encoding() != b by {
        v.lemma_encoding_len();
    }
}

/// An offset read from a valid layout is where the encoding of that element starts.
proof fn lemma_layout_offset<T: SimpleSerialize, const N: usize>(v: [T; N], k: int, o: u32)
    requires
        T::spec_is_variable_size(),
        v.spec_valid(),
        0 <= k < N,
        le32(o) == variable_layout(v@).subrange(4 * k, 4 * k + 4),
    ensures
        o == 4 * N + prefix_len(v@, k),
        prefix_len(v@, k + 1) == prefix_len(v@, k) + v@[k].spec_encoding().len(),
        prefix_len(v@, k + 1) <= concat_encodings(v@).len(),
        variable_layout(v@).len() == 4 * N + concat_encodings(v@).len(),
        variable_layout(v@).subrange(
            (4 * N + prefix_len(v@, k)) as int,
            (4 * N + prefix_len(v@, k + 1)) as int,
        ) == v@[k].spec_encoding(),
        prefix_len(v@, N as int) == concat_encodings(v@).len(),
{
    lemma_layout_element(v@, k);
    lemma_le32_injective(o, (4 * N + prefix_len(v@, k)) as u32);
}

/// Appends the variable layout of `v`: the offset table, then the elements' encodings.
fn serialize_variable<T: SimpleSerialize, const N: usize>(v: &[T; N], buffer: &mut Vec<u8>) -> (r:
    Result<usize, SerializeError>)
    requires
        N > 0,
        T::spec_is_variable_size(),
    ensures
        T::spec_type_ok() && v.spec_valid() ==> (r matches Ok(n) && n == v.spec_encoding().len()
            && final(buffer)@ == old(buffer)@ + v.spec_encoding()),
        !(T::spec_type_ok() && v.spec_valid()) ==> r is Err && final(buffer)@ == old(buffer)@,
{
    proof {
        lemma_layout_element(v@, 0);
    }
    if N > 0x3fff_ffff {
        return Err(SerializeError::MaximumEncodedLengthExceeded);
    }
    let table: usize = 4 * N;
    let mut parts: Vec<Vec<u8>> = Vec::new();
    let mut total: u64 = table as u64;
    let mut i: usize = 0;
    while i < N
        invariant
            0 <= i <= N,
            N <= 0x3fff_ffff,
            table == 4 * N,
            T::spec_is_variable_size(),
            parts@.len() == i,
            forall|k: int| 0 <= k < i ==> (#[trigger] parts@[k])@ == v@[k].spec_encoding(),
            forall|k: int| 0 <= k < i ==> (#[trigger] v@[k]).spec_valid(),
            i > 0 ==> T::spec_type_ok(),
            total == table + prefix_len(v@, i as int),
            total <= MAX_ENCODED_LEN,
            buffer@ == old(buffer)@,
            variable_layout(v@).len() == 4 * N + concat_encodings(v@).len(),
        decreases N - i,
    {
        let mut part: Vec<u8> = Vec::new();
        match v[i].serialize(&mut part) {
            Ok(_) => {},
            Err(e) => {
                return Err(e);
            },
        }
        proof {
            lemma_concat_element(v@, i as int);
        }
        if part.len() as u64 > MAX_ENCODED_LEN - total {
            return Err(SerializeError::MaximumEncodedLengthExceeded);
        }
        total = total + part.len() as u64;
        parts.push(part);
        i = i + 1;
    }
    proof {
        assert(v@.take(N as int) =~= v@);
    }
    let start = buffer.len();
    let mut running: u64 = table as u64;
    i = 0;
    while i < N
        invariant
            0 <= i <= N,
            table == 4 * N,
            parts@.len() == N,
            forall|k: int| 0 <= k < N ==> (#[trigger] parts@[k])@ == v@[k].spec_encoding(),
            running == table + prefix_len(v@, i as int),
            total == table + concat_encodings(v@).len(),
            total <= MAX_ENCODED_LEN,
            buffer@ == old(buffer)@ + offset_table(v@.take(i as int), table as nat),
            start == old(buffer)@.len(),
        decreases N - i,
    {
        push_le32(buffer, running as u32);
        proof {
            lemma_concat_element(v@, i as int);
            assert(v@.take(i + 1).drop_last() =~= v@.take(i as int));
        }
        running = running + parts[i].len() as u64;
        i = i + 1;
    }
    proof {
        assert(v@.take(N as int) =~= v@);
    }
    i = 0;
    while i < N
        invariant
            0 <= i <= N,
            parts@.len() == N,
            forall|k: int| 0 <= k < N ==> (#[trigger] parts@[k])@ == v@[k].spec_encoding(),
            buffer@ == old(buffer)@ + offset_table(v@, (4 * N) as nat) + concat_encodings(
                v@.take(i as int),
            ),
            start == old(buffer)@.len(),
        decreases N - i,
    {
        append_bytes(buffer, &parts[i]);
        proof {
            assert(v@.take(i + 1).drop_last() =~= v@.take(i as int));
        }
        i = i + 1;
    }
    proof {
        assert(v@.take(N as int) =~= v@);
        assert(buffer@ =~= old(buffer)@ + v.spec_encoding());
    }
    let end = buffer.len();
    Ok(end - start)
}

/// Decodes the variable layout of an array: reads and checks the offset table, then
/// decodes each element from the bytes between its offset and the next.
fn deserialize_variable<T: SimpleSerialize, const N: usize>(encoding: &[u8]) -> (r: Result<
    [T; N],
    DeserializeError,
>)
    requires
        N > 0,
        T::spec_is_variable_size(),
        T::spec_size_hint() <= usize::MAX,
    ensures
        r matches Ok(v) ==> T::spec_type_ok() && v.spec_valid() && v.spec_encoding()
            == encoding@,
        T::spec_type_ok() && (exists|v: [T; N]| #[trigger] v.spec_encoding() == encoding@
            && v.spec_valid()) ==> r is Ok,
{
    let len = encoding.len();
    if len as u64 > MAX_ENCODED_LEN {
        proof {
            if exists|v: [T; N]| #[trigger] v.spec_encoding() == encoding@ && v.spec_valid() {
                let v = choose|v: [T; N]| #[trigger] v.spec_encoding() == encoding@
                    && v.spec_valid();
                lemma_layout_element(v@, 0);
            }
        }
        return Err(DeserializeError::MaximumEncodedLengthExceeded(len));
    }
    if len < 4 {
        proof {
            if exists|v: [T; N]| #[trigger] v.spec_encoding() == encoding@ && v.spec_valid() {
                let v = choose|v: [T; N]| #[trigger] v.spec_encoding() == encoding@
                    && v.spec_valid();
                lemma_layout_element(v@, 0);
            }
        }
        if len == 0 {
            return Err(
                DeserializeError::InvalidInstance(InstanceError::Exact { required: N, provided: 0 }),
            );
        }
        return Err(DeserializeError::ExpectedFurtherInput { provided: len, expected: 4 });
    }
    let first_raw = read_le32(encoding, 0);
    let first = first_raw as usize;
    if first % 4 != 0 || first > len || first / 4 != N {
        proof {
            if exists|v: [T; N]| #[trigger] v.spec_encoding() == encoding@ && v.spec_valid() {
                let v = choose|v: [T; N]| #[trigger] v.spec_encoding() == encoding@
                    && v.spec_valid();
                lemma_layout_offset(v, 0, first_raw);
            }
        }
        if first % 4 != 0 || first > len {
            return Err(DeserializeError::InvalidOffset(first));
        }
        return Err(
            DeserializeError::InvalidInstance(
                InstanceError::Exact { required: N, provided: first / 4 },
            ),
        );
    }
    let mut offsets: Vec<usize> = Vec::new();
    offsets.push(first);
    let mut i: usize = 1;
    while i < N
        invariant
            1 <= i <= N,
            first == 4 * N,
            first <= len,
            len == encoding@.len(),
            len <= MAX_ENCODED_LEN,
            T::spec_is_variable_size(),
            offsets@.len() == i,
            offsets@[0] == first,
            forall|k: int|
                0 <= k < i ==> le32((#[trigger] offsets@[k]) as u32) == encoding@.subrange(
                    4 * k,
                    4 * k + 4,
                ) && offsets@[k] <= len,
            forall|k: int| 0 < k < i ==> offsets@[k - 1] <= #[trigger] offsets@[k],
        decreases N - i,
    {
        let o_raw = read_le32(encoding, 4 * i);
        let o = o_raw as usize;
        if o > len || o < offsets[i - 1] {
            proof {
                if exists|v: [T; N]| #[trigger] v.spec_encoding() == encoding@ && v.spec_valid() {
                    let v = choose|v: [T; N]| #[trigger] v.spec_encoding() == encoding@
                        && v.spec_valid();
                    lemma_layout_offset(v, i as int, o_raw);
                    lemma_layout_offset(v, i - 1, offsets@[i - 1] as u32);
                }
            }
            return Err(DeserializeError::InvalidOffset(o));
        }
        offsets.push(o);
        i = i + 1;
    }
    let mut elems: Vec<T> = Vec::new();
    let mut pos: usize = first;
    i = 0;
    while i < N
        invariant
            0 <= i <= N,
            first == 4 * N,
            first <= len,
            len == encoding@.len(),
            len <= MAX_ENCODED_LEN,
            T::spec_is_variable_size(),
            T::spec_size_hint() <= usize::MAX,
            offsets@.len() == N,
            forall|k: int|
                0 <= k < N ==> le32((#[trigger] offsets@[k]) as u32) == encoding@.subrange(
                    4 * k,
                    4 * k + 4,
                ) && offsets@[k] <= len,
            forall|k: int| 0 < k < N ==> offsets@[k - 1] <= #[trigger] offsets@[k],
            i < N ==> pos == offsets@[i as int],
            i == N ==> pos == len,
            first <= pos <= len,
            elems@.len() == i,
            concat_encodings(elems@) == encoding@.subrange(first as int, pos as int),
            offset_table(elems@, (4 * N) as nat) == encoding@.subrange(0, 4 * i),
            forall|k: int| 0 <= k < i ==> (#[trigger] elems@[k]).spec_valid(),
            i > 0 ==> T::spec_type_ok(),
        decreases N - i,
    {
        let hi: usize = if i + 1 < N {
            offsets[i + 1]
        } else {
            len
        };
        let part = &encoding[pos..hi];
        let ghost prev = elems@;
        match T::deserialize(part) {
            Ok(x) => {
                elems.push(x);
            },
            Err(e) => {
                proof {
                    if T::spec_type_ok() && exists|v: [T; N]| #[trigger] v.spec_encoding()
                        == encoding@ && v.spec_valid() {
                        let v = choose|v: [T; N]| #[trigger] v.spec_encoding() == encoding@
                            && v.spec_valid();
                        lemma_layout_offset(v, i as int, offsets@[i as int] as u32);
                        if i + 1 < N {
                            lemma_layout_offset(v, i + 1, offsets@[i + 1] as u32);
                        }
                        assert(v@[i as int].spec_valid());
                        assert(v@[i as int].spec_encoding() =~= part@);
                    }
                }
                return Err(e);
            },
        }
        proof {
            assert(elems@.drop_last() =~= prev);
            assert(encoding@.subrange(first as int, hi as int) =~= encoding@.subrange(
                first as int,
                pos as int,
            ) + part@);
            assert(encoding@.subrange(0, 4 * i + 4) =~= encoding@.subrange(0, 4 * i)
                + encoding@.subrange(4 * i, 4 * i + 4));
            assert(offsets@[i as int] as u32 == (4 * N + concat_encodings(prev).len()) as u32);
        }
        pos = hi;
        i = i + 1;
    }
    proof {
        lemma_offset_table_len(elems@, (4 * N) as nat);
        assert(variable_layout(elems@) =~= encoding@);
    }
    match vec_into_array::<T, N>(elems) {
        Ok(a) => Ok(a),
        Err(w) => Err(
            DeserializeError::InvalidInstance(
                InstanceError::Exact { required: N, provided: w.len() },
            ),
        ),
    }
}

impl<T: SimpleSerialize, const N: usize> SimpleSerialize for [T; N] {
    open spec fn spec_is_variable_size() -> bool {
        T::spec_is_variable_size()
    }

    open spec fn spec_size_hint() -> nat {
        T::spec_size_hint() * (N as nat)
    }

    open spec fn spec_is_composite_type() -> bool {
        true
    }

    open spec fn spec_type_ok() -> bool {
        N > 0 && T::spec_type_ok()
    }

    open spec fn spec_valid(&self) -> bool {
        &&& forall|i: int| 0 <= i < N ==> (#[trigger] self@[i]).spec_valid()
        &&& T::spec_is_variable_size() ==> variable_layout(self@).len() <= MAX_ENCODED_LEN
    }

    open spec fn spec_encoding(&self) -> Seq<u8> {
        if T::spec_is_variable_size() {
            variable_layout(self@)
        } else {
            concat_encodings(self@)
        }
    }

    open spec fn spec_root(&self) -> Seq<u8> {
        if T::spec_is_composite_type() {
            merkle_root(concat_roots(self@), N as nat)
        } else {
            packed_root(self.spec_encoding())
        }
    }

    proof fn lemma_encoding_len(&self) {
        lemma_elements_fixed(self@);
        lemma_concat_len(self@, T::spec_size_hint());
        assert(N * T::spec_size_hint() == T::spec_size_hint() * N) by (nonlinear_arith);
    }

    proof fn lemma_encoding_injective(&self, other: &Self) {
        if T::spec_is_variable_size() {
            assert forall|i: int| 0 <= i < N implies self@[i] == other@[i] by {
                lemma_layout_element(self@, i);
                lemma_layout_element(other@, i);
                let n = 4 * N;
                lemma_le32_injective(
                    (n + prefix_len(self@, i)) as u32,
                    (n + prefix_len(other@, i)) as u32,
                );
                if i + 1 < N {
                    lemma_layout_element(self@, i + 1);
                    lemma_layout_element(other@, i + 1);
                    lemma_le32_injective(
                        (n + prefix_len(self@, i + 1)) as u32,
                        (n + prefix_len(other@, i + 1)) as u32,
                    );
                } else {
                    assert(i + 1 == N);
                }
                self@[i].lemma_encoding_injective(&other@[i]);
            }
            assert(self@ =~= other@);
            assert(*self =~= *other);
        } else {
            let sz = T::spec_size_hint();
            lemma_elements_fixed(self@);
            lemma_elements_fixed(other@);
            assert forall|i: int| 0 <= i < N implies self@[i] == other@[i] by {
                lemma_concat_fixed(self@, sz, i);
                lemma_concat_fixed(other@, sz, i);
                self@[i].lemma_encoding_injective(&other@[i]);
            }
            assert(self@ =~= other@);
            assert(*self =~= *other);
        }
    }

    fn is_variable_size() -> (r: bool) {
        T::is_variable_size()
    }

    fn size_hint() -> (r: usize) {
        proof {
            if N > 0 {
                assert(T::spec_size_hint() <= T::spec_size_hint() * N) by (nonlinear_arith)
                    requires
                        N > 0,
                ;
            }
        }
        if N == 0 {
            0
        } else {
            T::size_hint() * N
        }
    }

    fn is_composite_type() -> (r: bool) {
        true
    }

    fn serialize(&self, buffer: &mut Vec<u8>) -> (r: Result<usize, SerializeError>)
        ensures
            N == 0 ==> r == Err::<usize, SerializeError>(
                SerializeError::InvalidType(TypeError::InvalidBound(0)),
            ),
    {
        if N == 0 {
            return Err(SerializeError::InvalidType(TypeError::InvalidBound(N)));
        }
        if T::is_variable_size() {
            return serialize_variable(self, buffer);
        }
        let mut encoded: Vec<u8> = Vec::new();
        let mut i: usize = 0;
        while i < N
            invariant
                0 <= i <= N,
                N > 0,
                !T::spec_is_variable_size(),
                encoded@ == concat_encodings(self@.take(i as int)),
                forall|k: int| 0 <= k < i ==> (#[trigger] self@[k]).spec_valid(),
                i > 0 ==> T::spec_type_ok(),
                buffer@ == old(buffer)@,
            decreases N - i,
        {
            match self[i].serialize(&mut encoded) {
                Ok(_) => {},
                Err(e) => {
                    assert(!self@[i as int].spec_valid() || !T::spec_type_ok());
                    return Err(e);
                },
            }
            assert(self@.take(i + 1).drop_last() =~= self@.take(i as int));
            i = i + 1;
        }
        assert(self@.take(N as int) =~= self@);
        append_bytes(buffer, &encoded);
        Ok(encoded.len())
    }

    fn deserialize(encoding: &[u8]) -> (r: Result<Self, DeserializeError>)
        ensures
            N == 0 ==> r == Err::<Self, DeserializeError>(
                DeserializeError::InvalidType(TypeError::InvalidBound(0)),
            ),
            N > 0 && !T::spec_is_variable_size() && encoding@.len() < Self::spec_size_hint() ==> r
                == Err::<Self, DeserializeError>(
                DeserializeError::ExpectedFurtherInput {
                    provided: encoding@.len() as usize,
                    expected: Self::spec_size_hint() as usize,
                },
            ),
            N > 0 && !T::spec_is_variable_size() && encoding@.len() > Self::spec_size_hint() ==> r
                == Err::<Self, DeserializeError>(
                DeserializeError::AdditionalInput {
                    provided: encoding@.len() as usize,
                    expected: Self::spec_size_hint() as usize,
                },
            ),
    {
        if N == 0 {
            return Err(DeserializeError::InvalidType(TypeError::InvalidBound(N)));
        }
        proof {
            assert(T::spec_size_hint() <= T::spec_size_hint() * N) by (nonlinear_arith)
                requires
                    N > 0,
            ;
        }
        if T::is_variable_size() {
            return deserialize_variable::<T, N>(encoding);
        }
        let sz = T::size_hint();
        let expected = sz * N;
        if encoding.len() < expected {
            proof {
                if T::spec_type_ok() {
                    lemma_no_value_of_other_len::<T, N>(encoding@);
                }
            }
            return Err(
                DeserializeError::ExpectedFurtherInput { provided: encoding.len(), expected },
            );
        }
        if encoding.len() > expected {
            proof {
                if T::spec_type_ok() {
                    lemma_no_value_of_other_len::<T, N>(encoding@);
                }
            }
            return Err(DeserializeError::AdditionalInput { provided: encoding.len(), expected });
        }
        let mut elems: Vec<T> = Vec::new();
        let mut i: usize = 0;
        let mut start: usize = 0;
        while i < N
            invariant
                0 <= i <= N,
                N > 0,
                !T::spec_is_variable_size(),
                sz == T::spec_size_hint(),
                encoding@.len() == sz * N,
                expected == sz * N,
                start == i * sz,
                elems@.len() == i,
                concat_encodings(elems@) == encoding@.take(start as int),
                forall|k: int| 0 <= k < i ==> (#[trigger] elems@[k]).spec_valid(),
                i > 0 ==> T::spec_type_ok(),
            decreases N - i,
        {
            assert(i * sz + sz <= sz * N) by (nonlinear_arith)
                requires
                    i < N,
                    start == i * sz,
            ;
            let end = start + sz;
            let part = &encoding[start..end];
            let ghost prev = elems@;
            match T::deserialize(part) {
                Ok(x) => {
                    elems.push(x);
                },
                Err(e) => {
                    proof {
                        if T::spec_type_ok() && exists|v: Self|
                            #[trigger] v.spec_encoding() == encoding@ && v.spec_valid() {
                            let v = choose|v: Self| #[trigger] v.spec_encoding() == encoding@
                                && v.spec_valid();
                            assert(v@[i as int].spec_valid());
                            lemma_elements_fixed(v@);
                            lemma_concat_fixed(v@, sz as nat, i as int);
                            assert(v@[i as int].spec_encoding() =~= part@);
                        }
                    }
                    return Err(e);
                },
            }
            assert(elems@.drop_last() =~= prev);
            assert(encoding@.take(end as int) =~= encoding@.take(start as int) + part@);
            assert((i + 1) * sz == i * sz + sz) by (nonlinear_arith);
            i = i + 1;
            start = end;
        }
        assert(N * sz == sz * N) by (nonlinear_arith);
        assert(encoding@.take(start as int) =~= encoding@);
        match vec_into_array::<T, N>(elems) {
            Ok(a) => Ok(a),
            Err(w) => Err(
                DeserializeError::InvalidInstance(
                    InstanceError::Exact { required: N, provided: w.len() },
                ),
            ),
        }
    }

    fn hash_tree_root(&self) -> (r: Result<Node, MerkleizationError>)
        ensures
            N == 0 ==> r == Err::<Node, MerkleizationError>(
                MerkleizationError::SerializationError(
                    SerializeError::InvalidType(TypeError::InvalidBound(0)),
                ),
            ),
    {
        if N == 0 {
            return Err(
                MerkleizationError::SerializationError(
                    SerializeError::InvalidType(TypeError::InvalidBound(N)),
                ),
            );
        }
        if T::is_composite_type() {
            let mut chunks: Vec<u8> = Vec::new();
            let mut i: usize = 0;
            while i < N
                invariant
                    0 <= i <= N,
                    N > 0,
                    T::spec_is_composite_type(),
                    chunks@ == concat_roots(self@.take(i as int)),
                    chunks@.len() == 32 * i,
                    i > 0 ==> T::spec_type_ok(),
                decreases N - i,
            {
                match self[i].hash_tree_root() {
                    Ok(node) => {
                        append_bytes(&mut chunks, node.as_bytes());
                    },
                    Err(e) => {
                        return Err(e);
                    },
                }
                assert(self@.take(i + 1).drop_last() =~= self@.take(i as int));
                i = i + 1;
            }
            assert(self@.take(N as int) =~= self@);
            assert(chunk_count(chunks@) == N);
            let root = merkleize(&chunks, None);
            root
        } else {
            let mut data: Vec<u8> = Vec::new();
            match self.serialize(&mut data) {
                Ok(_) => {},
                Err(e) => {
                    return Err(MerkleizationError::SerializationError(e));
                },
            }
            assert(data@ =~= self.spec_encoding());
            Ok(merkleize_packed(data))
        }
    }
}


/// Decoding the encoding of a valid array gives that array back: `deserialize`
/// succeeds on every byte string that some valid value encodes to, what it returns
/// is valid and has that encoding, and no other valid value has it.
pub proof fn lemma_round_trip<T: SimpleSerialize, const N: usize>(v: [T; N], w: [T; N])
    requires
        <[T; N] as SimpleSerialize>::spec_type_ok(),
        v.spec_valid(),
        w.spec_valid(),
        w.spec_encoding() == v.spec_encoding(),
    ensures
        w == v,
{
    w.lemma_encoding_injective(&v);
}

/// The encoding of an array of fixed-size elements is exactly `size_hint` bytes long, so one byte
/// fewer or one byte more is refused by `deserialize`.
pub proof fn lemma_encoding_exact_len<T: SimpleSerialize, const N: usize>(v: [T; N])
    requires
        <[T; N] as SimpleSerialize>::spec_type_ok(),
        !T::spec_is_variable_size(),
    ensures
        v.spec_encoding().len() == <[T; N] as SimpleSerialize>::spec_size_hint(),
{
    v.lemma_encoding_len();
}

/// Arrays with the same elements have the same root.
pub proof fn lemma_root_determined<T: SimpleSerialize, const N: usize>(a: [T; N], b: [T; N])
    requires
        a@ == b@,
    ensures
        a.spec_root() == b.spec_root(),
{
    assert(a =~= b);
}

/// The root of an array of composite elements merkleizes the elements' roots; that
/// of an array of basic elements merkleizes its packed encoding.
pub proof fn lemma_root_path<T: SimpleSerialize, const N: usize>(a: [T; N])
    ensures
        T::spec_is_composite_type() ==> a.spec_root() == merkle_root(concat_roots(a@), N as nat),
        !T::spec_is_composite_type() ==> a.spec_root() == packed_root(a.spec_encoding()),
{
}

} // verus!
