//! Little-endian encoding of fixed-width integers, as byte sequences and as
//! reads and writes on byte buffers.
use vstd::prelude::*;

verus! {

/// The two bytes of `v`, low byte first.
pub open spec fn le16(v: u16) -> Seq<u8> {
    seq![v as u8, (v >> 8u16) as u8]
}

/// The four bytes of `v`, low byte first.
pub open spec fn le32(v: u32) -> Seq<u8> {
    seq![v as u8, (v >> 8u32) as u8, (v >> 16u32) as u8, (v >> 24u32) as u8]
}

/// The eight bytes of `v`, low byte first.
pub open spec fn le64(v: u64) -> Seq<u8> {
    seq![
        v as u8,
        (v >> 8u64) as u8,
        (v >> 16u64) as u8,
        (v >> 24u64) as u8,
        (v >> 32u64) as u8,
        (v >> 40u64) as u8,
        (v >> 48u64) as u8,
        (v >> 56u64) as u8,
    ]
}

/// The `u16` stored little-endian at byte `i` of `b`.
pub open spec fn get16(b: Seq<u8>, i: int) -> u16 {
    (b[i] as u16) | ((b[i + 1] as u16) << 8u16)
}

/// The `u32` stored little-endian at byte `i` of `b`.
pub open spec fn get32(b: Seq<u8>, i: int) -> u32 {
    (b[i] as u32) | ((b[i + 1] as u32) << 8u32) | ((b[i + 2] as u32) << 16u32) | ((b[i
        + 3] as u32) << 24u32)
}

/// The `u64` stored little-endian at byte `i` of `b`.
pub open spec fn get64(b: Seq<u8>, i: int) -> u64 {
    (get32(b, i) as u64) | ((get32(b, i + 4) as u64) << 32u64)
}

pub proof fn lemma_u16_bytes(v: u16)
    ensures
        get16(le16(v), 0) == v,
{
    let a = v as u8;
    let b = (v >> 8u16) as u8;
    assert((a as u16) | ((b as u16) << 8u16) == v) by (bit_vector)
        requires
            a == v as u8,
            b == (v >> 8u16) as u8,
    ;
}

pub proof fn lemma_bytes_u16(a: u8, b: u8)
    ensures
        le16((a as u16) | ((b as u16) << 8u16)) == seq![a, b],
{
    let v = (a as u16) | ((b as u16) << 8u16);
    assert(v as u8 == a && (v >> 8u16) as u8 == b) by (bit_vector)
        requires
            v == (a as u16) | ((b as u16) << 8u16),
    ;
    assert(le16(v) =~= seq![a, b]);
}

pub proof fn lemma_u32_bytes(v: u32)
    ensures
        get32(le32(v), 0) == v,
{
    let a = v as u8;
    let b = (v >> 8u32) as u8;
    let c = (v >> 16u32) as u8;
    let d = (v >> 24u32) as u8;
    assert((a as u32) | ((b as u32) << 8u32) | ((c as u32) << 16u32) | ((d as u32) << 24u32)
        == v) by (bit_vector)
        requires
            a == v as u8,
            b == (v >> 8u32) as u8,
            c == (v >> 16u32) as u8,
            d == (v >> 24u32) as u8,
    ;
}

pub proof fn lemma_bytes_u32(a: u8, b: u8, c: u8, d: u8)
    ensures
        le32((a as u32) | ((b as u32) << 8u32) | ((c as u32) << 16u32) | ((d as u32) << 24u32))
            == seq![a, b, c, d],
{
    let v = (a as u32) | ((b as u32) << 8u32) | ((c as u32) << 16u32) | ((d as u32) << 24u32);
    assert(v as u8 == a && (v >> 8u32) as u8 == b && (v >> 16u32) as u8 == c && (v >> 24u32) as u8
        == d) by (bit_vector)
        requires
            v == (a as u32) | ((b as u32) << 8u32) | ((c as u32) << 16u32) | ((d as u32)
                << 24u32),
    ;
    assert(le32(v) =~= seq![a, b, c, d]);
}

proof fn lemma_u64_split(v: u64)
    ensures
        ((v as u32) as u64) | ((((v >> 32u64) as u32) as u64) << 32u64) == v,
        le64(v) == le32(v as u32) + le32((v >> 32u64) as u32),
{
    assert(((v as u32) as u64) | ((((v >> 32u64) as u32) as u64) << 32u64) == v) by (bit_vector);
    let lo = v as u32;
    let hi = (v >> 32u64) as u32;
    assert(v as u8 == lo as u8 && (v >> 8u64) as u8 == (lo >> 8u32) as u8 && (v >> 16u64) as u8
        == (lo >> 16u32) as u8 && (v >> 24u64) as u8 == (lo >> 24u32) as u8) by (bit_vector)
        requires
            lo == v as u32,
    ;
    assert((v >> 32u64) as u8 == hi as u8 && (v >> 40u64) as u8 == (hi >> 8u32) as u8 && (v
        >> 48u64) as u8 == (hi >> 16u32) as u8 && (v >> 56u64) as u8 == (hi >> 24u32) as u8)
        by (bit_vector)
        requires
            hi == (v >> 32u64) as u32,
    ;
    assert(le64(v) =~= le32(lo) + le32(hi));
}

pub proof fn lemma_bytes_u64(b: Seq<u8>, i: int)
    requires
        0 <= i,
        i + 8 <= b.len(),
    ensures
        le64(get64(b, i)) == b.subrange(i, i + 8),
{
    let lo = get32(b, i);
    let hi = get32(b, i + 4);
    let v = get64(b, i);
    assert(v as u32 == lo && (v >> 32u64) as u32 == hi) by (bit_vector)
        requires
            v == (lo as u64) | ((hi as u64) << 32u64),
    ;
    lemma_u64_split(v);
    lemma_bytes_u32(b[i], b[i + 1], b[i + 2], b[i + 3]);
    lemma_bytes_u32(b[i + 4], b[i + 5], b[i + 6], b[i + 7]);
    assert(le64(v) =~= b.subrange(i, i + 8));
}

pub proof fn lemma_i16_round(v: i16)
    ensures
        (v as u16) as i16 == v,
{
    assert((v as u16) as i16 == v) by (bit_vector);
}

pub proof fn lemma_i32_round(v: i32)
    ensures
        (v as u32) as i32 == v,
{
    assert((v as u32) as i32 == v) by (bit_vector);
}

pub proof fn lemma_i64_round(v: i64)
    ensures
        (v as u64) as i64 == v,
{
    assert((v as u64) as i64 == v) by (bit_vector);
}

pub proof fn lemma_u16_round(v: u16)
    ensures
        (v as i16) as u16 == v,
{
    assert((v as i16) as u16 == v) by (bit_vector);
}

pub proof fn lemma_u32_round(v: u32)
    ensures
        (v as i32) as u32 == v,
{
    assert((v as i32) as u32 == v) by (bit_vector);
}

pub proof fn lemma_u64_round(v: u64)
    ensures
        (v as i64) as u64 == v,
{
    assert((v as i64) as u64 == v) by (bit_vector);
}

/// Reading a four-byte field back from where it was written.
pub proof fn lemma_get32_at(pre: Seq<u8>, v: u32, post: Seq<u8>)
    ensures
        get32(pre + le32(v) + post, pre.len() as int) == v,
{
    lemma_u32_bytes(v);
    let s = pre + le32(v) + post;
    let k = pre.len() as int;
    assert(s[k] == le32(v)[0]);
    assert(s[k + 1] == le32(v)[1]);
    assert(s[k + 2] == le32(v)[2]);
    assert(s[k + 3] == le32(v)[3]);
}

/// A field read from a buffer, written again, gives back the buffer's bytes.
pub proof fn lemma_le16_of_get(b: Seq<u8>, i: int)
    requires
        0 <= i,
        i + 2 <= b.len(),
    ensures
        le16(get16(b, i)) == b.subrange(i, i + 2),
{
    lemma_bytes_u16(b[i], b[i + 1]);
    assert(b.subrange(i, i + 2) =~= seq![b[i], b[i + 1]]);
}

pub proof fn lemma_le32_of_get(b: Seq<u8>, i: int)
    requires
        0 <= i,
        i + 4 <= b.len(),
    ensures
        le32(get32(b, i)) == b.subrange(i, i + 4),
{
    lemma_bytes_u32(b[i], b[i + 1], b[i + 2], b[i + 3]);
    assert(b.subrange(i, i + 4) =~= seq![b[i], b[i + 1], b[i + 2], b[i + 3]]);
}

/// The `u16` at byte `i` of `b`.
pub fn read16(b: &[u8], i: usize) -> (r: u16)
    requires
        i + 2 <= b@.len(),
    ensures
        r == get16(b@, i as int),
{
    (b[i] as u16) | ((b[i + 1] as u16) << 8u16)
}

/// The `u32` at byte `i` of `b`.
pub fn read32(b: &[u8], i: usize) -> (r: u32)
    requires
        i + 4 <= b@.len(),
    ensures
        r == get32(b@, i as int),
{
    (b[i] as u32) | ((b[i + 1] as u32) << 8u32) | ((b[i + 2] as u32) << 16u32) | ((b[i
        + 3] as u32) << 24u32)
}

/// The `u64` at byte `i` of `b`.
pub fn read64(b: &[u8], i: usize) -> (r: u64)
    requires
        i + 8 <= b@.len(),
    ensures
        r == get64(b@, i as int),
{
    let _n = b.len();
    let lo = read32(b, i);
    let hi = read32(b, i + 4);
    (lo as u64) | ((hi as u64) << 32u64)
}

/// Appends the two bytes of `v`, low byte first.
pub fn push16(out: &mut Vec<u8>, v: u16)
    ensures
        final(out)@ == old(out)@ + le16(v),
{
    out.push(v as u8);
    out.push((v >> 8u16) as u8);
    assert(out@ =~= old(out)@ + le16(v));
}

/// Appends the four bytes of `v`, low byte first.
pub fn push32(out: &mut Vec<u8>, v: u32)
    ensures
        final(out)@ == old(out)@ + le32(v),
{
    out.push(v as u8);
    out.push((v >> 8u32) as u8);
    out.push((v >> 16u32) as u8);
    out.push((v >> 24u32) as u8);
    assert(out@ =~= old(out)@ + le32(v));
}

/// Appends the eight bytes of `v`, low byte first.
pub fn push64(out: &mut Vec<u8>, v: u64)
    ensures
        final(out)@ == old(out)@ + le64(v),
{
    proof {
        lemma_u64_split(v);
    }
    let ghost start = out@;
    push32(out, v as u32);
    push32(out, (v >> 32u64) as u32);
    assert(out@ =~= start + le64(v));
}


/// A value of 16 bits is read back from wherever its two bytes stand.
pub proof fn lemma_get16_eq(b: Seq<u8>, i: int, v: u16)
    requires
        0 <= i,
        i + 2 <= b.len(),
        b[i] == le16(v)[0],
        b[i + 1] == le16(v)[1],
    ensures
        get16(b, i) == v,
{
    lemma_u16_bytes(v);
}

/// A value of 32 bits is read back from wherever its four bytes stand.
pub proof fn lemma_get32_eq(b: Seq<u8>, i: int, v: u32)
    requires
        0 <= i,
        i + 4 <= b.len(),
        b[i] == le32(v)[0],
        b[i + 1] == le32(v)[1],
        b[i + 2] == le32(v)[2],
        b[i + 3] == le32(v)[3],
    ensures
        get32(b, i) == v,
{
    lemma_u32_bytes(v);
}

/// A value of 64 bits is read back from wherever its eight bytes stand.
pub proof fn lemma_get64_eq(b: Seq<u8>, i: int, v: u64)
    requires
        0 <= i,
        i + 8 <= b.len(),
        forall|k: int| 0 <= k < 8 ==> b[i + k] == #[trigger] le64(v)[k],
    ensures
        get64(b, i) == v,
{
    lemma_u64_split(v);
    let lo = v as u32;
    let hi = (v >> 32u64) as u32;
    assert(b[i] == le64(v)[0]);
    assert(b[i + 1] == le64(v)[1]);
    assert(b[i + 2] == le64(v)[2]);
    assert(b[i + 3] == le64(v)[3]);
    assert(b[i + 4] == le64(v)[4]);
    assert(b[i + 5] == le64(v)[5]);
    assert(b[i + 6] == le64(v)[6]);
    assert(b[i + 7] == le64(v)[7]);
    lemma_get32_eq(b, i, lo);
    lemma_get32_eq(b, i + 4, hi);
}

} // verus!
