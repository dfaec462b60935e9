//! Big-endian byte-level primitives shared by the section codec: encodings of
//! the fixed-width integers as byte sequences, readers and writers over byte
//! buffers, and the 32-byte alignment helper used to pad section ends.

use vstd::prelude::*;

verus! {

/// Big-endian encoding of a `u16` as two bytes.
pub open spec fn spec_u16_be(x: u16) -> Seq<u8> {
    seq![(x / 0x100) as u8, (x % 0x100) as u8]
}

/// Big-endian encoding of a `u32` as four bytes.
pub open spec fn spec_u32_be(x: u32) -> Seq<u8> {
    seq![
        (x / 0x1000000) as u8,
        ((x / 0x10000) % 0x100) as u8,
        ((x / 0x100) % 0x100) as u8,
        (x % 0x100) as u8,
    ]
}

/// Big-endian encoding of an `i16`: the two's-complement bit pattern.
pub open spec fn spec_i16_be(x: i16) -> Seq<u8> {
    spec_u16_be(x as u16)
}

/// The `u16` value stored big-endian at `off`, as an unbounded integer.
pub open spec fn spec_read_u16(s: Seq<u8>, off: int) -> int {
    s[off] * 0x100 + s[off + 1]
}

/// The `u32` value stored big-endian at `off`, as an unbounded integer.
pub open spec fn spec_read_u32(s: Seq<u8>, off: int) -> int {
    s[off] * 0x1000000 + s[off + 1] * 0x10000 + s[off + 2] * 0x100 + s[off + 3]
}

/// The `i16` value stored big-endian at `off`.
pub open spec fn spec_read_i16(s: Seq<u8>, off: int) -> i16 {
    (spec_read_u16(s, off) as u16) as i16
}

/// A sequence of `n` zero bytes.
pub open spec fn zeros(n: int) -> Seq<u8> {
    Seq::new(n as nat, |i: int| 0u8)
}

/// The next multiple of 32 at or above `x`.
pub open spec fn spec_align32(x: int) -> int {
    ((x + 31) / 32) * 32
}

pub proof fn lemma_align32(x: int)
    requires
        x >= 0,
    ensures
        spec_align32(x) >= x,
        spec_align32(x) < x + 32,
        spec_align32(x) % 32 == 0,
        x % 32 == 0 ==> spec_align32(x) == x,
{
    vstd::arithmetic::div_mod::lemma_fundamental_div_mod(x + 31, 32);
    vstd::arithmetic::div_mod::lemma_fundamental_div_mod(x, 32);
    let q = (x + 31) / 32;
    assert(spec_align32(x) == q * 32) by (nonlinear_arith)
        requires q == (x + 31) / 32;
    assert(q * 32 % 32 == 0) by (nonlinear_arith);
}

/// Round `off` up to the next multiple of 32; sections of the container are
/// aligned to 32-byte boundaries.
pub fn align_next_32(off: u32) -> (r: u32)
    requires
        off <= 0xFFFF_FFE0,
    ensures
        r == spec_align32(off as int),
{
    ((off + 31) / 32) * 32
}

/// `spec_u16_be` really is the inverse of `spec_read_u16`.
pub proof fn lemma_u16_be_read(x: u16)
    ensures
        spec_read_u16(spec_u16_be(x), 0) == x,
{
    vstd::arithmetic::div_mod::lemma_fundamental_div_mod(x as int, 0x100);
}

/// `spec_u32_be` really is the inverse of `spec_read_u32`.
pub proof fn lemma_u32_be_read(x: u32)
    ensures
        spec_read_u32(spec_u32_be(x), 0) == x,
{
    vstd::arithmetic::div_mod::lemma_fundamental_div_mod(x as int, 0x100);
    vstd::arithmetic::div_mod::lemma_fundamental_div_mod(x as int / 0x100, 0x100);
    vstd::arithmetic::div_mod::lemma_fundamental_div_mod(x as int / 0x10000, 0x100);
    assert(x as int / 0x100 / 0x100 == x as int / 0x10000) by (nonlinear_arith);
    assert(x as int / 0x10000 / 0x100 == x as int / 0x1000000) by (nonlinear_arith);
    assert(x as int / 0x1000000 <= 0xFF);
}

/// Casting an `i16` through its `u16` bit pattern is the identity.
pub proof fn lemma_i16_u16_roundtrip(x: i16)
    ensures
        (x as u16) as i16 == x,
{
    assert((x as u16) as i16 == x) by (bit_vector);
}

/// `spec_i16_be` really is the inverse of `spec_read_i16`.
pub proof fn lemma_i16_be_read(x: i16)
    ensures
        spec_read_i16(spec_i16_be(x), 0) == x,
{
    lemma_u16_be_read(x as u16);
    lemma_i16_u16_roundtrip(x);
}

/// A stream region holding a concatenation holds each part: the generic
/// step for taking a serialized file apart piece by piece.
pub proof fn lemma_split_suffix(s: Seq<u8>, off: int, a: Seq<u8>, b: Seq<u8>)
    requires
        0 <= off,
        off + a.len() + b.len() <= s.len(),
        s.subrange(off, off + a.len() + b.len()) == a + b,
    ensures
        s.subrange(off, off + a.len()) == a,
        s.subrange(off + a.len(), off + a.len() + b.len()) == b,
{
    let whole = s.subrange(off, off + a.len() + b.len());
    assert forall|j: int| 0 <= j < a.len() implies s.subrange(off, off + a.len())[j] == a[j] by {
        assert(whole[j] == s[off + j]);
        assert(whole[j] == (a + b)[j]);
    }
    assert(s.subrange(off, off + a.len()) =~= a);
    assert forall|j: int|
        0 <= j < b.len() implies s.subrange(off + a.len(), off + a.len() + b.len())[j] == b[j] by {
        assert(whole[a.len() + j] == s[off + a.len() + j]);
        assert(whole[a.len() + j] == (a + b)[a.len() + j]);
    }
    assert(s.subrange(off + a.len(), off + a.len() + b.len()) =~= b);
}

/// A byte stream built from thirteen pieces — the layout of a whole
/// written container — holds each piece as the subrange at its cumulative
/// offset.
pub proof fn lemma_split_pieces(
    s: Seq<u8>,
    p0: Seq<u8>,
    p1: Seq<u8>,
    p2: Seq<u8>,
    p3: Seq<u8>,
    p4: Seq<u8>,
    p5: Seq<u8>,
    p6: Seq<u8>,
    p7: Seq<u8>,
    p8: Seq<u8>,
    p9: Seq<u8>,
    p10: Seq<u8>,
    p11: Seq<u8>,
    p12: Seq<u8>,
)
    requires
        s == p0 + p1 + p2 + p3 + p4 + p5 + p6 + p7 + p8 + p9 + p10 + p11 + p12,
    ensures
        ({
            let e0 = p0.len() as int;
            let e1 = e0 + p1.len();
            let e2 = e1 + p2.len();
            let e3 = e2 + p3.len();
            let e4 = e3 + p4.len();
            let e5 = e4 + p5.len();
            let e6 = e5 + p6.len();
            let e7 = e6 + p7.len();
            let e8 = e7 + p8.len();
            let e9 = e8 + p9.len();
            let e10 = e9 + p10.len();
            let e11 = e10 + p11.len();
            let e12 = e11 + p12.len();
            &&& s.len() == e12
            &&& s.subrange(0, e0) == p0
            &&& s.subrange(e0, e1) == p1
            &&& s.subrange(e1, e2) == p2
            &&& s.subrange(e2, e3) == p3
            &&& s.subrange(e3, e4) == p4
            &&& s.subrange(e4, e5) == p5
            &&& s.subrange(e5, e6) == p6
            &&& s.subrange(e6, e7) == p7
            &&& s.subrange(e7, e8) == p8
            &&& s.subrange(e8, e9) == p9
            &&& s.subrange(e9, e10) == p10
            &&& s.subrange(e10, e11) == p11
            &&& s.subrange(e11, e12) == p12
        }),
{
    let q0 = p0;
    let q1 = p0 + p1;
    let q2 = p0 + p1 + p2;
    let q3 = p0 + p1 + p2 + p3;
    let q4 = p0 + p1 + p2 + p3 + p4;
    let q5 = p0 + p1 + p2 + p3 + p4 + p5;
    let q6 = p0 + p1 + p2 + p3 + p4 + p5 + p6;
    let q7 = p0 + p1 + p2 + p3 + p4 + p5 + p6 + p7;
    let q8 = p0 + p1 + p2 + p3 + p4 + p5 + p6 + p7 + p8;
    let q9 = p0 + p1 + p2 + p3 + p4 + p5 + p6 + p7 + p8 + p9;
    let q10 = p0 + p1 + p2 + p3 + p4 + p5 + p6 + p7 + p8 + p9 + p10;
    let q11 = p0 + p1 + p2 + p3 + p4 + p5 + p6 + p7 + p8 + p9 + p10 + p11;
    let q12 = p0 + p1 + p2 + p3 + p4 + p5 + p6 + p7 + p8 + p9 + p10 + p11 + p12;
    assert(s.subrange(0, q12.len() as int) =~= q12);
    lemma_split_suffix(s, 0, q11, p12);
    lemma_split_suffix(s, 0, q10, p11);
    lemma_split_suffix(s, 0, q9, p10);
    lemma_split_suffix(s, 0, q8, p9);
    lemma_split_suffix(s, 0, q7, p8);
    lemma_split_suffix(s, 0, q6, p7);
    lemma_split_suffix(s, 0, q5, p6);
    lemma_split_suffix(s, 0, q4, p5);
    lemma_split_suffix(s, 0, q3, p4);
    lemma_split_suffix(s, 0, q2, p3);
    lemma_split_suffix(s, 0, q1, p2);
    lemma_split_suffix(s, 0, q0, p1);
}

/// The converse join: a stream that holds thirteen pieces as consecutive
/// subranges is their concatenation.
pub proof fn lemma_join_pieces(
    s: Seq<u8>,
    p0: Seq<u8>,
    p1: Seq<u8>,
    p2: Seq<u8>,
    p3: Seq<u8>,
    p4: Seq<u8>,
    p5: Seq<u8>,
    p6: Seq<u8>,
    p7: Seq<u8>,
    p8: Seq<u8>,
    p9: Seq<u8>,
    p10: Seq<u8>,
    p11: Seq<u8>,
    p12: Seq<u8>,
)
    requires
        s.len() == p0.len() + p1.len() + p2.len() + p3.len() + p4.len() + p5.len() + p6.len()
            + p7.len() + p8.len() + p9.len() + p10.len() + p11.len() + p12.len(),
        ({
            let e0 = p0.len() as int;
            let e1 = e0 + p1.len();
            let e2 = e1 + p2.len();
            let e3 = e2 + p3.len();
            let e4 = e3 + p4.len();
            let e5 = e4 + p5.len();
            let e6 = e5 + p6.len();
            let e7 = e6 + p7.len();
            let e8 = e7 + p8.len();
            let e9 = e8 + p9.len();
            let e10 = e9 + p10.len();
            let e11 = e10 + p11.len();
            let e12 = e11 + p12.len();
            &&& s.subrange(0, e0) == p0
            &&& s.subrange(e0, e1) == p1
            &&& s.subrange(e1, e2) == p2
            &&& s.subrange(e2, e3) == p3
            &&& s.subrange(e3, e4) == p4
            &&& s.subrange(e4, e5) == p5
            &&& s.subrange(e5, e6) == p6
            &&& s.subrange(e6, e7) == p7
            &&& s.subrange(e7, e8) == p8
            &&& s.subrange(e8, e9) == p9
            &&& s.subrange(e9, e10) == p10
            &&& s.subrange(e10, e11) == p11
            &&& s.subrange(e11, e12) == p12
        }),
    ensures
        s == p0 + p1 + p2 + p3 + p4 + p5 + p6 + p7 + p8 + p9 + p10 + p11 + p12,
{
    let e0 = p0.len() as int;
    let e1 = e0 + p1.len();
    let e2 = e1 + p2.len();
    let e3 = e2 + p3.len();
    let e4 = e3 + p4.len();
    let e5 = e4 + p5.len();
    let e6 = e5 + p6.len();
    let e7 = e6 + p7.len();
    let e8 = e7 + p8.len();
    let e9 = e8 + p9.len();
    let e10 = e9 + p10.len();
    let e11 = e10 + p11.len();
    let e12 = e11 + p12.len();
    let whole = p0 + p1 + p2 + p3 + p4 + p5 + p6 + p7 + p8 + p9 + p10 + p11 + p12;
    assert forall|j: int| 0 <= j < s.len() implies #[trigger] s[j] == whole[j] by {
        if j < e0 {
            assert(s.subrange(0, e0)[j] == s[j]);
        } else if j < e1 {
            assert(s.subrange(e0, e1)[j - e0] == s[j]);
        } else if j < e2 {
            assert(s.subrange(e1, e2)[j - e1] == s[j]);
        } else if j < e3 {
            assert(s.subrange(e2, e3)[j - e2] == s[j]);
        } else if j < e4 {
            assert(s.subrange(e3, e4)[j - e3] == s[j]);
        } else if j < e5 {
            assert(s.subrange(e4, e5)[j - e4] == s[j]);
        } else if j < e6 {
            assert(s.subrange(e5, e6)[j - e5] == s[j]);
        } else if j < e7 {
            assert(s.subrange(e6, e7)[j - e6] == s[j]);
        } else if j < e8 {
            assert(s.subrange(e7, e8)[j - e7] == s[j]);
        } else if j < e9 {
            assert(s.subrange(e8, e9)[j - e8] == s[j]);
        } else if j < e10 {
            assert(s.subrange(e9, e10)[j - e9] == s[j]);
        } else if j < e11 {
            assert(s.subrange(e10, e11)[j - e10] == s[j]);
        } else {
            assert(s.subrange(e11, e12)[j - e11] == s[j]);
        }
    }
    assert(s =~= whole);
}

/// A subrange of a known stream region is the matching subrange of its
/// contents.
pub proof fn lemma_sub_sub(s: Seq<u8>, off: int, a: Seq<u8>, st: int, en: int)
    requires
        0 <= off,
        off + a.len() <= s.len(),
        s.subrange(off, off + a.len()) == a,
        0 <= st <= en <= a.len(),
    ensures
        s.subrange(off + st, off + en) == a.subrange(st, en),
{
    assert forall|j: int| 0 <= j < en - st implies #[trigger] s.subrange(off + st, off + en)[j]
        == a.subrange(st, en)[j] by {
        assert(s.subrange(off, off + a.len())[st + j] == s[off + st + j]);
    }
    assert(s.subrange(off + st, off + en) =~= a.subrange(st, en));
}

/// A big-endian `u16` encoding found as a subrange of a stream reads back
/// as its value.
pub proof fn lemma_read_u16_sub(s: Seq<u8>, off: int, x: u16)
    requires
        0 <= off,
        off + 2 <= s.len(),
        s.subrange(off, off + 2) == spec_u16_be(x),
    ensures
        spec_read_u16(s, off) == x,
{
    let sub = s.subrange(off, off + 2);
    assert(s[off] == sub[0] && s[off + 1] == sub[1]);
    lemma_u16_be_read(x);
}

/// A big-endian `u32` encoding found as a subrange of a stream reads back
/// as its value.
pub proof fn lemma_read_u32_sub(s: Seq<u8>, off: int, x: u32)
    requires
        0 <= off,
        off + 4 <= s.len(),
        s.subrange(off, off + 4) == spec_u32_be(x),
    ensures
        spec_read_u32(s, off) == x,
{
    let sub = s.subrange(off, off + 4);
    assert(s[off] == sub[0] && s[off + 1] == sub[1] && s[off + 2] == sub[2] && s[off + 3]
        == sub[3]);
    lemma_u32_be_read(x);
}

/// A big-endian `i16` encoding found as a subrange of a stream reads back
/// as its value.
pub proof fn lemma_read_i16_sub(s: Seq<u8>, off: int, x: i16)
    requires
        0 <= off,
        off + 2 <= s.len(),
        s.subrange(off, off + 2) == spec_i16_be(x),
    ensures
        spec_read_i16(s, off) == x,
{
    let sub = s.subrange(off, off + 2);
    assert(s[off] == sub[0] && s[off + 1] == sub[1]);
    lemma_i16_be_read(x);
}

/// Read the byte at `off`.
pub fn read_u8_at(data: &[u8], off: usize) -> (r: u8)
    requires
        off < data@.len(),
    ensures
        r == data@[off as int],
{
    data[off]
}

/// Read the big-endian `u16` at `off`.
pub fn read_u16_at(data: &[u8], off: usize) -> (r: u16)
    requires
        off + 2 <= data@.len(),
    ensures
        r == spec_read_u16(data@, off as int),
{
    let hi = data[off];
    let lo = data[off + 1];
    (hi as u16) * 0x100 + (lo as u16)
}

/// Read the big-endian `u32` at `off`.
pub fn read_u32_at(data: &[u8], off: usize) -> (r: u32)
    requires
        off + 4 <= data@.len(),
    ensures
        r == spec_read_u32(data@, off as int),
{
    let b0 = data[off];
    let b1 = data[off + 1];
    let b2 = data[off + 2];
    let b3 = data[off + 3];
    (b0 as u32) * 0x1000000 + (b1 as u32) * 0x10000 + (b2 as u32) * 0x100 + (b3 as u32)
}

/// Read the big-endian `i16` at `off`.
pub fn read_i16_at(data: &[u8], off: usize) -> (r: i16)
    requires
        off + 2 <= data@.len(),
    ensures
        r == spec_read_i16(data@, off as int),
{
    let v = read_u16_at(data, off);
    #[verifier::truncate] (v as i16)
}

/// The `u16` value stored little-endian at `off`, as an unbounded integer.
pub open spec fn spec_read_u16_le(s: Seq<u8>, off: int) -> int {
    s[off + 1] * 0x100 + s[off]
}

/// The `u32` value stored little-endian at `off`, as an unbounded integer.
pub open spec fn spec_read_u32_le(s: Seq<u8>, off: int) -> int {
    s[off + 3] * 0x1000000 + s[off + 2] * 0x10000 + s[off + 1] * 0x100 + s[off]
}

/// The `i16` value stored little-endian at `off`.
pub open spec fn spec_read_i16_le(s: Seq<u8>, off: int) -> i16 {
    (spec_read_u16_le(s, off) as u16) as i16
}

/// Read the little-endian `u16` at `off`.
pub fn read_u16_le_at(data: &[u8], off: usize) -> (r: u16)
    requires
        off + 2 <= data@.len(),
    ensures
        r == spec_read_u16_le(data@, off as int),
{
    let lo = data[off];
    let hi = data[off + 1];
    (hi as u16) * 0x100 + (lo as u16)
}

/// Read the little-endian `u32` at `off`.
pub fn read_u32_le_at(data: &[u8], off: usize) -> (r: u32)
    requires
        off + 4 <= data@.len(),
    ensures
        r == spec_read_u32_le(data@, off as int),
{
    let b0 = data[off];
    let b1 = data[off + 1];
    let b2 = data[off + 2];
    let b3 = data[off + 3];
    (b3 as u32) * 0x1000000 + (b2 as u32) * 0x10000 + (b1 as u32) * 0x100 + (b0 as u32)
}

/// Read the little-endian `i16` at `off`.
pub fn read_i16_le_at(data: &[u8], off: usize) -> (r: i16)
    requires
        off + 2 <= data@.len(),
    ensures
        r == spec_read_i16_le(data@, off as int),
{
    let v = read_u16_le_at(data, off);
    #[verifier::truncate] (v as i16)
}

/// Append the big-endian encoding of `x`.
pub fn push_u16_be(out: &mut Vec<u8>, x: u16)
    ensures
        final(out)@ == old(out)@ + spec_u16_be(x),
{
    out.push((x / 0x100) as u8);
    out.push((x % 0x100) as u8);
    assert(final(out)@ =~= old(out)@ + spec_u16_be(x));
}

/// Append the big-endian encoding of `x`.
pub fn push_u32_be(out: &mut Vec<u8>, x: u32)
    ensures
        final(out)@ == old(out)@ + spec_u32_be(x),
{
    out.push((x / 0x1000000) as u8);
    out.push(((x / 0x10000) % 0x100) as u8);
    out.push(((x / 0x100) % 0x100) as u8);
    out.push((x % 0x100) as u8);
    assert(final(out)@ =~= old(out)@ + spec_u32_be(x));
}

/// Append the big-endian encoding of `x`.
pub fn push_i16_be(out: &mut Vec<u8>, x: i16)
    ensures
        final(out)@ == old(out)@ + spec_i16_be(x),
{
    push_u16_be(out, #[verifier::truncate] (x as u16));
}

/// Append `n` zero bytes.
pub fn push_zeros(out: &mut Vec<u8>, n: usize)
    ensures
        final(out)@ == old(out)@ + zeros(n as int),
{
    let mut i: usize = 0;
    while i < n
        invariant
            i <= n,
            out@.len() == old(out)@.len() + i,
            out@ == old(out)@ + zeros(i as int),
        decreases n - i,
    {
        out.push(0u8);
        i = i + 1;
        assert(out@ =~= old(out)@ + zeros(i as int));
    }
}

/// Append a copy of `src`.
pub fn push_bytes(out: &mut Vec<u8>, src: &[u8])
    ensures
        final(out)@ == old(out)@ + src@,
{
    let n = src.len();
    let mut i: usize = 0;
    while i < n
        invariant
            i <= n,
            n == src@.len(),
            out@ == old(out)@ + src@.subrange(0, i as int),
        decreases n - i,
    {
        out.push(src[i]);
        i = i + 1;
        assert(out@ =~= old(out)@ + src@.subrange(0, i as int));
    }
    assert(src@.subrange(0, n as int) =~= src@);
}

} // verus!
