//! Little-endian fixed-width integer codec.
//!
//! Every on-disk structure of this crate is laid out as its fields in
//! declaration order, each integer written least-significant byte first.
//! This module gives the byte-level meaning of that layout (`u16_le`,
//! `u32_le`, `u64_le` and the matching `.._of_le` readers) together with
//! executable writers and readers proved against it.

use vstd::arithmetic::div_mod::{
    lemma_fundamental_div_mod, lemma_mod_bound,
};
use vstd::prelude::*;

verus! {

/// The two little-endian bytes of a 16-bit integer.
pub open spec fn u16_le(x: u16) -> Seq<u8> {
    seq![
        (x as int % 256) as u8,
        (x as int / 256 % 256) as u8,
    ]
}

/// The four little-endian bytes of a 32-bit integer.
pub open spec fn u32_le(x: u32) -> Seq<u8> {
    seq![
        (x as int % 256) as u8,
        (x as int / 256 % 256) as u8,
        (x as int / 256 / 256 % 256) as u8,
        (x as int / 256 / 256 / 256 % 256) as u8,
    ]
}

/// The eight little-endian bytes of a 64-bit integer.
pub open spec fn u64_le(x: u64) -> Seq<u8> {
    seq![
        (x as int % 256) as u8,
        (x as int / 256 % 256) as u8,
        (x as int / 256 / 256 % 256) as u8,
        (x as int / 256 / 256 / 256 % 256) as u8,
        (x as int / 256 / 256 / 256 / 256 % 256) as u8,
        (x as int / 256 / 256 / 256 / 256 / 256 % 256) as u8,
        (x as int / 256 / 256 / 256 / 256 / 256 / 256 % 256) as u8,
        (x as int / 256 / 256 / 256 / 256 / 256 / 256 / 256 % 256) as u8,
    ]
}

/// The value of two bytes read as a little-endian 16-bit integer.
pub open spec fn u16_of_le(b: Seq<u8>) -> int
    recommends
        b.len() == 2,
{
    b[0] + 256 * b[1]
}

/// The value of four bytes read as a little-endian 32-bit integer.
pub open spec fn u32_of_le(b: Seq<u8>) -> int
    recommends
        b.len() == 4,
{
    b[0] + 256 * (b[1] + 256 * (b[2] + 256 * b[3]))
}

/// The value of eight bytes read as a little-endian 64-bit integer.
pub open spec fn u64_of_le(b: Seq<u8>) -> int
    recommends
        b.len() == 8,
{
    b[0] + 256 * (b[1] + 256 * (b[2] + 256 * (b[3] + 256 * (b[4] + 256 * (b[5] + 256 * (b[6]
        + 256 * b[7]))))))
}

/// Reading back the little-endian bytes of a 16-bit integer gives the
/// integer itself.
pub proof fn lemma_u16_le_round_trip(x: u16)
    ensures
        u16_of_le(u16_le(x)) == x,
{
    let xi = x as int;
    lemma_fundamental_div_mod(xi, 256);
    lemma_mod_bound(xi, 256);
    lemma_mod_bound(xi / 256, 256);
    assert(xi / 256 < 256) by (nonlinear_arith)
        requires
            0 <= xi < 65536,
    ;
    assert(xi / 256 % 256 == xi / 256) by {
        lemma_fundamental_div_mod(xi / 256, 256);
        assert(0 <= xi / 256 < 256) by (nonlinear_arith)
            requires
                0 <= xi < 65536,
        ;
    }
}

/// Reading back the little-endian bytes of a 32-bit integer gives the
/// integer itself.
pub proof fn lemma_u32_le_round_trip(x: u32)
    ensures
        u32_of_le(u32_le(x)) == x,
{
    let xi = x as int;
    let r1 = xi / 256;
    let r2 = r1 / 256;
    let r3 = r2 / 256;
    assert(0 <= r1 < 0x1000000) by (nonlinear_arith)
        requires
            0 <= xi < 0x100000000,
            r1 == xi / 256,
    ;
    assert(0 <= r2 < 0x10000) by (nonlinear_arith)
        requires
            0 <= r1 < 0x1000000,
            r2 == r1 / 256,
    ;
    assert(0 <= r3 < 256) by (nonlinear_arith)
        requires
            0 <= r2 < 0x10000,
            r3 == r2 / 256,
    ;
    lemma_fundamental_div_mod(xi, 256);
    lemma_fundamental_div_mod(r1, 256);
    lemma_fundamental_div_mod(r2, 256);
    lemma_fundamental_div_mod(r3, 256);
    lemma_mod_bound(xi, 256);
    lemma_mod_bound(r1, 256);
    lemma_mod_bound(r2, 256);
    lemma_mod_bound(r3, 256);
}

/// Reading back the little-endian bytes of a 64-bit integer gives the
/// integer itself.
pub proof fn lemma_u64_le_round_trip(x: u64)
    ensures
        u64_of_le(u64_le(x)) == x,
{
    let xi = x as int;
    let r1 = xi / 256;
    let r2 = r1 / 256;
    let r3 = r2 / 256;
    let r4 = r3 / 256;
    let r5 = r4 / 256;
    let r6 = r5 / 256;
    let r7 = r6 / 256;
    assert(0 <= r1 < 0x100000000000000) by (nonlinear_arith)
        requires
            0 <= xi < 0x10000000000000000,
            r1 == xi / 256,
    ;
    assert(0 <= r2 < 0x1000000000000) by (nonlinear_arith)
        requires
            0 <= r1 < 0x100000000000000,
            r2 == r1 / 256,
    ;
    assert(0 <= r3 < 0x10000000000) by (nonlinear_arith)
        requires
            0 <= r2 < 0x1000000000000,
            r3 == r2 / 256,
    ;
    assert(0 <= r4 < 0x100000000) by (nonlinear_arith)
        requires
            0 <= r3 < 0x10000000000,
            r4 == r3 / 256,
    ;
    assert(0 <= r5 < 0x1000000) by (nonlinear_arith)
        requires
            0 <= r4 < 0x100000000,
            r5 == r4 / 256,
    ;
    assert(0 <= r6 < 0x10000) by (nonlinear_arith)
        requires
            0 <= r5 < 0x1000000,
            r6 == r5 / 256,
    ;
    assert(0 <= r7 < 256) by (nonlinear_arith)
        requires
            0 <= r6 < 0x10000,
            r7 == r6 / 256,
    ;
    lemma_fundamental_div_mod(xi, 256);
    lemma_fundamental_div_mod(r1, 256);
    lemma_fundamental_div_mod(r2, 256);
    lemma_fundamental_div_mod(r3, 256);
    lemma_fundamental_div_mod(r4, 256);
    lemma_fundamental_div_mod(r5, 256);
    lemma_fundamental_div_mod(r6, 256);
    lemma_fundamental_div_mod(r7, 256);
    lemma_mod_bound(xi, 256);
    lemma_mod_bound(r1, 256);
    lemma_mod_bound(r2, 256);
    lemma_mod_bound(r3, 256);
    lemma_mod_bound(r4, 256);
    lemma_mod_bound(r5, 256);
    lemma_mod_bound(r6, 256);
    lemma_mod_bound(r7, 256);
}

/// Appends the two little-endian bytes of `x`.
pub fn push_u16_le(buf: &mut Vec<u8>, x: u16)
    ensures
        final(buf)@ == old(buf)@ + u16_le(x),
{
    buf.push((x % 256) as u8);
    buf.push((x / 256 % 256) as u8);
    assert(buf@ =~= old(buf)@ + u16_le(x));
}

/// Appends the four little-endian bytes of `x`.
pub fn push_u32_le(buf: &mut Vec<u8>, x: u32)
    ensures
        final(buf)@ == old(buf)@ + u32_le(x),
{
    buf.push((x % 256) as u8);
    buf.push((x / 256 % 256) as u8);
    buf.push((x / 256 / 256 % 256) as u8);
    buf.push((x / 256 / 256 / 256 % 256) as u8);
    assert(buf@ =~= old(buf)@ + u32_le(x));
}

/// Appends the eight little-endian bytes of `x`.
pub fn push_u64_le(buf: &mut Vec<u8>, x: u64)
    ensures
        final(buf)@ == old(buf)@ + u64_le(x),
{
    buf.push((x % 256) as u8);
    buf.push((x / 256 % 256) as u8);
    buf.push((x / 256 / 256 % 256) as u8);
    buf.push((x / 256 / 256 / 256 % 256) as u8);
    buf.push((x / 256 / 256 / 256 / 256 % 256) as u8);
    buf.push((x / 256 / 256 / 256 / 256 / 256 % 256) as u8);
    buf.push((x / 256 / 256 / 256 / 256 / 256 / 256 % 256) as u8);
    buf.push((x / 256 / 256 / 256 / 256 / 256 / 256 / 256 % 256) as u8);
    assert(buf@ =~= old(buf)@ + u64_le(x));
}

/// Reads the little-endian 16-bit integer stored at `off`.
pub fn read_u16_le(buf: &Vec<u8>, off: usize) -> (r: u16)
    requires
        off + 2 <= buf.len(),
    ensures
        r == u16_of_le(buf@.subrange(off as int, off + 2)),
{
    let b = buf[off] as u16 + 256 * (buf[off + 1] as u16);
    assert(buf@.subrange(off as int, off + 2)[0] == buf@[off as int]);
    assert(buf@.subrange(off as int, off + 2)[1] == buf@[off + 1]);
    b
}

/// Reads the little-endian 32-bit integer stored at `off`.
pub fn read_u32_le(buf: &Vec<u8>, off: usize) -> (r: u32)
    requires
        off + 4 <= buf.len(),
    ensures
        r == u32_of_le(buf@.subrange(off as int, off + 4)),
{
    let b = buf[off] as u32 + 256 * (buf[off + 1] as u32 + 256 * (buf[off + 2] as u32 + 256 * (
    buf[off + 3] as u32)));
    assert(buf@.subrange(off as int, off + 4)[0] == buf@[off as int]);
    assert(buf@.subrange(off as int, off + 4)[1] == buf@[off + 1]);
    assert(buf@.subrange(off as int, off + 4)[2] == buf@[off + 2]);
    assert(buf@.subrange(off as int, off + 4)[3] == buf@[off + 3]);
    b
}

/// Reads the little-endian 64-bit integer stored at `off`.
pub fn read_u64_le(buf: &Vec<u8>, off: usize) -> (r: u64)
    requires
        off + 8 <= buf.len(),
    ensures
        r == u64_of_le(buf@.subrange(off as int, off + 8)),
{
    let b = buf[off] as u64 + 256 * (buf[off + 1] as u64 + 256 * (buf[off + 2] as u64 + 256 * (
    buf[off + 3] as u64 + 256 * (buf[off + 4] as u64 + 256 * (buf[off + 5] as u64 + 256 * (
    buf[off + 6] as u64 + 256 * (buf[off + 7] as u64)))))));
    assert(buf@.subrange(off as int, off + 8)[0] == buf@[off as int]);
    assert(buf@.subrange(off as int, off + 8)[1] == buf@[off + 1]);
    assert(buf@.subrange(off as int, off + 8)[2] == buf@[off + 2]);
    assert(buf@.subrange(off as int, off + 8)[3] == buf@[off + 3]);
    assert(buf@.subrange(off as int, off + 8)[4] == buf@[off + 4]);
    assert(buf@.subrange(off as int, off + 8)[5] == buf@[off + 5]);
    assert(buf@.subrange(off as int, off + 8)[6] == buf@[off + 6]);
    assert(buf@.subrange(off as int, off + 8)[7] == buf@[off + 7]);
    b
}

/// A vector of `n` zero bytes.
pub fn zero_vec(n: usize) -> (v: Vec<u8>)
    ensures
        v@ == Seq::new(n as nat, |i: int| 0u8),
{
    let mut v: Vec<u8> = Vec::new();
    let mut i: usize = 0;
    while i < n
        invariant
            i <= n,
            v@ == Seq::new(i as nat, |j: int| 0u8),
        decreases n - i,
    {
        v.push(0);
        i = i + 1;
        assert(v@ =~= Seq::new(i as nat, |j: int| 0u8));
    }
    v
}

/// A copy of `buf[off .. off + len]`.
pub fn read_range(buf: &Vec<u8>, off: usize, len: usize) -> (r: Vec<u8>)
    requires
        off + len <= buf.len(),
    ensures
        r@ == buf@.subrange(off as int, off + len),
{
    let mut r: Vec<u8> = Vec::new();
    let mut i: usize = 0;
    while i < len
        invariant
            i <= len,
            off + len <= buf.len(),
            r@ == buf@.subrange(off as int, off + i),
        decreases len - i,
    {
        r.push(buf[off + i]);
        i = i + 1;
        assert(r@ =~= buf@.subrange(off as int, off + i));
    }
    r
}

/// `s` with the `data.len()` bytes starting at `off` replaced by `data`.
pub open spec fn splice(s: Seq<u8>, off: int, data: Seq<u8>) -> Seq<u8> {
    Seq::new(s.len(), |i: int| if off <= i < off + data.len() { data[i - off] } else { s[i] })
}

/// Overwrites `dst[dst_off .. dst_off + src.len()]` with `src`.
pub fn copy_into(dst: &mut Vec<u8>, dst_off: usize, src: &Vec<u8>)
    requires
        dst_off + src.len() <= old(dst).len(),
    ensures
        final(dst)@ == splice(old(dst)@, dst_off as int, src@),
{
    let mut j: usize = 0;
    while j < src.len()
        invariant
            j <= src.len(),
            dst_off + src.len() <= old(dst).len(),
            dst.len() == old(dst).len(),
            dst@ == splice(old(dst)@, dst_off as int, src@.subrange(0, j as int)),
        decreases src.len() - j,
    {
        dst.set(dst_off + j, src[j]);
        j = j + 1;
        assert(dst@ =~= splice(old(dst)@, dst_off as int, src@.subrange(0, j as int)));
    }
    assert(src@.subrange(0, src.len() as int) =~= src@);
}

/// The single byte of `x` as a sequence.
pub open spec fn u8_seq(x: u8) -> Seq<u8> {
    seq![x]
}

/// Appends the 16 bytes of `a`.
pub fn push_u8s(buf: &mut Vec<u8>, a: &[u8; 16])
    ensures
        final(buf)@ == old(buf)@ + a@,
{
    let mut i: usize = 0;
    while i < 16
        invariant
            i <= 16,
            buf@ == old(buf)@ + a@.subrange(0, i as int),
        decreases 16 - i,
    {
        buf.push(a[i]);
        i = i + 1;
        assert(buf@ =~= old(buf)@ + a@.subrange(0, i as int));
    }
    assert(a@.subrange(0, 16) =~= a@);
}

/// Splits a concatenation back into its two parts.
pub proof fn lemma_take_skip(a: Seq<u8>, b: Seq<u8>, s: Seq<u8>)
    requires
        s == a + b,
    ensures
        s.subrange(0, a.len() as int) == a,
        s.subrange(a.len() as int, s.len() as int) == b,
{
    assert(s.subrange(0, a.len() as int) =~= a);
    assert(s.subrange(a.len() as int, s.len() as int) =~= b);
}

/// A subrange of a prefix is the same subrange of the whole sequence.
pub proof fn lemma_subrange_of_prefix(s: Seq<u8>, n: int, x: int, y: int)
    requires
        0 <= x <= y <= n <= s.len(),
    ensures
        s.subrange(0, n).subrange(x, y) == s.subrange(x, y),
{
    assert(s.subrange(0, n).subrange(x, y) =~= s.subrange(x, y));
}

/// Appends `src[start .. start + len]` to `dst`.
pub fn push_seq(dst: &mut Vec<u8>, src: &Vec<u8>, start: usize, len: usize)
    requires
        start + len <= src.len(),
    ensures
        final(dst)@ == old(dst)@ + src@.subrange(start as int, start + len),
{
    let mut i: usize = 0;
    while i < len
        invariant
            i <= len,
            start + len <= src.len(),
            dst@ == old(dst)@ + src@.subrange(start as int, start + i),
        decreases len - i,
    {
        dst.push(src[start + i]);
        i = i + 1;
        assert(dst@ =~= old(dst)@ + src@.subrange(start as int, start + i));
    }
}

} // verus!
