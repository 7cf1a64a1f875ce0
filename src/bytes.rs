//! Big-endian integer layouts and small byte-buffer helpers used by the wire codec.
use vstd::prelude::*;

verus! {

/// The two big-endian bytes of `x`.
pub open spec fn be16(x: u16) -> Seq<u8> {
    seq![(x >> 8u16) as u8, x as u8]
}

/// The four big-endian bytes of `x`.
pub open spec fn be32(x: u32) -> Seq<u8> {
    be16((x >> 16u32) as u16) + be16(x as u16)
}

/// The eight big-endian bytes of `x`.
pub open spec fn be64(x: u64) -> Seq<u8> {
    be32((x >> 32u64) as u32) + be32(x as u32)
}

/// The sixteen big-endian bytes of `x`.
pub open spec fn be128(x: u128) -> Seq<u8> {
    be64((x >> 64u128) as u64) + be64(x as u64)
}

/// The integer whose big-endian bytes open `s`.
pub open spec fn from_be16(s: Seq<u8>) -> u16 {
    ((s[0] as u16) << 8u16) | (s[1] as u16)
}

pub open spec fn from_be32(s: Seq<u8>) -> u32 {
    ((from_be16(s.subrange(0, 2)) as u32) << 16u32) | (from_be16(s.subrange(2, 4)) as u32)
}

pub open spec fn from_be64(s: Seq<u8>) -> u64 {
    ((from_be32(s.subrange(0, 4)) as u64) << 32u64) | (from_be32(s.subrange(4, 8)) as u64)
}

pub open spec fn from_be128(s: Seq<u8>) -> u128 {
    ((from_be64(s.subrange(0, 8)) as u128) << 64u128) | (from_be64(s.subrange(8, 16)) as u128)
}

pub proof fn lemma_be16(x: u16)
    ensures
        be16(x).len() == 2,
        from_be16(be16(x)) == x,
{
    let hi = (x >> 8u16) as u8;
    let lo = x as u8;
    assert((((hi as u16) << 8u16) | (lo as u16)) == x) by (bit_vector)
        requires
            hi == (x >> 8u16) as u8,
            lo == x as u8,
    ;
}

pub proof fn lemma_be32(x: u32)
    ensures
        be32(x).len() == 4,
        from_be32(be32(x)) == x,
{
    let hi = (x >> 16u32) as u16;
    let lo = x as u16;
    lemma_be16(hi);
    lemma_be16(lo);
    assert(be32(x).subrange(0, 2) =~= be16(hi));
    assert(be32(x).subrange(2, 4) =~= be16(lo));
    assert((((hi as u32) << 16u32) | (lo as u32)) == x) by (bit_vector)
        requires
            hi == (x >> 16u32) as u16,
            lo == x as u16,
    ;
}

pub proof fn lemma_be64(x: u64)
    ensures
        be64(x).len() == 8,
        from_be64(be64(x)) == x,
{
    let hi = (x >> 32u64) as u32;
    let lo = x as u32;
    lemma_be32(hi);
    lemma_be32(lo);
    assert(be64(x).subrange(0, 4) =~= be32(hi));
    assert(be64(x).subrange(4, 8) =~= be32(lo));
    assert((((hi as u64) << 32u64) | (lo as u64)) == x) by (bit_vector)
        requires
            hi == (x >> 32u64) as u32,
            lo == x as u32,
    ;
}

pub proof fn lemma_be128(x: u128)
    ensures
        be128(x).len() == 16,
        from_be128(be128(x)) == x,
{
    let hi = (x >> 64u128) as u64;
    let lo = x as u64;
    lemma_be64(hi);
    lemma_be64(lo);
    assert(be128(x).subrange(0, 8) =~= be64(hi));
    assert(be128(x).subrange(8, 16) =~= be64(lo));
    assert((((hi as u128) << 64u128) | (lo as u128)) == x) by (bit_vector)
        requires
            hi == (x >> 64u128) as u64,
            lo == x as u64,
    ;
}

/// Appends every byte of `s` to `buf`.
pub fn extend_bytes(buf: &mut Vec<u8>, s: &[u8])
    ensures
        final(buf)@ == old(buf)@ + s@,
{
    let mut i: usize = 0;
    while i < s.len()
        invariant
            i <= s@.len(),
            buf@ == old(buf)@ + s@.subrange(0, i as int),
        decreases s@.len() - i,
    {
        buf.push(s[i]);
        i = i + 1;
        assert(s@.subrange(0, i as int) =~= s@.subrange(0, i - 1) + seq![s@[i - 1]]);
    }
    assert(s@.subrange(0, s@.len() as int) =~= s@);
}

/// A fresh vector holding `s[start..end]`.
pub fn copy_range(s: &[u8], start: usize, end: usize) -> (r: Vec<u8>)
    requires
        start <= end <= s@.len(),
    ensures
        r@ == s@.subrange(start as int, end as int),
{
    let mut r: Vec<u8> = Vec::new();
    extend_bytes(&mut r, &s[start..end]);
    assert(r@ =~= s@.subrange(start as int, end as int));
    r
}

pub fn push_be16(buf: &mut Vec<u8>, x: u16)
    ensures
        final(buf)@ == old(buf)@ + be16(x),
{
    buf.push((x >> 8u16) as u8);
    buf.push(x as u8);
    assert(buf@ =~= old(buf)@ + be16(x));
}

pub fn push_be32(buf: &mut Vec<u8>, x: u32)
    ensures
        final(buf)@ == old(buf)@ + be32(x),
{
    push_be16(buf, (x >> 16u32) as u16);
    push_be16(buf, x as u16);
    assert(buf@ =~= old(buf)@ + be32(x));
}

pub fn push_be64(buf: &mut Vec<u8>, x: u64)
    ensures
        final(buf)@ == old(buf)@ + be64(x),
{
    push_be32(buf, (x >> 32u64) as u32);
    push_be32(buf, x as u32);
    assert(buf@ =~= old(buf)@ + be64(x));
}

pub fn push_be128(buf: &mut Vec<u8>, x: u128)
    ensures
        final(buf)@ == old(buf)@ + be128(x),
{
    push_be64(buf, (x >> 64u128) as u64);
    push_be64(buf, x as u64);
    assert(buf@ =~= old(buf)@ + be128(x));
}

pub fn read_be16(s: &[u8], at: usize) -> (r: u16)
    requires
        at + 2 <= s@.len(),
    ensures
        r == from_be16(s@.subrange(at as int, at + 2)),
{
    ((s[at] as u16) << 8u16) | (s[at + 1] as u16)
}

pub fn read_be32(s: &[u8], at: usize) -> (r: u32)
    requires
        at + 4 <= s@.len(),
    ensures
        r == from_be32(s@.subrange(at as int, at + 4)),
{
    let _n = s.len();
    let hi = read_be16(s, at);
    let lo = read_be16(s, at + 2);
    assert(s@.subrange(at as int, at + 4).subrange(0, 2) =~= s@.subrange(at as int, at + 2));
    assert(s@.subrange(at as int, at + 4).subrange(2, 4) =~= s@.subrange(at + 2, at + 4));
    ((hi as u32) << 16u32) | (lo as u32)
}

pub fn read_be64(s: &[u8], at: usize) -> (r: u64)
    requires
        at + 8 <= s@.len(),
    ensures
        r == from_be64(s@.subrange(at as int, at + 8)),
{
    let _n = s.len();
    let hi = read_be32(s, at);
    let lo = read_be32(s, at + 4);
    assert(s@.subrange(at as int, at + 8).subrange(0, 4) =~= s@.subrange(at as int, at + 4));
    assert(s@.subrange(at as int, at + 8).subrange(4, 8) =~= s@.subrange(at + 4, at + 8));
    ((hi as u64) << 32u64) | (lo as u64)
}

pub fn read_be128(s: &[u8], at: usize) -> (r: u128)
    requires
        at + 16 <= s@.len(),
    ensures
        r == from_be128(s@.subrange(at as int, at + 16)),
{
    let _n = s.len();
    let hi = read_be64(s, at);
    let lo = read_be64(s, at + 8);
    assert(s@.subrange(at as int, at + 16).subrange(0, 8) =~= s@.subrange(at as int, at + 8));
    assert(s@.subrange(at as int, at + 16).subrange(8, 16) =~= s@.subrange(at + 8, at + 16));
    ((hi as u128) << 64u128) | (lo as u128)
}

/// Whether two byte strings are equal.
pub fn bytes_eq(a: &[u8], b: &[u8]) -> (r: bool)
    ensures
        r == (a@ == b@),
{
    if a.len() != b.len() {
        return false;
    }
    let mut i: usize = 0;
    while i < a.len()
        invariant
            a@.len() == b@.len(),
            i <= a@.len(),
            forall|j: int| 0 <= j < i ==> a@[j] == b@[j],
        decreases a@.len() - i,
    {
        if a[i] != b[i] {
            return false;
        }
        i = i + 1;
    }
    assert(a@ =~= b@);
    true
}

} // verus!
