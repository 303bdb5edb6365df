//! Big-endian field access. XFS is big-endian on disk, except checksums.

use vstd::prelude::*;
use vstd::slice::{slice_subrange, slice_to_vec};

verus! {

/// The 16-bit big-endian field at byte `o` of `b`.
pub open spec fn be16_at(b: Seq<u8>, o: int) -> u16 {
    (b[o] * 0x100 + b[o + 1]) as u16
}

/// The 32-bit big-endian field at byte `o` of `b`.
pub open spec fn be32_at(b: Seq<u8>, o: int) -> u32 {
    (be16_at(b, o) * 0x1_0000 + be16_at(b, o + 2)) as u32
}

/// The 64-bit big-endian field at byte `o` of `b`.
pub open spec fn be64_at(b: Seq<u8>, o: int) -> u64 {
    (be32_at(b, o) * 0x1_0000_0000 + be32_at(b, o + 4)) as u64
}

/// The 32-bit little-endian field at byte `o` of `b`, as checksums are kept.
pub open spec fn le32_at(b: Seq<u8>, o: int) -> u32 {
    (b[o] + b[o + 1] * 0x100 + b[o + 2] * 0x1_0000 + b[o + 3] * 0x100_0000) as u32
}

/// A 16-bit value as little-endian bytes.
pub open spec fn le16_bytes(v: u16) -> Seq<u8> {
    seq![(v % 0x100) as u8, (v / 0x100) as u8]
}

/// A 32-bit value as little-endian bytes.
pub open spec fn le32_bytes(v: u32) -> Seq<u8> {
    le16_bytes((v % 0x1_0000) as u16) + le16_bytes((v / 0x1_0000) as u16)
}

/// `n` zero bytes.
pub open spec fn zero_bytes(n: nat) -> Seq<u8> {
    Seq::new(n, |i: int| 0u8)
}

/// `b` with the bytes of `part` written over it from `at`.
pub open spec fn overwritten(b: Seq<u8>, at: int, part: Seq<u8>) -> Seq<u8> {
    Seq::new(
        b.len(),
        |i: int|
            if at <= i < at + part.len() {
                part[i - at]
            } else {
                b[i]
            },
    )
}

/// The views of a sequence of values.
pub open spec fn views<T: View>(s: Seq<T>) -> Seq<T::V> {
    Seq::new(s.len(), |i: int| s[i]@)
}

/// Appending a value appends its view.
pub proof fn lemma_views_push<T: View>(s: Seq<T>, x: T)
    ensures
        views(s.push(x)) == views(s).push(x@),
{
    assert(views(s.push(x)) =~= views(s).push(x@));
}

/// The views of a concatenation are the concatenated views.
pub proof fn lemma_views_add<T: View>(s: Seq<T>, t: Seq<T>)
    ensures
        views(s + t) == views(s) + views(t),
{
    assert(views(s + t) =~= views(s) + views(t));
}

/// Writing a checksum's bytes and reading the field back gives the checksum.
pub proof fn lemma_le32_round_trip(v: u32)
    ensures
        le32_bytes(v).len() == 4,
        le32_at(le32_bytes(v), 0) == v,
{
}

/// A field that lies inside a cut-out piece reads the same there.
pub proof fn lemma_fields_of_subrange(b: Seq<u8>, from: int, to: int, o: int)
    requires
        0 <= from <= to <= b.len(),
        0 <= o,
    ensures
        from + o + 2 <= to ==> be16_at(b.subrange(from, to), o) == be16_at(b, from + o),
        from + o + 4 <= to ==> be32_at(b.subrange(from, to), o) == be32_at(b, from + o),
        from + o + 8 <= to ==> be64_at(b.subrange(from, to), o) == be64_at(b, from + o),
{
}

/// Read the 16-bit big-endian field at byte `o`.
pub fn be16(b: &[u8], o: usize) -> (r: u16)
    requires
        o + 2 <= b.len(),
    ensures
        r == be16_at(b@, o as int),
{
    b[o] as u16 * 0x100 + b[o + 1] as u16
}

/// Read the 32-bit big-endian field at byte `o`.
pub fn be32(b: &[u8], o: usize) -> (r: u32)
    requires
        o + 4 <= b.len(),
    ensures
        r == be32_at(b@, o as int),
{
    be16(b, o) as u32 * 0x1_0000 + be16(b, o + 2) as u32
}

/// Read the 64-bit big-endian field at byte `o`.
pub fn be64(b: &[u8], o: usize) -> (r: u64)
    requires
        o + 8 <= b.len(),
    ensures
        r == be64_at(b@, o as int),
{
    be32(b, o) as u64 * 0x1_0000_0000 + be32(b, o + 4) as u64
}

/// Read the 32-bit little-endian field at byte `o`.
pub fn le32(b: &[u8], o: usize) -> (r: u32)
    requires
        o + 4 <= b.len(),
    ensures
        r == le32_at(b@, o as int),
{
    b[o] as u32 + b[o + 1] as u32 * 0x100 + b[o + 2] as u32 * 0x1_0000 + b[o + 3] as u32
        * 0x100_0000
}

/// Append `part` to `out`.
pub fn extend(out: &mut Vec<u8>, part: &[u8])
    ensures
        final(out)@ == old(out)@ + part@,
{
    out.extend_from_slice(part);
    assert(out@ =~= old(out)@ + part@);
}

/// Append a 16-bit value to `out`, little-endian.
pub fn push_le16(out: &mut Vec<u8>, v: u16)
    ensures
        final(out)@ == old(out)@ + le16_bytes(v),
{
    out.push((v % 0x100) as u8);
    out.push((v / 0x100) as u8);
    assert(out@ =~= old(out)@ + le16_bytes(v));
}

/// Append a 32-bit value to `out`, little-endian.
pub fn push_le32(out: &mut Vec<u8>, v: u32)
    ensures
        final(out)@ == old(out)@ + le32_bytes(v),
{
    push_le16(out, (v % 0x1_0000) as u16);
    push_le16(out, (v / 0x1_0000) as u16);
    assert(out@ =~= old(out)@ + le32_bytes(v));
}

/// The bytes `from..to` of `b`, copied out.
pub fn cut(b: &[u8], from: usize, to: usize) -> (r: Vec<u8>)
    requires
        from <= to <= b@.len(),
    ensures
        r@ == b@.subrange(from as int, to as int),
{
    slice_to_vec(slice_subrange(b, from, to))
}

/// `n` zero bytes.
pub fn zeroes(n: usize) -> (r: Vec<u8>)
    ensures
        r@ == zero_bytes(n as nat),
{
    let r: Vec<u8> = vec![0u8; n];
    assert(r@ =~= zero_bytes(n as nat));
    r
}

/// Write `part` over the bytes of `b` from `at`.
pub fn overwrite(b: &mut Vec<u8>, at: usize, part: &[u8])
    requires
        at + part@.len() <= old(b)@.len(),
    ensures
        final(b)@ == overwritten(old(b)@, at as int, part@),
{
    let n: usize = part.len();
    let mut i: usize = 0;
    while i < n
        invariant
            i <= n,
            n == part@.len(),
            at + n <= old(b)@.len(),
            b.len() == old(b).len(),
            forall|j: int|
                0 <= j < b@.len() ==> b@[j] == if at <= j < at + i {
                    part@[j - at]
                } else {
                    old(b)@[j]
                },
        decreases n - i,
    {
        b.set(at + i, part[i]);
        i += 1;
    }
    assert(b@ =~= overwritten(old(b)@, at as int, part@));
}

/// Whether two byte strings are the same.
pub fn same_bytes(a: &[u8], b: &[u8]) -> (r: bool)
    ensures
        r == (a@ == b@),
{
    if a.len() != b.len() {
        return false;
    }
    let mut i: usize = 0;
    while i < a.len()
        invariant
            i <= a@.len(),
            a@.len() == b@.len(),
            forall|j: int| 0 <= j < i ==> a@[j] == b@[j],
        decreases a@.len() - i,
    {
        if a[i] != b[i] {
            return false;
        }
        i += 1;
    }
    assert(a@ =~= b@);
    true
}

} // verus!
