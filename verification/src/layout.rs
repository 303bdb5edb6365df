//! What structures look like when written, and that they read back as what
//! was written.

pub mod acl;
pub mod attributes;
pub mod dir;
pub mod inode;
pub mod kinds;
pub mod links;
pub mod superblock;
pub mod tree;

use vstd::prelude::*;

use crate::bytes::{be16_at, be32_at, be64_at};

verus! {

/// A 16-bit value as big-endian bytes.
#[verifier::opaque]
pub open spec fn be16_bytes(v: u16) -> Seq<u8> {
    seq![(v / 0x100) as u8, (v % 0x100) as u8]
}

/// A 32-bit value as big-endian bytes.
#[verifier::opaque]
pub open spec fn be32_bytes(v: u32) -> Seq<u8> {
    be16_bytes((v / 0x1_0000) as u16) + be16_bytes((v % 0x1_0000) as u16)
}

/// A 64-bit value as big-endian bytes.
#[verifier::opaque]
pub open spec fn be64_bytes(v: u64) -> Seq<u8> {
    be32_bytes((v / 0x1_0000_0000) as u32) + be32_bytes((v % 0x1_0000_0000) as u32)
}

/// A field that is read is the bytes it is written as.
pub proof fn lemma_be16(b: Seq<u8>, o: int)
    requires
        0 <= o,
        o + 2 <= b.len(),
    ensures
        be16_bytes(be16_at(b, o)) == b.subrange(o, o + 2),
        forall|v: u16| #[trigger] be16_bytes(v).len() == 2,
        forall|v: u16| b.subrange(o, o + 2) == #[trigger] be16_bytes(v) ==> be16_at(b, o) == v,
{
    reveal(be16_bytes);
    let v = be16_at(b, o);
    assert(v == b[o] * 0x100 + b[o + 1]);
    assert(v / 0x100 == b[o] && v % 0x100 == b[o + 1]);
    assert(be16_bytes(v) =~= b.subrange(o, o + 2));
    assert forall|v: u16| b.subrange(o, o + 2) == #[trigger] be16_bytes(v) implies be16_at(b, o) == v by {
        assert(b.subrange(o, o + 2)[0] == b[o]);
        assert(b.subrange(o, o + 2)[1] == b[o + 1]);
    }
}

/// A field that is read is the bytes it is written as.
pub proof fn lemma_be32(b: Seq<u8>, o: int)
    requires
        0 <= o,
        o + 4 <= b.len(),
    ensures
        be32_bytes(be32_at(b, o)) == b.subrange(o, o + 4),
        forall|v: u32| #[trigger] be32_bytes(v).len() == 4,
        forall|v: u32| b.subrange(o, o + 4) == #[trigger] be32_bytes(v) ==> be32_at(b, o) == v,
{
    reveal(be32_bytes);
    let v = be32_at(b, o);
    let hi = be16_at(b, o);
    let lo = be16_at(b, o + 2);
    lemma_be16(b, o);
    lemma_be16(b, o + 2);
    assert(v == hi * 0x1_0000 + lo);
    assert(v / 0x1_0000 == hi && v % 0x1_0000 == lo);
    assert(b.subrange(o, o + 4) =~= b.subrange(o, o + 2) + b.subrange(o + 2, o + 4));
    assert forall|v: u32| b.subrange(o, o + 4) == #[trigger] be32_bytes(v) implies be32_at(b, o) == v by {
        let s = b.subrange(o, o + 4);
        assert(b.subrange(o, o + 2) =~= s.subrange(0, 2));
        assert(b.subrange(o + 2, o + 4) =~= s.subrange(2, 4));
        assert(s.subrange(0, 2) =~= be16_bytes((v / 0x1_0000) as u16));
        assert(s.subrange(2, 4) =~= be16_bytes((v % 0x1_0000) as u16));
    }
}

/// A field that is read is the bytes it is written as.
pub proof fn lemma_be64(b: Seq<u8>, o: int)
    requires
        0 <= o,
        o + 8 <= b.len(),
    ensures
        be64_bytes(be64_at(b, o)) == b.subrange(o, o + 8),
        forall|v: u64| #[trigger] be64_bytes(v).len() == 8,
        forall|v: u64| b.subrange(o, o + 8) == #[trigger] be64_bytes(v) ==> be64_at(b, o) == v,
{
    reveal(be64_bytes);
    let v = be64_at(b, o);
    let hi = be32_at(b, o);
    let lo = be32_at(b, o + 4);
    lemma_be32(b, o);
    lemma_be32(b, o + 4);
    assert(v / 0x1_0000_0000 == hi && v % 0x1_0000_0000 == lo);
    assert(b.subrange(o, o + 8) =~= b.subrange(o, o + 4) + b.subrange(o + 4, o + 8));
    assert forall|v: u64| b.subrange(o, o + 8) == #[trigger] be64_bytes(v) implies be64_at(b, o) == v by {
        let s = b.subrange(o, o + 8);
        assert(b.subrange(o, o + 4) =~= s.subrange(0, 4));
        assert(b.subrange(o + 4, o + 8) =~= s.subrange(4, 8));
        assert(s.subrange(0, 4) =~= be32_bytes((v / 0x1_0000_0000) as u32));
        assert(s.subrange(4, 8) =~= be32_bytes((v % 0x1_0000_0000) as u32));
    }
}

/// What a field that is read is written as.
pub proof fn lemma_be16_read(b: Seq<u8>, o: int)
    requires
        0 <= o,
        o + 2 <= b.len(),
    ensures
        b.subrange(o, o + 2) == be16_bytes(be16_at(b, o)),
{
    lemma_be16(b, o);
}

/// What a field that is read is written as.
pub proof fn lemma_be32_read(b: Seq<u8>, o: int)
    requires
        0 <= o,
        o + 4 <= b.len(),
    ensures
        b.subrange(o, o + 4) == be32_bytes(be32_at(b, o)),
{
    lemma_be32(b, o);
}

/// What a field that is read is written as.
pub proof fn lemma_be64_read(b: Seq<u8>, o: int)
    requires
        0 <= o,
        o + 8 <= b.len(),
    ensures
        b.subrange(o, o + 8) == be64_bytes(be64_at(b, o)),
{
    lemma_be64(b, o);
}

} // verus!
