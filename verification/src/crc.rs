//! CRC32C (Castagnoli), the checksum on every v5 metadata structure.

use vstd::prelude::*;

use crate::bytes::{le32, le32_at, le32_bytes, lemma_le32_round_trip, overwritten, zero_bytes};

verus! {

/// The register after one bit has left it.
pub open spec fn bit_out(c: u32) -> u32 {
    if c & 1 != 0 {
        0x82f6_3b78 ^ (c >> 1)
    } else {
        c >> 1
    }
}

/// The register after a whole byte has left it.
pub open spec fn byte_out(c: u32) -> u32 {
    bit_out(bit_out(bit_out(bit_out(bit_out(bit_out(bit_out(bit_out(c))))))))
}

/// The register after the byte `b` has gone through it.
pub open spec fn fed(c: u32, b: u8) -> u32 {
    byte_out(c ^ b as u32)
}

/// The register after the bytes of `data` have gone through it.
pub open spec fn fed_all(c: u32, data: Seq<u8>) -> u32
    decreases data.len(),
{
    if data.len() == 0 {
        c
    } else {
        fed(fed_all(c, data.drop_last()), data.last())
    }
}

/// The CRC32C of `data`.
pub open spec fn checksum(data: Seq<u8>) -> u32 {
    !fed_all(!0u32, data)
}

/// `buf` with the checksum field at `off` zeroed.
pub open spec fn blanked(buf: Seq<u8>, off: int) -> Seq<u8> {
    overwritten(buf, off, zero_bytes(4))
}

/// Whether `buf` holds, at `off`, the checksum of the rest of it.
pub open spec fn is_sealed(buf: Seq<u8>, off: int) -> bool {
    off + 4 <= buf.len() && le32_at(buf, off) == checksum(blanked(buf, off))
}

proof fn lemma_table_step(c: u32, b: u8, t: u32)
    requires
        t == byte_out((c ^ b as u32) & 0xff),
    ensures
        fed(c, b) == t ^ (c >> 8),
{
    assert(byte_out(c ^ b as u32) == byte_out((c ^ b as u32) & 0xff) ^ (c >> 8)) by (bit_vector);
}

fn table() -> (t: Vec<u32>)
    ensures
        t@.len() == 256,
        forall|i: int| 0 <= i < 256 ==> #[trigger] t@[i] == byte_out(i as u32),
{
    let mut t: Vec<u32> = Vec::new();
    let mut i: u32 = 0;
    while i < 256
        invariant
            i <= 256,
            t@.len() == i,
            forall|j: int| 0 <= j < i ==> #[trigger] t@[j] == byte_out(j as u32),
        decreases 256 - i,
    {
        let mut c: u32 = i;
        let mut k: u32 = 0;
        while k < 8
            invariant
                k <= 8,
                byte_out(i) == match k {
                    0u32 => byte_out(c),
                    1u32 => bit_out(bit_out(bit_out(bit_out(bit_out(bit_out(bit_out(c))))))),
                    2u32 => bit_out(bit_out(bit_out(bit_out(bit_out(bit_out(c)))))),
                    3u32 => bit_out(bit_out(bit_out(bit_out(bit_out(c))))),
                    4u32 => bit_out(bit_out(bit_out(bit_out(c)))),
                    5u32 => bit_out(bit_out(bit_out(c))),
                    6u32 => bit_out(bit_out(c)),
                    7u32 => bit_out(c),
                    _ => c,
                },
            decreases 8 - k,
        {
            c = if c & 1 != 0 {
                0x82f6_3b78 ^ (c >> 1)
            } else {
                c >> 1
            };
            k += 1;
        }
        t.push(c);
        i += 1;
    }
    t
}

fn feed(t: &Vec<u32>, c: u32, b: u8) -> (r: u32)
    requires
        t@.len() == 256,
        forall|i: int| 0 <= i < 256 ==> #[trigger] t@[i] == byte_out(i as u32),
    ensures
        r == fed(c, b),
{
    let x: u32 = (c ^ b as u32) & 0xff;
    assert((c ^ b as u32) & 0xff < 256) by (bit_vector);
    let e: u32 = t[x as usize];
    proof {
        lemma_table_step(c, b, e);
    }
    e ^ (c >> 8)
}

/// CRC32C of `data`, as XFS computes it.
pub fn crc32c(data: &[u8]) -> (r: u32)
    ensures
        r == checksum(data@),
{
    let t = table();
    let mut c: u32 = !0u32;
    let mut i: usize = 0;
    assert(data@.subrange(0, 0) =~= Seq::<u8>::empty());
    while i < data.len()
        invariant
            i <= data@.len(),
            t@.len() == 256,
            forall|j: int| 0 <= j < 256 ==> #[trigger] t@[j] == byte_out(j as u32),
            c == fed_all(!0u32, data@.subrange(0, i as int)),
        decreases data@.len() - i,
    {
        c = feed(&t, c, data[i]);
        assert(data@.subrange(0, i + 1).drop_last() =~= data@.subrange(0, i as int));
        i += 1;
    }
    assert(data@.subrange(0, i as int) =~= data@);
    !c
}

/// Whether the little-endian checksum stored at `off` in `buf` matches the
/// rest of it: XFS checksums a structure with its own checksum field zeroed.
pub fn verify(buf: &[u8], off: usize) -> (r: bool)
    requires
        off + 4 <= usize::MAX,
    ensures
        r == is_sealed(buf@, off as int),
{
    if buf.len() < off + 4 {
        return false;
    }
    let stored: u32 = le32(buf, off);
    let t = table();
    let mut c: u32 = !0u32;
    let mut i: usize = 0;
    let ghost rest = blanked(buf@, off as int);
    assert(rest.subrange(0, 0) =~= Seq::<u8>::empty());
    while i < buf.len()
        invariant
            i <= buf@.len(),
            off + 4 <= buf.len(),
            rest == blanked(buf@, off as int),
            t@.len() == 256,
            forall|j: int| 0 <= j < 256 ==> #[trigger] t@[j] == byte_out(j as u32),
            c == fed_all(!0u32, rest.subrange(0, i as int)),
        decreases buf@.len() - i,
    {
        let b: u8 = if off <= i && i < off + 4 {
            0
        } else {
            buf[i]
        };
        c = feed(&t, c, b);
        assert(rest.subrange(0, i + 1).drop_last() =~= rest.subrange(0, i as int));
        i += 1;
    }
    assert(rest.subrange(0, i as int) =~= rest);
    !c == stored
}

proof fn lemma_bit_out_is_injective(c: u32, d: u32)
    ensures
        bit_out(c) == bit_out(d) ==> c == d,
{
    assert(bit_out(c) == bit_out(d) ==> c == d) by (bit_vector);
}

proof fn lemma_byte_out_is_injective(c: u32, d: u32)
    ensures
        byte_out(c) == byte_out(d) ==> c == d,
{
    let c1 = bit_out(c);
    let c2 = bit_out(c1);
    let c3 = bit_out(c2);
    let c4 = bit_out(c3);
    let c5 = bit_out(c4);
    let c6 = bit_out(c5);
    let c7 = bit_out(c6);
    let d1 = bit_out(d);
    let d2 = bit_out(d1);
    let d3 = bit_out(d2);
    let d4 = bit_out(d3);
    let d5 = bit_out(d4);
    let d6 = bit_out(d5);
    let d7 = bit_out(d6);
    lemma_bit_out_is_injective(c, d);
    lemma_bit_out_is_injective(c1, d1);
    lemma_bit_out_is_injective(c2, d2);
    lemma_bit_out_is_injective(c3, d3);
    lemma_bit_out_is_injective(c4, d4);
    lemma_bit_out_is_injective(c5, d5);
    lemma_bit_out_is_injective(c6, d6);
    lemma_bit_out_is_injective(c7, d7);
}

proof fn lemma_fed_is_injective(c: u32, d: u32, a: u8, b: u8)
    ensures
        fed(c, a) == fed(d, a) ==> c == d,
        fed(c, a) == fed(c, b) ==> a == b,
{
    lemma_byte_out_is_injective(c ^ a as u32, d ^ a as u32);
    lemma_byte_out_is_injective(c ^ a as u32, c ^ b as u32);
    assert(c ^ a as u32 == d ^ a as u32 ==> c == d) by (bit_vector);
    assert(c ^ a as u32 == c ^ b as u32 ==> a == b) by (bit_vector);
}

proof fn lemma_fed_all_tells_apart(c: u32, a: Seq<u8>, b: Seq<u8>, k: int)
    requires
        a.len() == b.len(),
        0 <= k < a.len(),
        a[k] != b[k],
        forall|i: int| 0 <= i < a.len() && i != k ==> a[i] == b[i],
    ensures
        fed_all(c, a) != fed_all(c, b),
    decreases a.len(),
{
    let x = fed_all(c, a.drop_last());
    let y = fed_all(c, b.drop_last());
    if k == a.len() - 1 {
        assert(a.drop_last() =~= b.drop_last());
        lemma_fed_is_injective(x, x, a.last(), b.last());
    } else {
        lemma_fed_all_tells_apart(c, a.drop_last(), b.drop_last(), k);
        lemma_fed_is_injective(x, y, a.last(), b.last());
    }
}

/// Byte strings of one length that differ in a single byte have different
/// checksums.
pub proof fn lemma_checksum_tells_apart(a: Seq<u8>, b: Seq<u8>, k: int)
    requires
        a.len() == b.len(),
        0 <= k < a.len(),
        a[k] != b[k],
        forall|i: int| 0 <= i < a.len() && i != k ==> a[i] == b[i],
    ensures
        checksum(a) != checksum(b),
{
    lemma_fed_all_tells_apart(!0u32, a, b, k);
    let x = fed_all(!0u32, a);
    let y = fed_all(!0u32, b);
    assert(!x == !y ==> x == y) by (bit_vector);
}

/// Damage to any one byte of a checksummed structure, its checksum field
/// included, is noticed.
pub proof fn lemma_damage_is_noticed(a: Seq<u8>, b: Seq<u8>, off: int, k: int)
    requires
        0 <= off,
        is_sealed(a, off),
        a.len() == b.len(),
        0 <= k < a.len(),
        a[k] != b[k],
        forall|i: int| 0 <= i < a.len() && i != k ==> a[i] == b[i],
    ensures
        !is_sealed(b, off),
{
    if off <= k < off + 4 {
        assert(blanked(a, off) =~= blanked(b, off));
    } else {
        lemma_checksum_tells_apart(blanked(a, off), blanked(b, off), k);
    }
}

/// A structure with the checksum of its blanked self written in is sealed.
pub proof fn lemma_sealing(buf: Seq<u8>, off: int)
    requires
        0 <= off,
        off + 4 <= buf.len(),
    ensures
        is_sealed(overwritten(buf, off, le32_bytes(checksum(blanked(buf, off)))), off),
{
    let c = checksum(blanked(buf, off));
    let done = overwritten(buf, off, le32_bytes(c));
    lemma_le32_round_trip(c);
    assert(blanked(done, off) =~= blanked(buf, off));
}

} // verus!
