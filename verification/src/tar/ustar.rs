//! The ustar header block.

use vstd::prelude::*;
use vstd::string::*;

use crate::bytes::{cut, overwrite, overwritten, zero_bytes, zeroes};
use crate::tar::pax::push_ascii;
use crate::tar::{EntryKind, Header, HeaderView};
use crate::text::{
    ascii, digit_count, lemma_numeral_is_ascii, lemma_numeral_len, lemma_numeral_reads_back, number_in, numeral,
    padded, push_padded,
};

verus! {

/// The size of a tar block.
pub const BLOCK: usize = 512;

/// The longest path a block has room for.
pub const NAME: usize = 100;

/// The first `n` bytes of `b`, or all of them.
pub open spec fn at_most(b: Seq<u8>, n: int) -> Seq<u8> {
    if b.len() <= n {
        b
    } else {
        b.subrange(0, n)
    }
}

/// Whether `v` can be written with `digits` octal digits.
pub open spec fn octal_fits(v: nat, digits: nat) -> bool {
    numeral(v, 8).len() <= digits
}

/// A field of `digits` octal digits, ended by a zero byte.
pub open spec fn octal_field(v: nat, digits: nat) -> Seq<u8> {
    ascii(padded(v, 8, digits)).push(0)
}

/// `b` with the octal field of `v` written at `at`, if it fits.
pub open spec fn with_octal(b: Seq<u8>, at: int, digits: nat, v: nat) -> Seq<u8> {
    if octal_fits(v, digits) {
        overwritten(b, at, octal_field(v, digits))
    } else {
        b
    }
}

/// The sum of the bytes of `b`.
pub open spec fn byte_sum(b: Seq<u8>) -> nat
    decreases b.len(),
{
    if b.len() == 0 {
        0
    } else {
        byte_sum(b.drop_last()) + b.last() as nat
    }
}

/// Whether a header is that of a device, whose number its block records.
pub open spec fn is_device(kind: EntryKind) -> bool {
    kind == EntryKind::CharDevice || kind == EntryKind::BlockDevice
}

/// `b` with name, mode, owner, size and time written in.
pub open spec fn with_attributes(b: Seq<u8>, path: Seq<u8>, h: HeaderView, size: u64) -> Seq<u8> {
    let b = overwritten(b, 0, at_most(path, NAME as int));
    let b = with_octal(b, 100, 7, (h.mode % 0o10000) as nat);
    let b = with_octal(b, 108, 7, h.uid as nat);
    let b = with_octal(b, 116, 7, h.gid as nat);
    let b = with_octal(b, 124, 11, size as nat);
    if h.mtime.secs >= 0 {
        with_octal(b, 136, 11, h.mtime.secs as nat)
    } else {
        b
    }
}

/// `b` with kind, link target, magic and device number written in.
pub open spec fn with_kind(b: Seq<u8>, kind: u8, h: HeaderView) -> Seq<u8> {
    let b = overwritten(b, 156, seq![kind]);
    let b = overwritten(b, 157, at_most(h.link, NAME as int));
    // "ustar", ended by a zero byte, and version "00".
    let b = overwritten(b, 257, seq![117u8, 115u8, 116u8, 97u8, 114u8, 0u8, 48u8, 48u8]);
    if is_device(h.kind) {
        with_octal(with_octal(b, 329, 7, h.major as nat), 337, 7, h.minor as nat)
    } else {
        b
    }
}

/// The place of the checksum, filled with spaces.
pub open spec fn spaces() -> Seq<u8> {
    Seq::new(8, |i: int| 32u8)
}

/// A header block but for its checksum, in whose place there are spaces.
pub open spec fn unsummed(path: Seq<u8>, kind: u8, h: HeaderView, size: u64) -> Seq<u8> {
    overwritten(with_kind(with_attributes(zero_bytes(BLOCK as nat), path, h, size), kind, h), 148, spaces())
}

/// A header block. Its checksum is the sum of its bytes, counted with spaces
/// in the checksum's place: six octal digits, a zero byte and a space.
#[verifier::opaque]
pub open spec fn block_bytes(path: Seq<u8>, kind: u8, h: HeaderView, size: u64) -> Seq<u8> {
    let b = unsummed(path, kind, h, size);
    overwritten(b, 148, octal_field(byte_sum(b), 6))
}

/// Whether everything a header says fits in its block.
pub open spec fn block_fits(path: Seq<u8>, h: HeaderView, size: u64) -> bool {
    &&& path.len() <= NAME
    &&& h.link.len() <= NAME
    &&& octal_fits(h.uid as nat, 7)
    &&& octal_fits(h.gid as nat, 7)
    &&& octal_fits(size as nat, 11)
    &&& h.mtime.secs >= 0
    &&& octal_fits(h.mtime.secs as nat, 11)
    &&& is_device(h.kind) ==> octal_fits(h.major as nat, 7) && octal_fits(h.minor as nat, 7)
}

/// A number takes no more than `digits` octal digits just when it is below
/// the power of eight with that exponent.
pub proof fn lemma_octal_fits(v: nat, digits: nat)
    requires
        1 <= digits,
    ensures
        octal_fits(v, digits) <==> v < vstd::arithmetic::power::pow(8, digits),
{
    lemma_numeral_len(v, 8, digits);
}

/// A field that fits is as long as it should be and reads back.
pub proof fn lemma_octal_field(v: nat, digits: nat)
    requires
        octal_fits(v, digits),
    ensures
        octal_field(v, digits).len() == digits + 1,
        number_in(octal_field(v, digits).subrange(0, digits as int), 8) == v,
{
    lemma_numeral_reads_back(v, 8, digits);
    assert(octal_field(v, digits).subrange(0, digits as int) =~= ascii(padded(v, 8, digits)));
}

/// Permission bits always fit their field.
proof fn lemma_mode_fits(mode: u32)
    ensures
        octal_fits((mode % 0o10000) as nat, 7),
{
    reveal_with_fuel(vstd::arithmetic::power::pow, 8);
    lemma_numeral_len((mode % 0o10000) as nat, 8, 7);
}

proof fn lemma_sum_bound(b: Seq<u8>)
    ensures
        byte_sum(b) <= 255 * b.len(),
    decreases b.len(),
{
    if b.len() > 0 {
        lemma_sum_bound(b.drop_last());
    }
}

/// Write the octal field of `v` at `at`, if it fits; whether it does.
fn octal(b: &mut Vec<u8>, at: usize, digits: usize, v: u64) -> (r: bool)
    requires
        1 <= digits <= 21,
        at + digits + 1 <= old(b)@.len(),
    ensures
        final(b)@ == with_octal(old(b)@, at as int, digits as nat, v as nat),
        r == octal_fits(v as nat, digits as nat),
{
    if digit_count(v as u128, 8) > digits {
        return false;
    }
    let field = octal_bytes(v, digits);
    proof {
        lemma_octal_field(v as nat, digits as nat);
    }
    overwrite(b, at, field.as_slice());
    true
}

/// A field of `digits` octal digits, ended by a zero byte.
fn octal_bytes(v: u64, digits: usize) -> (r: Vec<u8>)
    ensures
        r@ == octal_field(v as nat, digits as nat),
{
    proof {
        reveal_strlit("");
        lemma_numeral_is_ascii(v as nat, 8);
    }
    let mut text = String::from_str("");
    push_padded(&mut text, v as u128, 8, digits);
    assert(text@ =~= padded(v as nat, 8, digits as nat));
    let mut r: Vec<u8> = Vec::new();
    push_ascii(&mut r, text.as_str());
    r.push(0);
    assert(r@ =~= octal_field(v as nat, digits as nat));
    r
}

/// The first 100 bytes of `b`, or all of them.
fn name_part(b: &Vec<u8>) -> (r: Vec<u8>)
    ensures
        r@ == at_most(b@, NAME as int),
        r@.len() <= NAME,
{
    let n: usize = if b.len() < NAME {
        b.len()
    } else {
        NAME
    };
    let r = cut(b.as_slice(), 0, n);
    assert(b@.len() <= NAME ==> b@.subrange(0, n as int) =~= b@);
    r
}

/// The sum of the bytes of `b`.
fn sum_bytes(b: &Vec<u8>) -> (r: u64)
    requires
        b@.len() == BLOCK,
    ensures
        r == byte_sum(b@),
{
    let mut sum: u64 = 0;
    let mut i: usize = 0;
    assert(b@.subrange(0, 0) =~= Seq::<u8>::empty());
    while i < b.len()
        invariant
            i <= b@.len(),
            b@.len() == BLOCK,
            sum == byte_sum(b@.subrange(0, i as int)),
            sum <= 255 * i,
        decreases b@.len() - i,
    {
        assert(b@.subrange(0, i + 1).drop_last() =~= b@.subrange(0, i as int));
        sum += b[i] as u64;
        i += 1;
    }
    assert(b@.subrange(0, i as int) =~= b@);
    sum
}

/// Write name, mode, owner, size and time into a block; whether all fit.
fn put_attributes(b: &mut Vec<u8>, path: &Vec<u8>, h: &Header, size: u64) -> (fits: bool)
    requires
        old(b)@.len() == BLOCK,
    ensures
        final(b)@ == with_attributes(old(b)@, path@, h@, size),
        final(b)@.len() == BLOCK,
        fits == (path@.len() <= NAME && octal_fits(h@.uid as nat, 7) && octal_fits(h@.gid as nat, 7) && octal_fits(
            size as nat,
            11,
        ) && h@.mtime.secs >= 0 && octal_fits(h@.mtime.secs as nat, 11)),
{
    let name = name_part(path);
    overwrite(b, 0, name.as_slice());
    proof {
        lemma_mode_fits(h.mode);
    }
    octal(b, 100, 7, (h.mode % 0o10000) as u64);
    let uid: bool = octal(b, 108, 7, h.uid as u64);
    let gid: bool = octal(b, 116, 7, h.gid as u64);
    let len: bool = octal(b, 124, 11, size);
    let time: bool = if h.mtime.secs >= 0 {
        octal(b, 136, 11, h.mtime.secs as u64)
    } else {
        false
    };
    path.len() <= NAME && uid && gid && len && time
}

/// Write kind, link target, magic and device number into a block; whether all
/// fit.
fn put_kind(b: &mut Vec<u8>, kind: u8, h: &Header) -> (fits: bool)
    requires
        old(b)@.len() == BLOCK,
    ensures
        final(b)@ == with_kind(old(b)@, kind, h@),
        final(b)@.len() == BLOCK,
        fits == (h@.link.len() <= NAME && (is_device(h@.kind) ==> octal_fits(h@.major as nat, 7) && octal_fits(
            h@.minor as nat,
            7,
        ))),
{
    let flag: Vec<u8> = vec![kind];
    assert(flag@ =~= seq![kind]);
    overwrite(b, 156, flag.as_slice());
    let link = name_part(&h.link);
    overwrite(b, 157, link.as_slice());
    let magic: Vec<u8> = vec![117u8, 115u8, 116u8, 97u8, 114u8, 0u8, 48u8, 48u8];
    assert(magic@ =~= seq![117u8, 115u8, 116u8, 97u8, 114u8, 0u8, 48u8, 48u8]);
    overwrite(b, 257, magic.as_slice());
    let mut fits: bool = h.link.len() <= NAME;
    if h.kind == EntryKind::CharDevice || h.kind == EntryKind::BlockDevice {
        let major: bool = octal(b, 329, 7, h.major as u64);
        let minor: bool = octal(b, 337, 7, h.minor as u64);
        fits = fits && major && minor;
    }
    fits
}

/// The header block of an entry, and whether everything fits in it.
pub fn ustar(path: &Vec<u8>, kind: u8, h: &Header, size: u64) -> (r: (Vec<u8>, bool))
    ensures
        r.0@ == block_bytes(path@, kind, h@, size),
        r.0@.len() == BLOCK,
        r.1 == block_fits(path@, h@, size),
{
    reveal(block_bytes);
    let mut b = zeroes(BLOCK);
    let attributes: bool = put_attributes(&mut b, path, h, size);
    let rest: bool = put_kind(&mut b, kind, h);
    let blank: Vec<u8> = vec![32u8; 8];
    assert(blank@ =~= spaces());
    overwrite(&mut b, 148, blank.as_slice());
    let sum: u64 = sum_bytes(&b);
    let field = octal_bytes(sum, 6);
    proof {
        lemma_sum_field(b@);
    }
    overwrite(&mut b, 148, field.as_slice());
    (b, attributes && rest)
}

/// The sum of a block's bytes takes six octal digits.
proof fn lemma_sum_field(b: Seq<u8>)
    requires
        b.len() == BLOCK,
    ensures
        octal_fits(byte_sum(b), 6),
        octal_field(byte_sum(b), 6).len() == 7,
        number_in(octal_field(byte_sum(b), 6).subrange(0, 6), 8) == byte_sum(b),
{
    lemma_sum_bound(b);
    reveal_with_fuel(vstd::arithmetic::power::pow, 7);
    lemma_numeral_len(byte_sum(b), 8, 6);
    lemma_octal_field(byte_sum(b), 6);
}

/// The checksum a block holds is the sum of its bytes, counted with spaces in
/// the checksum's place.
pub proof fn lemma_checksum(path: Seq<u8>, kind: u8, h: HeaderView, size: u64)
    ensures
        ({
            let b = block_bytes(path, kind, h, size);
            &&& b.len() == BLOCK
            &&& number_in(b.subrange(148, 154), 8) == byte_sum(overwritten(b, 148, spaces()))
            &&& b[154] == 0
            &&& b[155] == 32
        }),
{
    reveal(block_bytes);
    let before = unsummed(path, kind, h, size);
    let b = block_bytes(path, kind, h, size);
    let field = octal_field(byte_sum(before), 6);
    lemma_sum_field(before);
    assert(overwritten(b, 148, spaces()) =~= before);
    assert(b.subrange(148, 154) =~= field.subrange(0, 6));
}

/// What fits in a block can be read back from it.
pub proof fn lemma_block_reads_back(path: Seq<u8>, kind: u8, h: HeaderView, size: u64)
    requires
        block_fits(path, h, size),
    ensures
        ({
            let b = block_bytes(path, kind, h, size);
            &&& b.subrange(0, path.len() as int) == path
            &&& path.len() < NAME ==> b[path.len() as int] == 0
            &&& number_in(b.subrange(100, 107), 8) == h.mode % 0o10000
            &&& number_in(b.subrange(108, 115), 8) == h.uid
            &&& number_in(b.subrange(116, 123), 8) == h.gid
            &&& number_in(b.subrange(124, 135), 8) == size
            &&& number_in(b.subrange(136, 147), 8) == h.mtime.secs
            &&& b[156] == kind
            &&& b.subrange(157, (157 + h.link.len() as int) as int) == h.link
            &&& is_device(h.kind) ==> number_in(b.subrange(329, 336), 8) == h.major && number_in(
                b.subrange(337, 344),
                8,
            ) == h.minor
        }),
{
    reveal(block_bytes);
    let b = block_bytes(path, kind, h, size);
    let sum = unsummed(path, kind, h, size);
    lemma_sum_field(sum);
    lemma_mode_fits(h.mode);
    let m = (h.mode % 0o10000) as nat;
    lemma_octal_field(m, 7);
    lemma_octal_field(h.uid as nat, 7);
    lemma_octal_field(h.gid as nat, 7);
    lemma_octal_field(size as nat, 11);
    lemma_octal_field(h.mtime.secs as nat, 11);
    let filled = with_attributes(zero_bytes(BLOCK as nat), path, h, size);
    assert(forall|i: int| 0 <= i < 148 ==> b[i] == #[trigger] filled[i]);
    assert(filled.subrange(100, 107) =~= octal_field(m, 7).subrange(0, 7));
    assert(filled.subrange(108, 115) =~= octal_field(h.uid as nat, 7).subrange(0, 7));
    assert(filled.subrange(116, 123) =~= octal_field(h.gid as nat, 7).subrange(0, 7));
    assert(filled.subrange(124, 135) =~= octal_field(size as nat, 11).subrange(0, 11));
    assert(filled.subrange(136, 147) =~= octal_field(h.mtime.secs as nat, 11).subrange(0, 11));
    assert(filled.subrange(0, path.len() as int) =~= path);
    assert(b.subrange(0, path.len() as int) =~= filled.subrange(0, path.len() as int));
    assert(b.subrange(100, 107) =~= filled.subrange(100, 107));
    assert(b.subrange(108, 115) =~= filled.subrange(108, 115));
    assert(b.subrange(116, 123) =~= filled.subrange(116, 123));
    assert(b.subrange(124, 135) =~= filled.subrange(124, 135));
    assert(b.subrange(136, 147) =~= filled.subrange(136, 147));
    let kinds = with_kind(filled, kind, h);
    assert(forall|i: int| 156 <= i < 512 ==> b[i] == #[trigger] kinds[i]);
    assert(b.subrange(157, (157 + h.link.len() as int) as int) =~= h.link);
    if is_device(h.kind) {
        lemma_octal_field(h.major as nat, 7);
        lemma_octal_field(h.minor as nat, 7);
        assert(b.subrange(329, 336) =~= octal_field(h.major as nat, 7).subrange(0, 7));
        assert(b.subrange(337, 344) =~= octal_field(h.minor as nat, 7).subrange(0, 7));
    }
}

proof fn lemma_pieces(path: Seq<u8>, kind: u8, h: HeaderView, size: u64)
    ensures
        ({
            let b = block_bytes(path, kind, h, size);
            let filled = with_attributes(zero_bytes(BLOCK as nat), path, h, size);
            let kinds = with_kind(filled, kind, h);
            &&& b.len() == BLOCK
            &&& filled.len() == BLOCK
            &&& kinds.len() == BLOCK
            &&& forall|i: int|
                #![trigger b[i]]
                #![trigger filled[i]]
                0 <= i < 148 ==> b[i] == filled[i]
            &&& forall|i: int|
                #![trigger b[i]]
                #![trigger kinds[i]]
                156 <= i < 512 ==> b[i] == kinds[i]
            &&& forall|i: int| 156 <= i < 512 ==> #[trigger] filled[i] == 0
        }),
        forall|v: nat| octal_fits(v, 7) ==> (#[trigger] octal_field(v, 7)).len() == 8,
        forall|v: nat| octal_fits(v, 11) ==> (#[trigger] octal_field(v, 11)).len() == 12,
{
    reveal(block_bytes);
    assert forall|v: nat| octal_fits(v, 7) implies (#[trigger] octal_field(v, 7)).len() == 8 by {
        lemma_octal_field(v, 7);
    }
    assert forall|v: nat| octal_fits(v, 11) implies (#[trigger] octal_field(v, 11)).len() == 12 by {
        lemma_octal_field(v, 11);
    }
    lemma_sum_field(unsummed(path, kind, h, size));
    lemma_mode_fits(h.mode);
}

/// Each number that fits its field can be read back from a block, whatever
/// else fits.
pub proof fn lemma_numbers_read_back(path: Seq<u8>, kind: u8, h: HeaderView, size: u64)
    ensures
        ({
            let b = block_bytes(path, kind, h, size);
            &&& number_in(b.subrange(100, 107), 8) == h.mode % 0o10000
            &&& h.uid < 0o1000_0000 ==> number_in(b.subrange(108, 115), 8) == h.uid
            &&& h.gid < 0o1000_0000 ==> number_in(b.subrange(116, 123), 8) == h.gid
            &&& size < 0o1000_0000_0000 ==> number_in(b.subrange(124, 135), 8) == size
            &&& 0 <= h.mtime.secs < 0o1000_0000_0000 ==> number_in(b.subrange(136, 147), 8) == h.mtime.secs
        }),
{
    lemma_pieces(path, kind, h, size);
    reveal_with_fuel(vstd::arithmetic::power::pow, 12);
    lemma_octal_fits(h.uid as nat, 7);
    lemma_octal_fits(h.gid as nat, 7);
    lemma_octal_fits(size as nat, 11);
    if h.mtime.secs >= 0 {
        lemma_octal_fits(h.mtime.secs as nat, 11);
    }
    lemma_mode_fits(h.mode);
    let b = block_bytes(path, kind, h, size);
    let filled = with_attributes(zero_bytes(BLOCK as nat), path, h, size);
    let m = (h.mode % 0o10000) as nat;
    lemma_octal_field(m, 7);
    if h.uid < 0o1000_0000 {
        lemma_octal_field(h.uid as nat, 7);
    }
    if h.gid < 0o1000_0000 {
        lemma_octal_field(h.gid as nat, 7);
    }
    if size < 0o1000_0000_0000 {
        lemma_octal_field(size as nat, 11);
    }
    if 0 <= h.mtime.secs < 0o1000_0000_0000 {
        lemma_octal_field(h.mtime.secs as nat, 11);
        assert(b.subrange(136, 147) =~= octal_field(h.mtime.secs as nat, 11).subrange(0, 11));
    }
    assert(b.subrange(100, 107) =~= octal_field(m, 7).subrange(0, 7));
    if h.uid < 0o1000_0000 {
        assert(b.subrange(108, 115) =~= octal_field(h.uid as nat, 7).subrange(0, 7));
    }
    if h.gid < 0o1000_0000 {
        assert(b.subrange(116, 123) =~= octal_field(h.gid as nat, 7).subrange(0, 7));
    }
    if size < 0o1000_0000_0000 {
        assert(b.subrange(124, 135) =~= octal_field(size as nat, 11).subrange(0, 11));
    }
}

/// The path and the link target, as far as there is room for them, the kind
/// and the numbers of a device can be read back from a block.
pub proof fn lemma_names_read_back(path: Seq<u8>, kind: u8, h: HeaderView, size: u64)
    ensures
        ({
            let b = block_bytes(path, kind, h, size);
            &&& path.len() <= 100 ==> b.subrange(0, path.len() as int) == path
            &&& path.len() < 100 ==> b[path.len() as int] == 0
            &&& b[156] == kind
            &&& h.link.len() <= 100 ==> b.subrange(157, 157 + h.link.len() as int) == h.link
            &&& h.link.len() < 100 ==> b[157 + h.link.len() as int] == 0
            &&& b.subrange(257, 265) == seq![0x75u8, 0x73u8, 0x74u8, 0x61u8, 0x72u8, 0u8, 0x30u8, 0x30u8]
            &&& is_device(h.kind) && h.major < 0o1000_0000 ==> number_in(b.subrange(329, 336), 8) == h.major
            &&& is_device(h.kind) && h.minor < 0o1000_0000 ==> number_in(b.subrange(337, 344), 8) == h.minor
        }),
{
    lemma_pieces(path, kind, h, size);
    reveal_with_fuel(vstd::arithmetic::power::pow, 8);
    lemma_octal_fits(h.major as nat, 7);
    lemma_octal_fits(h.minor as nat, 7);
    let b = block_bytes(path, kind, h, size);
    lemma_path_reads_back(path, kind, h, size);
    if h.link.len() <= 100 {
        assert(b.subrange(157, 157 + h.link.len() as int) =~= h.link);
    }
    assert(b.subrange(257, 265) =~= seq![0x75u8, 0x73u8, 0x74u8, 0x61u8, 0x72u8, 0u8, 0x30u8, 0x30u8]);
    if is_device(h.kind) {
        if h.major < 0o1000_0000 {
            lemma_octal_field(h.major as nat, 7);
        }
        if h.minor < 0o1000_0000 {
            lemma_octal_field(h.minor as nat, 7);
            assert(b.subrange(337, 344) =~= octal_field(h.minor as nat, 7).subrange(0, 7));
        }
        if h.major < 0o1000_0000 {
            assert(b.subrange(329, 336) =~= octal_field(h.major as nat, 7).subrange(0, 7));
        }
    }
}

proof fn lemma_path_reads_back(path: Seq<u8>, kind: u8, h: HeaderView, size: u64)
    ensures
        path.len() <= 100 ==> block_bytes(path, kind, h, size).subrange(0, path.len() as int) == path,
        path.len() < 100 ==> block_bytes(path, kind, h, size)[path.len() as int] == 0,
{
    lemma_pieces(path, kind, h, size);
    lemma_mode_fits(h.mode);
    lemma_octal_field((h.mode % 0o10000) as nat, 7);
    let b = block_bytes(path, kind, h, size);
    if path.len() <= 100 {
        assert(b.subrange(0, path.len() as int) =~= path);
    }
}

} // verus!
