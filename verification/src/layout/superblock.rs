//! The superblock as written, which geometries are good, and where blocks and
//! inodes are.

use vstd::arithmetic::div_mod::{lemma_fundamental_div_mod_converse, lemma_small_mod};
use vstd::arithmetic::power2::{lemma2_to64, lemma_pow2_adds, lemma_pow2_strictly_increases, pow2};
use vstd::prelude::*;

use crate::arith::{lemma_power_fits, WRAP};
use crate::bytes::{be16_at, be32_at, be64_at, lemma_fields_of_subrange, zero_bytes};
use crate::crc;
use crate::layout::{be16_bytes, be32_bytes, be64_bytes, lemma_be16_read, lemma_be32_read, lemma_be64_read};
use crate::sb::{
    dir_blocks_fit, geometry_is_sound, incompat, refusal, trimmed, version_at, version_refusal,
    Superblock, VERSION_DIRV2, VERSION_MOREBITS,
};
use crate::text::lossy_text;
use crate::volume::{open_refusal, superblock_bytes};

verus! {

/// Whether `b` is the superblock `sb`, written.
pub open spec fn holds_superblock(b: Seq<u8>, sb: Superblock) -> bool {
    &&& b.subrange(0, 4) == seq![0x58u8, 0x46u8, 0x53u8, 0x42u8]
    &&& b.subrange(4, 8) == be32_bytes(sb.block_size)
    &&& b.subrange(8, 16) == be64_bytes(sb.data_blocks)
    &&& b.subrange(32, 48) == sb.uuid@
    &&& b.subrange(56, 64) == be64_bytes(sb.root_ino)
    &&& b.subrange(84, 88) == be32_bytes(sb.ag_blocks)
    &&& b.subrange(88, 92) == be32_bytes(sb.ag_count)
    &&& b[101] as int % 16 == sb.version
    &&& b.subrange(102, 104) == be16_bytes(sb.sector_size)
    &&& b.subrange(104, 106) == be16_bytes(sb.inode_size)
    &&& b.subrange(106, 108) == be16_bytes(sb.inodes_per_block)
    &&& b[120] == sb.block_log
    &&& b[123] == sb.inopb_log
    &&& b[124] == sb.agblk_log
    &&& b.subrange(128, 136) == be64_bytes(sb.icount)
    &&& b.subrange(136, 144) == be64_bytes(sb.ifree)
    &&& b.subrange(144, 152) == be64_bytes(sb.free_blocks)
    &&& b[192] == sb.dirblk_log
}

/// Whether `b` has the features of the superblock `sb`: the second word of
/// version 4 where the top bit of the first says that there is one, and the
/// three words of version 5.
pub open spec fn holds_features(b: Seq<u8>, sb: Superblock) -> bool {
    &&& b[100] as int / 128 == 1 ==> b.subrange(200, 204) == be32_bytes(sb.features2)
    &&& b[100] as int / 128 == 0 ==> sb.features2 == 0
    &&& sb.version == 5 ==> {
        &&& b.subrange(208, 212) == be32_bytes(sb.features_compat)
        &&& b.subrange(212, 216) == be32_bytes(sb.features_ro_compat)
        &&& b.subrange(216, 220) == be32_bytes(sb.features_incompat)
    }
    &&& sb.version != 5 ==> sb.features_compat == 0 && sb.features_ro_compat == 0 && sb.features_incompat == 0
}

proof fn lemma_version(b: Seq<u8>)
    requires
        512 <= b.len(),
    ensures
        version_at(b) == b[101] as int % 16,
        (be16_at(b, 100) & VERSION_MOREBITS != 0) == (b[100] as int / 128 == 1),
        (be16_at(b, 100) & VERSION_DIRV2 != 0) == (b[100] as int / 32 % 2 == 1),
{
    let v = be16_at(b, 100);
    let hi = b[100] as u16;
    let lo = b[101] as u16;
    assert(v == hi * 0x100 + lo);
    assert(v & 0xf == v % 16 && (v & 0x8000 != 0) == (v / 0x8000 == 1) && (v & 0x2000 != 0) == (v / 0x2000 % 2 == 1))
        by (bit_vector);
    assert(v % 16 == lo % 16);
    assert(v / 0x8000 == hi / 128);
    assert(v / 0x2000 == hi / 32);
}

/// What is read of a superblock is what is written there.
pub proof fn lemma_superblock_is_as_written(sb: Superblock, b: Seq<u8>)
    requires
        refusal(b) is None,
        sb.records(b),
    ensures
        holds_superblock(b, sb),
        holds_features(b, sb),
{
    lemma_version(b);
    lemma_first_fields(sb, b);
    lemma_be16_read(b, 102);
    lemma_be16_read(b, 104);
    lemma_be16_read(b, 106);
    lemma_be64_read(b, 128);
    lemma_be64_read(b, 136);
    lemma_be64_read(b, 144);
    lemma_be32_read(b, 200);
    lemma_be32_read(b, 208);
    lemma_be32_read(b, 212);
    lemma_be32_read(b, 216);
}

proof fn lemma_first_fields(sb: Superblock, b: Seq<u8>)
    requires
        512 <= b.len(),
        be32_at(b, 0) == 0x5846_5342,
        sb.records(b),
    ensures
        b.subrange(0, 4) == seq![0x58u8, 0x46u8, 0x53u8, 0x42u8],
        b.subrange(4, 8) == be32_bytes(sb.block_size),
        b.subrange(8, 16) == be64_bytes(sb.data_blocks),
        b.subrange(56, 64) == be64_bytes(sb.root_ino),
        b.subrange(84, 88) == be32_bytes(sb.ag_blocks),
        b.subrange(88, 92) == be32_bytes(sb.ag_count),
{
    assert(b.subrange(0, 4) =~= seq![0x58u8, 0x46u8, 0x53u8, 0x42u8]);
    lemma_be32_read(b, 4);
    lemma_be64_read(b, 8);
    lemma_be64_read(b, 56);
    lemma_be32_read(b, 84);
    lemma_be32_read(b, 88);
}

proof fn lemma_trimmed(text: Seq<u8>, n: nat)
    requires
        text.len() > 0 ==> text.last() != 0,
    ensures
        trimmed(text + zero_bytes(n)) == text,
    decreases n,
{
    let all = text + zero_bytes(n);
    if n == 0 {
        assert(all =~= text);
    } else {
        assert(all.last() == 0);
        assert(all.drop_last() =~= text + zero_bytes((n - 1) as nat));
        lemma_trimmed(text, (n - 1) as nat);
    }
}

/// A label, filled up with zero bytes to twelve, reads back.
pub proof fn lemma_label_reads_back(sb: Superblock, b: Seq<u8>, label: Seq<u8>)
    requires
        sb.records(b),
        label.len() <= 12,
        label.len() > 0 ==> label.last() != 0,
        b.subrange(108, 120) == label + zero_bytes((12 - label.len()) as nat),
    ensures
        sb.label@ == lossy_text(label),
{
    lemma_trimmed(label, (12 - label.len()) as nat);
}

/// What the features of a superblock say: whether names have types, whether
/// directories have parent pointers and whether extent counters may be wide.
pub proof fn lemma_features(sb: Superblock)
    ensures
        sb.version == 5 ==> sb.spec_has_ftype() == (sb.features_incompat as int % 2 == 1),
        sb.version != 5 ==> sb.spec_has_ftype() == (sb.features2 as int / 512 % 2 == 1),
        (sb.features_incompat & incompat::PARENT != 0) == (sb.features_incompat as int / 128 % 2 == 1),
        (sb.features_incompat & incompat::NREXT64 != 0) == (sb.features_incompat as int / 32 % 2 == 1),
{
    let f = sb.features_incompat;
    let g = sb.features2;
    assert((f & 0x1 != 0) == (f % 2 == 1) && (f & 0x80 != 0) == (f / 128 % 2 == 1) && (f & 0x20 != 0) == (f / 32 % 2
        == 1)) by (bit_vector);
    assert((g & 0x200 != 0) == (g / 512 % 2 == 1)) by (bit_vector);
}

/// Whether a version 5 filesystem's incompatible features are all known, and
/// none says that it needs repair: ten are, the fifth being that one.
pub open spec fn is_understood(features: u32) -> bool {
    features < 1024 && features as int / 16 % 2 == 0
}

/// Whether a superblock says that names are kept as version 2 directories, and
/// not that it has the checksums of version 5; or whether its sector is sealed
/// and its features are understood.
pub open spec fn is_readable(b: Seq<u8>) -> bool {
    let version = b[101] as int % 16;
    let sector = be16_at(b, 102) as int;
    ||| version == 4 && b[100] as int / 32 % 2 == 1 && (b[100] as int / 128 == 1 ==> be32_at(b, 200) as int / 256 % 2 == 0)
    ||| version == 5 && sector <= b.len() && crc::is_sealed(b.subrange(0, sector), 224) && is_understood(be32_at(b, 216))
}

proof fn lemma_understood(f: u32)
    ensures
        is_understood(f) <==> f & !incompat::KNOWN == 0 && f & incompat::NEEDSREPAIR == 0,
{
    assert((f < 1024 && f / 16 % 2 == 0) == (f & !(0x1u32 | 0x2u32 | 0x4u32 | 0x8u32 | 0x20u32 | 0x40u32 | 0x80u32 | 0x100u32
        | 0x200u32) == 0 && f & 0x10 == 0)) by (bit_vector);
}

/// Whether a geometry is good: blocks of 512 bytes to 64 KiB, inodes of 256
/// bytes to 2 KiB that fill them, groups of blocks that their numbers can tell
/// apart, and directory blocks of 64 KiB at most. All but the groups' number
/// and length are powers of two, and the logarithms must be right.
pub open spec fn is_good_geometry(
    block_size: u32,
    block_log: u8,
    inode_size: u16,
    inodes_per_block: u16,
    inopb_log: u8,
    ag_count: u32,
    ag_blocks: u32,
    agblk_log: u8,
    dirblk_log: u8,
) -> bool {
    &&& 9 <= block_log <= 16
    &&& block_size == pow2(block_log as nat)
    &&& 8 <= block_log - inopb_log <= 11
    &&& inode_size == pow2((block_log - inopb_log) as nat)
    &&& inodes_per_block == pow2(inopb_log as nat)
    &&& 0 < ag_count
    &&& 0 < ag_blocks <= pow2(agblk_log as nat)
    &&& agblk_log <= 31
    &&& block_log + dirblk_log <= 16
}

proof fn lemma_log_bounds(l: nat)
    requires
        l < 64,
    ensures
        pow2(l) >= 256 <==> l >= 8,
        pow2(l) >= 512 <==> l >= 9,
        pow2(l) <= 2048 <==> l <= 11,
        pow2(l) <= 65536 <==> l <= 16,
{
    lemma2_to64();
    lemma_log_bound(l, 8);
    lemma_log_bound(l, 9);
    lemma_log_bound(l, 11);
    lemma_log_bound(l, 16);
}

proof fn lemma_log_bound(l: nat, k: nat)
    ensures
        l < k ==> pow2(l) < pow2(k),
        l > k ==> pow2(l) > pow2(k),
{
    if l < k {
        lemma_pow2_strictly_increases(l, k);
    } else if l > k {
        lemma_pow2_strictly_increases(k, l);
    }
}

proof fn lemma_dir_blocks(block_size: u32, block_log: u8, dirblk_log: u8)
    requires
        9 <= block_log <= 16,
        block_size == pow2(block_log as nat),
    ensures
        dir_blocks_fit(block_size, dirblk_log) <==> block_log + dirblk_log <= 16,
{
    reveal(dir_blocks_fit);
    let n = (block_log + dirblk_log) as nat;
    lemma_pow2_adds(block_log as nat, dirblk_log as nat);
    lemma2_to64();
    lemma_log_bound(n, 16);
}

/// The geometries that are taken for sound are the good ones.
pub proof fn lemma_good_geometries(
    block_size: u32,
    block_log: u8,
    inode_size: u16,
    inodes_per_block: u16,
    inopb_log: u8,
    ag_count: u32,
    ag_blocks: u32,
    agblk_log: u8,
    dirblk_log: u8,
)
    ensures
        geometry_is_sound(
            block_size,
            block_log,
            inode_size,
            inodes_per_block,
            inopb_log,
            ag_count,
            ag_blocks,
            agblk_log,
            dirblk_log,
        ) <==> is_good_geometry(
            block_size,
            block_log,
            inode_size,
            inodes_per_block,
            inopb_log,
            ag_count,
            ag_blocks,
            agblk_log,
            dirblk_log,
        ),
{
    if block_log < 32 && block_size == pow2(block_log as nat) {
        lemma_log_bounds(block_log as nat);
        if 9 <= block_log <= 16 {
            lemma_dir_blocks(block_size, block_log, dirblk_log);
        }
        if inopb_log < 32 && inodes_per_block == pow2(inopb_log as nat) {
            lemma_inode_sizes(block_size, block_log, inode_size, inodes_per_block, inopb_log);
        }
    }
}

proof fn lemma_inode_sizes(block_size: u32, block_log: u8, inode_size: u16, inodes_per_block: u16, inopb_log: u8)
    requires
        block_log < 32,
        block_size == pow2(block_log as nat),
        inopb_log < 32,
        inodes_per_block == pow2(inopb_log as nat),
    ensures
        256 <= inode_size <= 2048 && inodes_per_block * inode_size == block_size <==> 8 <= block_log - inopb_log <= 11
            && inode_size == pow2((block_log - inopb_log) as nat),
{
    let (l, j) = (block_log as nat, inopb_log as nat);
    lemma_power_fits(j);
    if l >= j {
        let k = (l - j) as nat;
        lemma_pow2_adds(j, k);
        lemma_log_bounds(k);
        let per = inodes_per_block as int;
        assert(per * inode_size == per * pow2(k) ==> inode_size == pow2(k)) by (nonlinear_arith)
            requires
                per > 0,
        ;
    } else {
        lemma_log_bound(l, j);
        assert(inodes_per_block * inode_size == block_size ==> inode_size < 256) by (nonlinear_arith)
            requires
                block_size < inodes_per_block,
        ;
    }
}

/// Which bytes are taken for a superblock: those that begin with `XFSB`, are of
/// a version and with features that are understood, and have a good geometry.
pub proof fn lemma_good_superblocks(b: Seq<u8>)
    ensures
        refusal(b) is None <==> 512 <= b.len() && b.subrange(0, 4) == seq![0x58u8, 0x46u8, 0x53u8, 0x42u8]
            && is_readable(b) && is_good_geometry(
            be32_at(b, 4),
            b[120],
            be16_at(b, 104),
            be16_at(b, 106),
            b[123],
            be32_at(b, 88),
            be32_at(b, 84),
            b[124],
            b[192],
        ),
{
    if 512 <= b.len() {
        lemma_good_geometries(
            be32_at(b, 4),
            b[120],
            be16_at(b, 104),
            be16_at(b, 106),
            b[123],
            be32_at(b, 88),
            be32_at(b, 84),
            b[124],
            b[192],
        );
        lemma_version(b);
        lemma_understood(be32_at(b, 216));
        lemma_readable(b);
        let s = b.subrange(0, 4);
        assert(s[0] == b[0] && s[1] == b[1] && s[2] == b[2] && s[3] == b[3]);
        if be32_at(b, 0) == 0x5846_5342 {
            assert(s =~= seq![0x58u8, 0x46u8, 0x53u8, 0x42u8]);
        }
    }
}

proof fn lemma_readable(b: Seq<u8>)
    requires
        512 <= b.len(),
    ensures
        version_refusal(b) is None <==> is_readable(b),
{
    lemma_version(b);
    lemma_understood(be32_at(b, 216));
    let g = be32_at(b, 200);
    assert((g & 0x100 != 0) == (g / 256 % 2 == 1)) by (bit_vector);
    let z: u32 = 0;
    assert(z & 0x100 == 0) by (bit_vector)
        requires
            z == 0,
    ;
}

/// Where a block is whose number is made of a group's and a place in it: so
/// many whole groups and blocks into the device. One that is not in a group, or
/// in no group, is nowhere.
pub proof fn lemma_block_is_in_its_group(sb: Superblock, group: int, block: int)
    requires
        sb.wf(),
        0 <= group,
        0 <= block < pow2(sb.agblk_log as nat),
        group * pow2(sb.agblk_log as nat) + block <= u64::MAX,
    ensures
        ({
            let n = (group * pow2(sb.agblk_log as nat) + block) as u64;
            let place = (group * sb.ag_blocks + block) * sb.block_size;
            &&& sb.block_byte(n) is Ok <==> group < sb.ag_count && block < sb.ag_blocks
            &&& sb.block_byte(n) is Ok && place <= u64::MAX ==> sb.block_byte(n)->Ok_0 == place
        }),
{
    let span = pow2(sb.agblk_log as nat) as int;
    let n = group * span + block;
    lemma_power_fits(sb.agblk_log as nat);
    assert(0 <= group * span) by (nonlinear_arith)
        requires
            0 <= group,
            0 <= span,
    ;
    lemma_fundamental_div_mod_converse(n, span, group, block);
    let place = (group * sb.ag_blocks + block) * sb.block_size;
    assert(0 <= place) by (nonlinear_arith)
        requires
            place == (group * sb.ag_blocks + block) * sb.block_size,
            0 <= group,
            0 <= block,
            0 <= sb.ag_blocks,
            0 <= sb.block_size,
    ;
    if place <= u64::MAX {
        lemma_small_mod(place as nat, WRAP as nat);
    }
}

/// Where an inode is whose number is made of a group's, a block's in it and a
/// place in the block: so many whole groups, blocks and inodes into the device.
pub proof fn lemma_inode_is_in_its_block(sb: Superblock, group: int, block: int, index: int)
    requires
        sb.wf(),
        0 <= group,
        0 <= block < pow2(sb.agblk_log as nat),
        0 <= index < sb.inodes_per_block,
        0 < (group * pow2(sb.agblk_log as nat) + block) * sb.inodes_per_block + index <= u64::MAX,
    ensures
        ({
            let n = ((group * pow2(sb.agblk_log as nat) + block) * sb.inodes_per_block + index) as u64;
            let place = (group * sb.ag_blocks + block) * sb.block_size + index * sb.inode_size;
            &&& sb.inode_byte(n) is Ok <==> group < sb.ag_count && block < sb.ag_blocks
            &&& sb.inode_byte(n) is Ok && place <= u64::MAX ==> sb.inode_byte(n)->Ok_0 == place
        }),
{
    let span = pow2(sb.agblk_log as nat) as int;
    let per = sb.inodes_per_block as int;
    let m = group * span + block;
    let n = m * per + index;
    lemma_power_fits(sb.agblk_log as nat);
    lemma_power_fits(sb.inopb_log as nat);
    lemma_fundamental_div_mod_converse(n, per, m, index);
    lemma_fundamental_div_mod_converse(m, span, group, block);
    let place = (group * sb.ag_blocks + block) * sb.block_size + index * sb.inode_size;
    assert(0 <= place) by (nonlinear_arith)
        requires
            place == (group * sb.ag_blocks + block) * sb.block_size + index * sb.inode_size,
            0 <= group,
            0 <= block,
            0 <= index,
            0 <= sb.inode_size,
            0 <= sb.ag_blocks,
            0 <= sb.block_size,
    ;
    if place <= u64::MAX {
        lemma_small_mod(place as nat, WRAP as nat);
    }
}

/// Which devices are opened: those that begin with `XFSB` and good features and
/// geometry, hold as many blocks as they say and, on version 5, seal a first
/// sector of 32 KiB at most that is on the device.
pub proof fn lemma_good_devices(img: Seq<u8>)
    ensures
        open_refusal(img) is None <==> {
            let version = img[101] as int % 16;
            let sector = be16_at(img, 102) as int;
            &&& 512 <= img.len()
            &&& img.subrange(0, 4) == seq![0x58u8, 0x46u8, 0x53u8, 0x42u8]
            &&& version == 4 && img[100] as int / 32 % 2 == 1 && (img[100] as int / 128 == 1 ==> be32_at(img, 200) as int
                / 256 % 2 == 0) || version == 5 && sector <= 32768 && sector <= img.len() && crc::is_sealed(
                img.subrange(0, sector),
                224,
            ) && is_understood(be32_at(img, 216))
            &&& is_good_geometry(
                be32_at(img, 4),
                img[120],
                be16_at(img, 104),
                be16_at(img, 106),
                img[123],
                be32_at(img, 88),
                be32_at(img, 84),
                img[124],
                img[192],
            )
            &&& be64_at(img, 8) * be32_at(img, 4) <= img.len()
        },
{
    if 512 <= img.len() {
        let b = superblock_bytes(img);
        let sector = be16_at(img, 102) as int;
        lemma_good_superblocks(b);
        assert forall|i: int| 0 <= i < 512 implies #[trigger] b[i] == img[i] by {}
        assert(b.subrange(0, 4) =~= img.subrange(0, 4));
        if sector <= b.len() {
            assert(b.subrange(0, sector) =~= img.subrange(0, sector));
        }
        lemma_fields_of_subrange(img, 0, b.len() as int, 4);
        lemma_fields_of_subrange(img, 0, b.len() as int, 84);
        lemma_fields_of_subrange(img, 0, b.len() as int, 88);
        lemma_fields_of_subrange(img, 0, b.len() as int, 102);
        lemma_fields_of_subrange(img, 0, b.len() as int, 104);
        lemma_fields_of_subrange(img, 0, b.len() as int, 106);
        lemma_fields_of_subrange(img, 0, b.len() as int, 200);
        lemma_fields_of_subrange(img, 0, b.len() as int, 216);
    }
}

} // verus!
