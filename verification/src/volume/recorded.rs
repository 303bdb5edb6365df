//! What is told of a file is what its inode's bytes on the device record.

use vstd::arithmetic::div_mod::{lemma_fundamental_div_mod, lemma_small_mod};
use vstd::arithmetic::mul::{lemma_mul_is_associative, lemma_mul_is_commutative};
use vstd::arithmetic::power2::{lemma2_to64, lemma_pow2_adds, lemma_pow2_strictly_increases};
use vstd::prelude::*;

use crate::arith::WRAP;
use crate::bytes::be32_at;
use crate::dir::FileType;
use crate::inode::{inode_of, mode, InodeView};
use crate::layout::inode::{has_bigtime, holds_extras, holds_inode, holds_time, lemma_inode_is_as_written};
use crate::layout::kinds::{lemma_mode_tells_type, mode_number};
use crate::layout::{be16_bytes, be32_bytes, be64_bytes, lemma_be32, lemma_be64};
use crate::sb::Superblock;
use crate::volume::blocks::inode_from;
use crate::volume::{stat_of, Stat};

verus! {

/// The bytes on the device of inode `ino`.
pub open spec fn inode_bytes(sb: Superblock, img: Seq<u8>, ino: u64) -> Seq<u8> {
    let at = sb.inode_byte(ino)->Ok_0 as int;
    img.subrange(at, at + sb.inode_size)
}

/// An inode that is read is on the device, at the place its number gives, and
/// is what its bytes there come to.
pub proof fn lemma_inode_is_in_its_place(sb: Superblock, img: Seq<u8>, ino: u64)
    requires
        sb.wf(),
        inode_from(sb, img, ino) is Ok,
    ensures
        sb.inode_byte(ino) is Ok,
        sb.inode_byte(ino)->Ok_0 + sb.inode_size <= img.len(),
        inode_of(sb, ino, inode_bytes(sb, img, ino)) == inode_from(sb, img, ino),
        holds_inode(inode_bytes(sb, img, ino), inode_from(sb, img, ino)->Ok_0),
        inode_from(sb, img, ino)->Ok_0.ino == ino,
        inode_from(sb, img, ino)->Ok_0.version == 3 <==> sb.version == 5,
{
    lemma_inode_bytes(sb, img, ino);
    lemma_inode_is_as_written(sb, ino, inode_bytes(sb, img, ino));
    assert(inode_bytes(sb, img, ino).subrange(0, sb.inode_size as int) =~= inode_bytes(sb, img, ino));
}

proof fn lemma_inode_bytes(sb: Superblock, img: Seq<u8>, ino: u64)
    requires
        sb.wf(),
        inode_from(sb, img, ino) is Ok,
    ensures
        sb.inode_byte(ino) is Ok,
        sb.inode_byte(ino)->Ok_0 + sb.inode_size <= img.len(),
        inode_of(sb, ino, inode_bytes(sb, img, ino)) == inode_from(sb, img, ino),
{
    reveal(inode_from);
    let bs = sb.block_size as int;
    let at = sb.inode_byte(ino)->Ok_0 as int;
    let block_at = at / bs * bs;
    let isize = sb.inode_size as int;
    lemma_in_block(at, bs);
    let part = img.subrange(block_at, block_at + bs).subrange(at - block_at, bs);
    lemma_part(img, block_at, at, bs, isize);
    assert(inode_of(sb, ino, part) == inode_from(sb, img, ino));
    assert(inode_bytes(sb, img, ino).subrange(0, isize) =~= inode_bytes(sb, img, ino));
}

proof fn lemma_in_block(at: int, bs: int)
    requires
        0 <= at,
        0 < bs,
    ensures
        0 <= at / bs * bs <= at < at / bs * bs + bs,
{
    lemma_fundamental_div_mod(at, bs);
    lemma_mul_is_commutative(at / bs, bs);
    assert(0 <= at / bs * bs) by (nonlinear_arith)
        requires
            bs > 0,
            at >= 0,
    ;
}

proof fn lemma_part(img: Seq<u8>, block_at: int, at: int, bs: int, isize: int)
    requires
        0 <= block_at <= at < block_at + bs <= img.len(),
        0 <= isize,
    ensures
        ({
            let part = img.subrange(block_at, block_at + bs).subrange(at - block_at, bs);
            &&& part.len() == block_at + bs - at
            &&& isize <= part.len() ==> part.subrange(0, isize) == img.subrange(at, at + isize)
        }),
{
    let part = img.subrange(block_at, block_at + bs).subrange(at - block_at, bs);
    if isize <= part.len() {
        assert(part.subrange(0, isize) =~= img.subrange(at, at + isize));
    }
}

/// Whether the times of the inode in `b` count nanoseconds.
pub open spec fn counts_nanoseconds(b: Seq<u8>) -> bool {
    b[4] == 3 && b[127] as int / 8 % 2 == 1
}

/// Where what an inode holds begins in its bytes.
pub open spec fn fork_place(b: Seq<u8>) -> int {
    if b[4] == 3 {
        176
    } else {
        100
    }
}

/// Whether `st` tells what `b`, the bytes of an inode on a filesystem with
/// blocks of `block_size` bytes, record.
pub open spec fn tells(b: Seq<u8>, st: Stat, block_size: u32) -> bool {
    &&& b.subrange(2, 4) == be16_bytes(st.mode)
    &&& b.subrange(8, 12) == be32_bytes(st.uid)
    &&& b.subrange(12, 16) == be32_bytes(st.gid)
    &&& b[4] == 1 ==> st.links < 0x1_0000 && b.subrange(6, 8) == be16_bytes(st.links as u16)
    &&& b[4] != 1 ==> b.subrange(16, 20) == be32_bytes(st.links)
    &&& holds_time(b.subrange(32, 40), st.atime, counts_nanoseconds(b))
    &&& holds_time(b.subrange(40, 48), st.mtime, counts_nanoseconds(b))
    &&& holds_time(b.subrange(48, 56), st.ctime, counts_nanoseconds(b))
    &&& b.subrange(56, 64) == be64_bytes(st.size)
    &&& b[4] == 3 <==> st.crtime is Some
    &&& b[4] == 3 ==> holds_time(b.subrange(144, 152), st.crtime->Some_0, counts_nanoseconds(b))
    &&& forall|n: u64|
        b.subrange(64, 72) == #[trigger] be64_bytes(n) && n * (block_size as int / 512) <= u64::MAX ==> st.blocks * 512 == n
            * block_size
    &&& tells_device(b, st)
}

/// Whether `st` has the device number that the inode in `b` records: that of
/// a device node, with eighteen bits of minor number, and nothing otherwise.
pub open spec fn tells_device(b: Seq<u8>, st: Stat) -> bool {
    let number = st.mode as int / 4096;
    let at = fork_place(b);
    let is_device = number == mode_number(FileType::CharDevice) || number == mode_number(FileType::BlockDevice);
    &&& !is_device ==> st.rdev == (0u32, 0u32)
    &&& is_device && b[5] == 0 && b[82] == 0 && at + 4 <= b.len() ==> st.rdev.1 < 0x4_0000 && st.rdev.0 * 0x4_0000
        + st.rdev.1 <= u32::MAX && b.subrange(at, at + 4) == be32_bytes((st.rdev.0 * 0x4_0000 + st.rdev.1) as u32)
}

/// `stat` tells what the inode's bytes on the device record.
pub proof fn lemma_stat_tells_inode(sb: Superblock, img: Seq<u8>, ino: u64)
    requires
        sb.wf(),
        inode_from(sb, img, ino) is Ok,
    ensures
        tells(inode_bytes(sb, img, ino), stat_of(sb, inode_from(sb, img, ino)->Ok_0), sb.block_size),
        stat_of(sb, inode_from(sb, img, ino)->Ok_0).inode == ino,
{
    lemma_inode_is_in_its_place(sb, img, ino);
    let b = inode_bytes(sb, img, ino);
    let v = inode_from(sb, img, ino)->Ok_0;
    let st = stat_of(sb, v);
    assert(b.len() >= 256);
    lemma_bigtime(b, v);
    lemma_device(b, v, st);
    lemma_blocks_of_512(sb, b, v);
}

proof fn lemma_bigtime(b: Seq<u8>, v: InodeView)
    requires
        holds_extras(b, v),
        b.len() >= 256,
        v.version == b[4],
    ensures
        has_bigtime(v) == counts_nanoseconds(b),
{
    if v.version == 3 {
        lemma_be64(b, 120);
        assert(v.flags2 % 0x100 == b[127]);
        assert(v.flags2 as int / 8 % 2 == (v.flags2 as int % 0x100) / 8 % 2);
    }
}

proof fn lemma_device(b: Seq<u8>, v: InodeView, st: Stat)
    requires
        holds_inode(b, v),
        b.len() >= 256,
        st.mode == v.mode,
        st.rdev == if v.file_type() == mode::IFCHR || v.file_type() == mode::IFBLK {
            v.device()
        } else {
            (0u32, 0u32)
        },
    ensures
        tells_device(b, st),
{
    lemma_mode_tells_type(v.mode, FileType::CharDevice);
    lemma_mode_tells_type(v.mode, FileType::BlockDevice);
    let at = fork_place(b);
    if b[5] == 0 && b[82] == 0 && at + 4 <= b.len() {
        let held = b.subrange(at, b.len() as int);
        assert(v.data_fork + v.attr_fork =~= v.data_fork);
        assert(b.subrange(at, at + 4) =~= held.subrange(0, 4));
        lemma_be32(v.data_fork, 0);
        let dev = be32_at(v.data_fork, 0);
        assert(dev / 0x4_0000 * 0x4_0000 + dev % 0x4_0000 == dev);
    }
}

proof fn lemma_blocks_of_512(sb: Superblock, b: Seq<u8>, v: InodeView)
    requires
        sb.wf(),
        b.len() >= 256,
        b.subrange(64, 72) == be64_bytes(v.nblocks),
    ensures
        forall|n: u64|
            b.subrange(64, 72) == #[trigger] be64_bytes(n) && n * (sb.block_size as int / 512) <= u64::MAX ==> stat_of(
                sb,
                v,
            ).blocks * 512 == n * sb.block_size,
{
    lemma_be64(b, 64);
    let bs = sb.block_size as int;
    let per = bs / 512;
    assert(bs == per * 512) by {
        lemma2_to64();
        let log = sb.block_log as nat;
        if log < 9 {
            lemma_pow2_strictly_increases(log, 9);
        } else {
            lemma_pow2_adds(9, (log - 9) as nat);
        }
    }
    assert forall|n: u64| b.subrange(64, 72) == #[trigger] be64_bytes(n) && n * (sb.block_size as int / 512)
        <= u64::MAX implies stat_of(sb, v).blocks * 512 == n * sb.block_size by {
        assert(n == v.nblocks);
        assert(0 <= n * per) by (nonlinear_arith)
            requires
                n >= 0,
                per >= 0,
        ;
        lemma_small_mod((n * per) as nat, WRAP as nat);
        lemma_mul_is_associative(n as int, per, 512);
    }
}

} // verus!
