//! Symbolic links as written: in the inode, or in blocks of their own.

use vstd::prelude::*;

use crate::bmap::Extent;
use crate::bytes::be32_at;
use crate::crc;
use crate::error::Fault;
use crate::inode::{mode, Format, InodeView};
use crate::layout::{be32_bytes, be64_bytes, lemma_be32, lemma_be64};
use crate::sb::Superblock;
use crate::volume::blocks::blocks_of;
use crate::volume::links::{gathered, is_link_run, target_of};
use crate::volume::map::{fork_map, mapped};

verus! {

/// A target that is written in the inode reads back: its first `size` bytes.
pub proof fn lemma_inline_target_reads_back(sb: Superblock, img: Seq<u8>, inode: InodeView, target: Seq<u8>)
    requires
        inode.file_type() == mode::IFLNK,
        inode.format == Format::Local,
        1 <= target.len() <= 1024,
        inode.size == target.len(),
        target.len() <= inode.data_fork.len(),
        inode.data_fork.subrange(0, target.len() as int) == target,
    ensures
        target_of(sb, img, inode) == Ok::<Seq<u8>, Fault>(target),
{
}

/// Whether a run of blocks holds the part of a target that begins at byte `at`:
/// after `XSLM`, that place, the part's length, a checksum and an owner.
pub open spec fn is_link_block(b: Seq<u8>, ino: u64, at: int, part: Seq<u8>) -> bool {
    &&& 0 <= at <= u32::MAX
    &&& part.len() <= u32::MAX
    &&& 56 + part.len() <= b.len()
    &&& b.subrange(0, 4) == seq![0x58u8, 0x53u8, 0x4cu8, 0x4du8]
    &&& b.subrange(4, 8) == be32_bytes(at as u32)
    &&& b.subrange(8, 12) == be32_bytes(part.len() as u32)
    &&& crc::is_sealed(b, 12)
    &&& b.subrange(32, 40) == be64_bytes(ino)
    &&& b.subrange(56, 56 + part.len() as int) == part
}

/// A run of blocks that is taken for part of a target is one of its inode's, and
/// of that part of it.
pub proof fn lemma_link_run_is_as_written(b: Seq<u8>, ino: u64, at: nat)
    requires
        is_link_run(b, ino, at),
    ensures
        is_link_block(b, ino, at as int, b.subrange(56, 56 + be32_at(b, 8))),
{
    assert(b.subrange(0, 4) =~= seq![0x58u8, 0x53u8, 0x4cu8, 0x4du8]);
    lemma_be32(b, 4);
    lemma_be32(b, 8);
    lemma_be64(b, 32);
}

/// Whether runs of blocks from the `i`th on hold what is left of a target from
/// byte `at` on, each some of it.
pub open spec fn holds_target(
    sb: Superblock,
    img: Seq<u8>,
    ino: u64,
    extents: Seq<Extent>,
    i: int,
    target: Seq<u8>,
    at: int,
) -> bool
    decreases extents.len() - i,
{
    if at == target.len() || i < 0 || i >= extents.len() {
        at == target.len()
    } else {
        let e = extents[i];
        let got = blocks_of(sb, img, e.block, e.count);
        &&& !e.unwritten
        &&& got is Ok
        &&& exists|end: int|
            at < end <= target.len() && is_link_block(got->Ok_0, ino, at, #[trigger] target.subrange(at, end))
                && holds_target(sb, img, ino, extents, i + 1, target, end)
    }
}

proof fn lemma_gathered(
    sb: Superblock,
    img: Seq<u8>,
    ino: u64,
    extents: Seq<Extent>,
    i: int,
    target: Seq<u8>,
    at: int,
)
    requires
        0 <= i,
        0 <= at <= target.len() <= u32::MAX,
        holds_target(sb, img, ino, extents, i, target, at),
    ensures
        gathered(sb, img, ino, target.len() as u64, extents, i, target.subrange(0, at)) == Ok::<Seq<u8>, Fault>(target),
    decreases extents.len() - i,
{
    let acc = target.subrange(0, at);
    if at == target.len() || i >= extents.len() {
        assert(acc =~= target);
    } else {
        let e = extents[i];
        let b = blocks_of(sb, img, e.block, e.count)->Ok_0;
        let end = choose|end: int|
            at < end <= target.len() && is_link_block(b, ino, at, #[trigger] target.subrange(at, end)) && holds_target(
                sb,
                img,
                ino,
                extents,
                i + 1,
                target,
                end,
            );
        let part = target.subrange(at, end);
        let s = b.subrange(0, 4);
        assert(s[0] == b[0] && s[1] == b[1] && s[2] == b[2] && s[3] == b[3]);
        lemma_be32(b, 4);
        lemma_be32(b, 8);
        lemma_be64(b, 32);
        assert(is_link_run(b, ino, acc.len()));
        assert(acc + part =~= target.subrange(0, end));
        lemma_gathered(sb, img, ino, extents, i + 1, target, end);
    }
}

/// A target that is written in blocks of its own, each run with a header where
/// blocks have checksums, and else one block after another, reads back.
pub proof fn lemma_remote_target_reads_back(sb: Superblock, img: Seq<u8>, inode: InodeView, target: Seq<u8>)
    requires
        inode.file_type() == mode::IFLNK,
        inode.format != Format::Local,
        1 <= target.len() <= 1024,
        inode.size == target.len(),
        fork_map(sb, img, inode, false) is Ok,
        sb.version == 5 ==> holds_target(sb, img, inode.ino, fork_map(sb, img, inode, false)->Ok_0, 0, target, 0),
        sb.version != 5 ==> ({
            let n = (target.len() + sb.block_size - 1) / sb.block_size as int;
            let got = mapped(sb, img, fork_map(sb, img, inode, false)->Ok_0, 0, n as u64);
            got is Ok && target.len() <= got->Ok_0.len() && got->Ok_0.subrange(0, target.len() as int) == target
        }),
    ensures
        target_of(sb, img, inode) == Ok::<Seq<u8>, Fault>(target),
{
    if sb.version == 5 {
        assert(target.subrange(0, 0) =~= Seq::<u8>::empty());
        lemma_gathered(sb, img, inode.ino, fork_map(sb, img, inode, false)->Ok_0, 0, target, 0);
    }
}

} // verus!
