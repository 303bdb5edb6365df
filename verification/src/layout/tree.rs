//! Extent records and the blocks of B+trees as written.

use vstd::arithmetic::div_mod::lemma_fundamental_div_mod_converse;
use vstd::prelude::*;

use crate::bmap::{
    btree_block_of, btree_root_of, extent_at, extents_at, finished, inline_extents_of, leaf_extents_of, lemma_decode_reads_back,
    node_ptrs_of, pointers_at, Extent,
};
use crate::bytes::be64_at;
use crate::crc;
use crate::error::Fault;
use crate::inode::{Format, InodeView};
use crate::layout::{be16_bytes, be64_bytes, lemma_be16, lemma_be64};
use crate::sb::Superblock;
use crate::volume::map::{at_level, fork_map, leaves_under, tree_block};

verus! {

/// Whether `r` is the record of an extent: from the top bit down, one bit for
/// unwritten, 54 of the place in the fork, 52 of the place on the device and 21
/// of the length.
pub open spec fn is_extent_record(r: Seq<u8>, e: Extent) -> bool {
    let flag: int = if e.unwritten {
        1
    } else {
        0
    };
    &&& e.offset < 0x40_0000_0000_0000
    &&& e.block < 0x10_0000_0000_0000
    &&& e.count < 0x20_0000
    &&& r == be64_bytes((flag * 0x8000_0000_0000_0000 + e.offset * 0x200 + e.block as int / 0x800_0000_0000) as u64)
        + be64_bytes((e.block as int % 0x800_0000_0000 * 0x20_0000 + e.count) as u64)
}

/// Whether `b` has the records of extents from byte `from` on, one after
/// another.
pub open spec fn has_extent_records(b: Seq<u8>, from: int, extents: Seq<Extent>) -> bool {
    &&& 0 <= from
    &&& from + 16 * extents.len() <= b.len()
    &&& forall|i: int|
        0 <= i < extents.len() ==> is_extent_record(b.subrange(from + 16 * i, from + 16 * i + 16), #[trigger] extents[i])
}

proof fn lemma_extent(b: Seq<u8>, o: int, e: Extent)
    requires
        0 <= o,
        o + 16 <= b.len(),
        is_extent_record(b.subrange(o, o + 16), e),
    ensures
        extent_at(b, o) == e,
{
    let r = b.subrange(o, o + 16);
    lemma_be64(b, o);
    lemma_be64(b, o + 8);
    lemma_be64(r, 0);
    lemma_be64(r, 8);
    let flag: int = if e.unwritten {
        1
    } else {
        0
    };
    let hi = be64_bytes((flag * 0x8000_0000_0000_0000 + e.offset * 0x200 + e.block as int / 0x800_0000_0000) as u64);
    let lo = be64_bytes((e.block as int % 0x800_0000_0000 * 0x20_0000 + e.count) as u64);
    assert(r.subrange(0, 8) =~= hi);
    assert(r.subrange(8, 16) =~= lo);
    assert(b.subrange(o, o + 8) =~= r.subrange(0, 8));
    assert(b.subrange(o + 8, o + 16) =~= r.subrange(8, 16));
    assert(be64_at(r, 0) == be64_at(b, o));
    assert(be64_at(r, 8) == be64_at(b, o + 8));
    lemma_decode_reads_back(e, r);
}

/// Extent records that are written read back, in their order.
pub proof fn lemma_extents_read_back(b: Seq<u8>, from: int, extents: Seq<Extent>)
    requires
        has_extent_records(b, from, extents),
    ensures
        extents_at(b, from, extents.len()) == extents,
{
    assert forall|i: int| 0 <= i < extents.len() implies extents_at(b, from, extents.len())[i] == #[trigger] extents[i] by {
        lemma_extent(b, from + 16 * i, extents[i]);
    }
    assert(extents_at(b, from, extents.len()) =~= extents);
}

/// The extents in a fork, written from its first byte on, read back.
pub proof fn lemma_fork_extents_read_back(fork: Seq<u8>, count: u64, extents: Seq<Extent>)
    requires
        has_extent_records(fork, 0, extents),
        count == extents.len(),
        count <= usize::MAX,
    ensures
        inline_extents_of(fork, count) == Ok::<Seq<Extent>, Fault>(extents),
{
    lemma_extents_read_back(fork, 0, extents);
}

/// Whether `b` has block numbers from byte `from` on, one after another.
pub open spec fn has_pointers(b: Seq<u8>, from: int, pointers: Seq<u64>) -> bool {
    &&& 0 <= from
    &&& from + 8 * pointers.len() <= b.len()
    &&& forall|i: int|
        0 <= i < pointers.len() ==> b.subrange(from + 8 * i, from + 8 * i + 8) == be64_bytes(#[trigger] pointers[i])
}

proof fn lemma_pointers(b: Seq<u8>, from: int, pointers: Seq<u64>)
    requires
        has_pointers(b, from, pointers),
    ensures
        pointers_at(b, from, pointers.len()) == pointers,
{
    assert forall|i: int| 0 <= i < pointers.len() implies pointers_at(b, from, pointers.len())[i]
        == #[trigger] pointers[i] by {
        lemma_be64(b, from + 8 * i);
    }
    assert(pointers_at(b, from, pointers.len()) =~= pointers);
}

/// The root of a tree, in a fork with room for `room` keys and as many
/// pointers, reads back: the level, how many there are, the keys, and the
/// pointers after room for every key.
pub proof fn lemma_root_reads_back(fork: Seq<u8>, level: u16, pointers: Seq<u64>, room: int)
    requires
        4 <= fork.len(),
        0 <= fork.len() - 4 - 16 * room < 16,
        level > 0,
        1 <= pointers.len() <= room,
        pointers.len() <= u16::MAX,
        fork.subrange(0, 2) == be16_bytes(level),
        fork.subrange(2, 4) == be16_bytes(pointers.len() as u16),
        has_pointers(fork, 4 + 8 * room, pointers),
    ensures
        btree_root_of(fork) == Ok::<(u16, Seq<u64>), Fault>((level, pointers)),
{
    lemma_be16(fork, 0);
    lemma_be16(fork, 2);
    lemma_fundamental_div_mod_converse(fork.len() - 4, 16, room, fork.len() - 4 - 16 * room);
    lemma_pointers(fork, 4 + 8 * room, pointers);
}

/// The length of the header of a tree's block: with a checksum and an owner, or
/// without.
pub open spec fn tree_header(sb: Superblock) -> int {
    if sb.version == 5 {
        72
    } else {
        24
    }
}

/// Whether a tree's block begins with `BMAP` or, where blocks have a checksum
/// and an owner, with `BMA3` and these; then its level and how many records it
/// holds.
pub open spec fn is_tree_header(sb: Superblock, b: Seq<u8>, owner: u64, level: u16, n: u16) -> bool {
    &&& tree_header(sb) <= b.len()
    &&& sb.version == 5 ==> {
        &&& b.subrange(0, 4) == seq![0x42u8, 0x4du8, 0x41u8, 0x33u8]
        &&& crc::is_sealed(b, 64)
        &&& b.subrange(56, 64) == be64_bytes(owner)
    }
    &&& sb.version != 5 ==> b.subrange(0, 4) == seq![0x42u8, 0x4du8, 0x41u8, 0x50u8]
    &&& b.subrange(4, 6) == be16_bytes(level)
    &&& b.subrange(6, 8) == be16_bytes(n)
}

/// A tree's block reads back: its level and how many records it holds, as long
/// as there is room for them.
pub proof fn lemma_tree_block_reads_back(sb: Superblock, b: Seq<u8>, fsb: u64, owner: u64, level: u16, n: u16)
    requires
        is_tree_header(sb, b, owner, level, n),
    ensures
        tree_header(sb) + 16 * n <= b.len() ==> btree_block_of(sb, b, fsb, owner) == Ok::<(u16, usize), Fault>(
            (level, n as usize),
        ),
        tree_header(sb) + 16 * n > b.len() ==> btree_block_of(sb, b, fsb, owner) is Err,
{
    let s = b.subrange(0, 4);
    assert(s[0] == b[0] && s[1] == b[1] && s[2] == b[2] && s[3] == b[3]);
    lemma_be16(b, 4);
    lemma_be16(b, 6);
    if sb.version == 5 {
        lemma_be64(b, 56);
    }
}

/// A tree's block that is taken for one is one of its owner's.
pub proof fn lemma_tree_block_is_as_written(sb: Superblock, b: Seq<u8>, fsb: u64, owner: u64)
    requires
        72 <= b.len(),
        btree_block_of(sb, b, fsb, owner) is Ok,
    ensures
        ({
            let (level, n) = btree_block_of(sb, b, fsb, owner)->Ok_0;
            &&& n <= u16::MAX
            &&& is_tree_header(sb, b, owner, level, n as u16)
            &&& tree_header(sb) + 16 * n <= b.len()
        }),
{
    if sb.version == 5 {
        assert(b.subrange(0, 4) =~= seq![0x42u8, 0x4du8, 0x41u8, 0x33u8]);
        lemma_be64(b, 56);
    } else {
        assert(b.subrange(0, 4) =~= seq![0x42u8, 0x4du8, 0x41u8, 0x50u8]);
    }
    lemma_be16(b, 4);
    lemma_be16(b, 6);
}

/// The extents in a leaf of a tree read back: they follow the header.
pub proof fn lemma_leaf_extents_read_back(sb: Superblock, b: Seq<u8>, extents: Seq<Extent>)
    requires
        has_extent_records(b, tree_header(sb), extents),
    ensures
        leaf_extents_of(sb, b, extents.len()) == extents,
{
    lemma_extents_read_back(b, tree_header(sb), extents);
}

/// The pointers in a node of a tree with room for `room` keys and as many
/// pointers read back: they follow the header and room for every key.
pub proof fn lemma_node_pointers_read_back(sb: Superblock, b: Seq<u8>, pointers: Seq<u64>, room: int)
    requires
        0 <= b.len() - tree_header(sb) - 16 * room < 16,
        0 <= room,
        has_pointers(b, tree_header(sb) + 8 * room, pointers),
    ensures
        node_ptrs_of(sb, b, pointers.len()) == pointers,
{
    let slack = b.len() - tree_header(sb) - 16 * room;
    lemma_fundamental_div_mod_converse(b.len() - tree_header(sb), 16, room, slack);
    lemma_pointers(b, tree_header(sb) + 8 * room, pointers);
}

/// A fork's extents, as many records as the inode counts for it, make its map:
/// the data fork's, or the other's.
pub proof fn lemma_fork_map_reads_back(sb: Superblock, img: Seq<u8>, inode: InodeView, attr: bool, extents: Seq<Extent>)
    requires
        extents.len() <= usize::MAX,
        !attr ==> inode.format == Format::Extents && inode.nextents == extents.len() && has_extent_records(
            inode.data_fork,
            0,
            extents,
        ),
        attr ==> inode.aformat == Some(Format::Extents) && inode.anextents == extents.len() && has_extent_records(
            inode.attr_fork,
            0,
            extents,
        ),
    ensures
        fork_map(sb, img, inode, attr) == finished(extents),
{
    lemma_extents_read_back(
        if attr {
            inode.attr_fork
        } else {
            inode.data_fork
        },
        0,
        extents,
    );
}

/// A tree of leaves under its root is read, as long as no leaf is there twice
/// and there are no more of them than the inode has blocks.
pub proof fn lemma_good_leaves_are_read(
    sb: Superblock,
    img: Seq<u8>,
    ino: u64,
    nblocks: u64,
    leaves: Seq<u64>,
    seen: Seq<u64>,
)
    requires
        leaves.no_duplicates(),
        forall|i: int| 0 <= i < leaves.len() ==> !seen.contains(#[trigger] leaves[i]),
        seen.len() + leaves.len() <= nblocks,
        forall|i: int| 0 <= i < leaves.len() ==> tree_block(sb, img, ino, #[trigger] leaves[i], 0) is Ok,
    ensures
        leaves_under(sb, img, ino, nblocks, at_level(leaves, 0), seen) is Ok,
    decreases leaves.len(),
{
    let todo = at_level(leaves, 0);
    if leaves.len() > 0 {
        let rest = leaves.skip(1);
        let more = seen.push(leaves[0]);
        assert(todo[0] == (leaves[0], 0u16));
        assert(todo.skip(1) =~= at_level(rest, 0));
        assert forall|i: int| 0 <= i < rest.len() implies !more.contains(#[trigger] rest[i]) by {
            assert(rest[i] == leaves[i + 1]);
            if more.contains(rest[i]) {
                let k = choose|k: int| 0 <= k < more.len() && more[k] == rest[i];
                if k < seen.len() {
                    assert(seen.contains(leaves[i + 1]));
                }
            }
        }
        assert forall|i: int| 0 <= i < rest.len() implies tree_block(sb, img, ino, #[trigger] rest[i], 0) is Ok by {
            assert(rest[i] == leaves[i + 1]);
        }
        assert(rest.no_duplicates()) by {
            assert(forall|i: int| 0 <= i < rest.len() ==> rest[i] == leaves[i + 1]);
        }
        lemma_good_leaves_are_read(sb, img, ino, nblocks, rest, more);
        assert(tree_block(sb, img, ino, leaves[0], 0) is Ok);
        assert(!seen.contains(leaves[0]));
    }
}

} // verus!
