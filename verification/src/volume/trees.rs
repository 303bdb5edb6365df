//! What the B+tree of a fork says, as a tree.

use vstd::prelude::*;

use crate::bmap::{
    extent_at, extents_at, finished, inline_extents_of, is_fork_map, leaf_extents_of, lemma_finished_is_map,
    node_ptrs_of, Extent,
};
use crate::bytes::be64_at;

use crate::inode::{Format, InodeView};
use crate::sb::Superblock;
use crate::volume::map::{at_level, fork_map, leaves_under, tree_block, tree_extents};

verus! {

/// The records of the leaves under block `fsb`, at level `level`, from left to
/// right: those of a leaf, or what is under its children, one after another.
pub open spec fn subtree(sb: Superblock, img: Seq<u8>, ino: u64, fsb: u64, level: nat) -> Seq<Extent>
    decreases level, 0nat,
{
    match tree_block(sb, img, ino, fsb, level as u16) {
        Err(_) => Seq::empty(),
        Ok((buf, n)) => if level == 0 {
            leaf_extents_of(sb, buf, n as nat)
        } else {
            subtrees(sb, img, ino, node_ptrs_of(sb, buf, n as nat), (level - 1) as nat)
        },
    }
}

/// The records of the leaves under the blocks `ptrs`, all at level `level`,
/// one block after another.
pub open spec fn subtrees(sb: Superblock, img: Seq<u8>, ino: u64, ptrs: Seq<u64>, level: nat) -> Seq<Extent>
    decreases level, 1 + ptrs.len(),
{
    if ptrs.len() == 0 {
        Seq::empty()
    } else {
        subtree(sb, img, ino, ptrs[0], level) + subtrees(sb, img, ino, ptrs.skip(1), level)
    }
}

/// What is under blocks, each with its level, one block after another.
spec fn under(sb: Superblock, img: Seq<u8>, ino: u64, todo: Seq<(u64, u16)>) -> Seq<Extent>
    decreases todo.len(),
{
    if todo.len() == 0 {
        Seq::empty()
    } else {
        subtree(sb, img, ino, todo[0].0, todo[0].1 as nat) + under(sb, img, ino, todo.skip(1))
    }
}

proof fn lemma_under_level(sb: Superblock, img: Seq<u8>, ino: u64, ptrs: Seq<u64>, level: u16, rest: Seq<(u64, u16)>)
    ensures
        under(sb, img, ino, at_level(ptrs, level) + rest) == subtrees(sb, img, ino, ptrs, level as nat) + under(
            sb,
            img,
            ino,
            rest,
        ),
    decreases ptrs.len(),
{
    let todo = at_level(ptrs, level) + rest;
    if ptrs.len() == 0 {
        assert(todo =~= rest);
        assert(Seq::<Extent>::empty() + under(sb, img, ino, rest) =~= under(sb, img, ino, rest));
    } else {
        assert(todo.skip(1) =~= at_level(ptrs.skip(1), level) + rest);
        lemma_under_level(sb, img, ino, ptrs.skip(1), level, rest);
        let a = subtree(sb, img, ino, ptrs[0], level as nat);
        let b = subtrees(sb, img, ino, ptrs.skip(1), level as nat);
        let c = under(sb, img, ino, rest);
        assert(a + (b + c) =~= a + b + c);
    }
}

proof fn lemma_leaves_under(
    sb: Superblock,
    img: Seq<u8>,
    ino: u64,
    nblocks: u64,
    todo: Seq<(u64, u16)>,
    seen: Seq<u64>,
)
    requires
        leaves_under(sb, img, ino, nblocks, todo, seen) is Ok,
    ensures
        leaves_under(sb, img, ino, nblocks, todo, seen)->Ok_0 == under(sb, img, ino, todo),
    decreases nblocks + 1 - seen.len(),
{
    if todo.len() > 0 {
        let (fsb, level) = todo[0];
        let (buf, n) = tree_block(sb, img, ino, fsb, level)->Ok_0;
        if level == 0 {
            lemma_leaves_under(sb, img, ino, nblocks, todo.skip(1), seen.push(fsb));
        } else {
            let ptrs = node_ptrs_of(sb, buf, n as nat);
            let more = at_level(ptrs, (level - 1) as u16) + todo.skip(1);
            lemma_leaves_under(sb, img, ino, nblocks, more, seen.push(fsb));
            lemma_under_level(sb, img, ino, ptrs, (level - 1) as u16, todo.skip(1));
        }
    }
}

/// What a B+tree says is what its leaves say, from left to right.
pub proof fn lemma_tree_in_order(sb: Superblock, img: Seq<u8>, ino: u64, nblocks: u64, fork: Seq<u8>)
    requires
        tree_extents(sb, img, ino, nblocks, fork) is Ok,
    ensures
        crate::bmap::btree_root_of(fork) is Ok,
        ({
            let (level, ptrs) = crate::bmap::btree_root_of(fork)->Ok_0;
            tree_extents(sb, img, ino, nblocks, fork)->Ok_0 == subtrees(sb, img, ino, ptrs, (level - 1) as nat)
        }),
{
    let (level, ptrs) = crate::bmap::btree_root_of(fork)->Ok_0;
    let todo = at_level(ptrs, (level - 1) as u16);
    let none = Seq::<(u64, u16)>::empty();
    lemma_leaves_under(sb, img, ino, nblocks, todo, Seq::empty());
    lemma_under_level(sb, img, ino, ptrs, (level - 1) as u16, none);
    assert(todo + none =~= todo);
    let all = subtrees(sb, img, ino, ptrs, (level - 1) as nat);
    assert(all + under(sb, img, ino, none) =~= all);
}

proof fn lemma_record_is_packable(b: Seq<u8>, o: int)
    ensures
        extent_at(b, o).is_packable(),
{
    let l0 = be64_at(b, o) as int;
    let l1 = be64_at(b, o + 8) as int;
    assert(l0 % 0x8000_0000_0000_0000 / 0x200 < 0x40_0000_0000_0000);
    assert(l0 % 0x200 * 0x800_0000_0000 + l1 / 0x20_0000 < 0x10_0000_0000_0000);
}

spec fn all_packable(s: Seq<Extent>) -> bool {
    forall|i: int| 0 <= i < s.len() ==> (#[trigger] s[i]).is_packable()
}

proof fn lemma_leaves_are_packable(
    sb: Superblock,
    img: Seq<u8>,
    ino: u64,
    nblocks: u64,
    todo: Seq<(u64, u16)>,
    seen: Seq<u64>,
)
    requires
        leaves_under(sb, img, ino, nblocks, todo, seen) is Ok,
    ensures
        all_packable(leaves_under(sb, img, ino, nblocks, todo, seen)->Ok_0),
    decreases nblocks + 1 - seen.len(),
{
    if todo.len() > 0 {
        let (fsb, level) = todo[0];
        let (buf, n) = tree_block(sb, img, ino, fsb, level)->Ok_0;
        if level == 0 {
            let leaf = leaf_extents_of(sb, buf, n as nat);
            let rest = leaves_under(sb, img, ino, nblocks, todo.skip(1), seen.push(fsb))->Ok_0;
            lemma_leaves_are_packable(sb, img, ino, nblocks, todo.skip(1), seen.push(fsb));
            lemma_records_are_packable(buf, crate::bmap::spec_long_block_header(sb), n as nat);
            assert forall|i: int| 0 <= i < (leaf + rest).len() implies (#[trigger] (leaf + rest)[i]).is_packable() by {
                if i >= leaf.len() {
                    assert((leaf + rest)[i] == rest[i - leaf.len()]);
                } else {
                    assert((leaf + rest)[i] == leaf[i]);
                }
            }
        } else {
            let more = at_level(node_ptrs_of(sb, buf, n as nat), (level - 1) as u16) + todo.skip(1);
            lemma_leaves_are_packable(sb, img, ino, nblocks, more, seen.push(fsb));
        }
    }
}

proof fn lemma_records_are_packable(b: Seq<u8>, from: int, n: nat)
    ensures
        all_packable(extents_at(b, from, n)),
{
    assert forall|i: int| 0 <= i < n implies (#[trigger] extents_at(b, from, n)[i]).is_packable() by {
        lemma_record_is_packable(b, from + 16 * i);
    }
}

/// The extents of a fork are in order, do not overlap and each hold some
/// block.
pub proof fn lemma_fork_map(sb: Superblock, img: Seq<u8>, inode: InodeView, attr: bool)
    requires
        fork_map(sb, img, inode, attr) is Ok,
    ensures
        is_fork_map(fork_map(sb, img, inode, attr)->Ok_0),
{
    let format = if attr {
        inode.aformat
    } else {
        Some(inode.format)
    };
    let fork = if attr {
        inode.attr_fork
    } else {
        inode.data_fork
    };
    let count = if attr {
        inode.anextents as u64
    } else {
        inode.nextents
    };
    if format == Some(Format::Extents) {
        lemma_records_are_packable(fork, 0, count as nat);
        lemma_finished(inline_extents_of(fork, count)->Ok_0);
    } else if format == Some(Format::Btree) {
        let (level, ptrs) = crate::bmap::btree_root_of(fork)->Ok_0;
        lemma_leaves_are_packable(
            sb,
            img,
            inode.ino,
            inode.nblocks,
            at_level(ptrs, (level - 1) as u16),
            Seq::empty(),
        );
        lemma_finished(tree_extents(sb, img, inode.ino, inode.nblocks, fork)->Ok_0);
    }
}

proof fn lemma_finished(s: Seq<Extent>)
    requires
        all_packable(s),
        finished(s) is Ok,
    ensures
        is_fork_map(finished(s)->Ok_0),
{
    lemma_finished_is_map(s);
    let r = finished(s)->Ok_0;
    assert forall|i: int| 0 <= i < r.len() implies (#[trigger] r[i]).is_packable() by {
        assert(s.contains(r[i]));
        let k = choose|k: int| 0 <= k < s.len() && s[k] == r[i];
        assert(s[k].is_packable());
    }
}

} // verus!
