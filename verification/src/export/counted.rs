//! What is reported of an archive is what there is in the tree.

use vstd::prelude::*;

use crate::dir::FileType;
use crate::export::faithful::{has_other_names, lemma_has_header, lemma_header, was_met};
use crate::export::pack::{
    header_of, is_true_of, lemma_packed_last, lemma_tree_is_true, packed, packed_one, seen_of, tally_of,
    tree_entries,
};
use crate::layout::kinds::lemma_mode_tells_type;
use crate::layout::lemma_be64;
use crate::sb::Superblock;
use crate::volume::blocks::inode_from;
use crate::volume::recorded::{inode_bytes, lemma_inode_is_in_its_place, lemma_stat_tells_inode};
use crate::volume::walk::tree_of;
use crate::volume::xattrs::xattrs_of;
use crate::volume::WalkView;

verus! {

/// Whether the `i`th of `items` is another name for what one before it names.
pub open spec fn is_second_name(items: Seq<WalkView>, i: int) -> bool {
    has_other_names(items[i]) && was_met(items, i, items[i])
}

/// The mode's number of the `i`th of `items`, unless that is another name for
/// what one before it names.
pub open spec fn first_number(items: Seq<WalkView>, i: int) -> int {
    if is_second_name(items, i) {
        0
    } else {
        items[i].stat.mode as int / 4096
    }
}

/// How many of `items` are first names with mode's number `number`; for 0, how
/// many are second names.
pub open spec fn how_many(items: Seq<WalkView>, number: int) -> nat
    decreases items.len(),
{
    if items.len() == 0 {
        0
    } else {
        how_many(items.drop_last(), number) + (if first_number(items, items.len() - 1) == number {
            1nat
        } else {
            0nat
        })
    }
}

/// How many bytes there are in the files that `items` name, each file counted
/// once.
pub open spec fn how_much(items: Seq<WalkView>) -> nat
    decreases items.len(),
{
    if items.len() == 0 {
        0
    } else {
        how_much(items.drop_last()) + (if first_number(items, items.len() - 1) == 8 {
            items.last().stat.size as nat
        } else {
            0nat
        })
    }
}

/// How many extended attributes the inodes have that `items` name, each inode
/// counted once and sockets not at all.
pub open spec fn how_many_attributes(sb: Superblock, img: Seq<u8>, items: Seq<WalkView>) -> nat
    decreases items.len(),
{
    if items.len() == 0 {
        0
    } else {
        let i = items.len() - 1;
        how_many_attributes(sb, img, items.drop_last()) + (if is_second_name(items, i) || first_number(items, i) == 12 {
            0nat
        } else {
            xattrs_of(sb, img, inode_from(sb, img, items[i].stat.inode)->Ok_0)->Ok_0.len()
        })
    }
}

/// What there is to report on the last of `items`.
proof fn lemma_one(sb: Superblock, img: Seq<u8>, items: Seq<WalkView>)
    requires
        sb.wf(),
        items.len() > 0,
        is_true_of(sb, img, items.last()),
        packed_one(sb, img, items.last(), seen_of(items.drop_last())) is Ok,
    ensures
        ({
            let i = items.len() - 1;
            let t = packed_one(sb, img, items.last(), seen_of(items.drop_last()))->Ok_0.1;
            let number = first_number(items, i);
            let one = |b: bool|
                if b {
                    1nat
                } else {
                    0nat
                };
            &&& t.files == one(number == 8)
            &&& t.directories == one(number == 4)
            &&& t.symlinks == one(number == 10)
            &&& t.hard_links == one(number == 0)
            &&& t.devices == one(number == 1 || number == 2 || number == 6)
            &&& t.sockets_skipped == one(number == 12)
            &&& t.bytes == if number == 8 {
                items.last().stat.size as nat
            } else {
                0
            }
            &&& t.xattrs == if number == 0 || number == 12 {
                0
            } else {
                xattrs_of(sb, img, inode_from(sb, img, items[i].stat.inode)->Ok_0)->Ok_0.len()
            }
            &&& number == 0 <==> is_second_name(items, i)
        }),
{
    let i = items.len() - 1;
    let e = items.last();
    let seen = seen_of(items.drop_last());
    let number = e.stat.mode as int / 4096;
    assert(items.take(i) =~= items.drop_last());
    lemma_mode_tells_type(e.stat.mode, FileType::Socket);
    lemma_mode_tells_type(e.stat.mode, FileType::Directory);
    if number == 12 {
        reveal(packed_one);
        reveal(header_of);
    } else {
        lemma_has_header(sb, img, e, seen);
        let inode = inode_from(sb, img, e.stat.inode)->Ok_0;
        let h = header_of(sb, img, e, inode, seen)->Ok_0->Some_0;
        lemma_header(sb, img, items, i, inode, h);
        lemma_inode_is_in_its_place(sb, img, e.stat.inode);
        lemma_stat_tells_inode(sb, img, e.stat.inode);
        let b = inode_bytes(sb, img, e.stat.inode);
        lemma_be64(b, 56);
        crate::layout::lemma_be16(b, 2);
        lemma_tally(sb, img, e, seen);
    }
}

proof fn lemma_tally(sb: Superblock, img: Seq<u8>, e: WalkView, seen: Map<u64, Seq<u8>>)
    requires
        packed_one(sb, img, e, seen) is Ok,
        header_of(sb, img, e, inode_from(sb, img, e.stat.inode)->Ok_0, seen) matches Ok(Some(_)),
    ensures
        packed_one(sb, img, e, seen)->Ok_0.1 == tally_of(
            header_of(sb, img, e, inode_from(sb, img, e.stat.inode)->Ok_0, seen)->Ok_0->Some_0,
        ),
{
    reveal(packed_one);
}

proof fn lemma_counts(sb: Superblock, img: Seq<u8>, items: Seq<WalkView>)
    requires
        sb.wf(),
        packed(sb, img, items, Map::empty()) is Ok,
        forall|i: int| 0 <= i < items.len() ==> is_true_of(sb, img, #[trigger] items[i]),
    ensures
        ({
            let t = packed(sb, img, items, Map::empty())->Ok_0.1;
            &&& t.files == how_many(items, 8)
            &&& t.directories == how_many(items, 4)
            &&& t.symlinks == how_many(items, 10)
            &&& t.hard_links == how_many(items, 0)
            &&& t.devices == how_many(items, 1) + how_many(items, 2) + how_many(items, 6)
            &&& t.sockets_skipped == how_many(items, 12)
            &&& t.bytes == how_much(items)
            &&& t.xattrs == how_many_attributes(sb, img, items)
        }),
    decreases items.len(),
{
    if items.len() > 0 {
        let front = items.drop_last();
        lemma_packed_last(sb, img, items);
        assert(is_true_of(sb, img, items[items.len() - 1]));
        lemma_one(sb, img, items);
        assert forall|i: int| 0 <= i < front.len() implies is_true_of(sb, img, #[trigger] front[i]) by {
            assert(front[i] == items[i]);
        }
        lemma_counts(sb, img, front);
    }
}

/// A report counts what there is in the tree: each file, directory, symlink,
/// device and socket under its first name, every other name as a hard link, and
/// the bytes and the extended attributes of what is in the archive.
pub proof fn lemma_report_counts_tree(sb: Superblock, img: Seq<u8>, root: Seq<char>)
    requires
        sb.wf(),
        tree_entries(sb, img, root) is Ok,
    ensures
        tree_of(sb, img, root) is Ok,
        ({
            let items = tree_of(sb, img, root)->Ok_0;
            let t = tree_entries(sb, img, root)->Ok_0.1;
            &&& t.files == how_many(items, 8)
            &&& t.directories == how_many(items, 4)
            &&& t.symlinks == how_many(items, 10)
            &&& t.hard_links == how_many(items, 0)
            &&& t.devices == how_many(items, 1) + how_many(items, 2) + how_many(items, 6)
            &&& t.sockets_skipped == how_many(items, 12)
            &&& t.bytes == how_much(items)
            &&& t.xattrs == how_many_attributes(sb, img, items)
        }),
{
    lemma_tree_is_true(sb, img, root);
    lemma_counts(sb, img, tree_of(sb, img, root)->Ok_0);
}

} // verus!
