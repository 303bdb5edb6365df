//! What is made of a name that is copied out is what its inode on the device
//! records.

use vstd::prelude::*;

use crate::bytes::be16_at;
use crate::dir::FileType;
use crate::error::Fault;
use crate::export::extract::{action_of, made_of, may_be_linked, reported, stepped, ActionView, ExtractionView};
use crate::export::pack::is_true_of;
use crate::export::ExtractReportView;
use crate::layout::inode::holds_time;
use crate::layout::kinds::lemma_mode_tells_type;
use crate::layout::{be16_bytes, lemma_be16};
use crate::sb::Superblock;
use crate::volume::blocks::inode_from;
use crate::volume::links::target_of;
use crate::volume::recorded::{
    counts_nanoseconds, inode_bytes, lemma_inode_is_in_its_place, lemma_stat_tells_inode, tells,
};
use crate::volume::xattrs::xattrs_of;
use crate::volume::WalkView;

verus! {

/// Whether an inode is a file or a symlink with several names, by its bytes.
pub open spec fn has_several_names(b: Seq<u8>, links: u32) -> bool {
    let number = be16_at(b, 2) as int / 4096;
    (number == 8 || number == 10) && links > 1
}

/// What is made of a name: another name where one of a file or a symlink was
/// made before, and else what the inode's type asks for. Nothing is made of
/// devices, FIFOs and sockets.
pub proof fn lemma_action_tells_inode(sb: Superblock, img: Seq<u8>, e: WalkView, seen: Map<u64, Seq<u8>>)
    requires
        sb.wf(),
        is_true_of(sb, img, e),
        action_of(sb, img, e, seen) is Ok,
    ensures
        ({
            let b = inode_bytes(sb, img, e.stat.inode);
            let number = be16_at(b, 2) as int / 4096;
            let (action, left_out) = action_of(sb, img, e, seen)->Ok_0;
            let inode = inode_from(sb, img, e.stat.inode)->Ok_0;
            let is_second = has_several_names(b, e.stat.links) && seen.dom().contains(e.stat.inode);
            &&& inode_from(sb, img, e.stat.inode) is Ok
            &&& tells(b, e.stat, sb.block_size)
            &&& is_second <==> action is HardLink
            &&& is_second ==> action->first == seen[e.stat.inode] && left_out == 0
            &&& !is_second ==> xattrs_of(sb, img, inode) is Ok && left_out == xattrs_of(sb, img, inode)->Ok_0.len()
            &&& !is_second ==> {
                &&& action is Directory <==> number == 4
                &&& action is Symlink <==> number == 10
                &&& action is File <==> number == 8
                &&& action is Skip <==> number != 4 && number != 8 && number != 10
                &&& action matches ActionView::Symlink { target } ==> target_of(sb, img, inode) == Ok::<Seq<u8>, Fault>(
                    target,
                )
                &&& action matches ActionView::File { inode: of } ==> of == inode
            }
        }),
{
    lemma_inode_is_in_its_place(sb, img, e.stat.inode);
    lemma_stat_tells_inode(sb, img, e.stat.inode);
    let b = inode_bytes(sb, img, e.stat.inode);
    lemma_be16(b, 2);
    assert(be16_at(b, 2) == e.stat.mode);
    lemma_mode_tells_type(e.stat.mode, FileType::File);
    lemma_mode_tells_type(e.stat.mode, FileType::Directory);
    lemma_mode_tells_type(e.stat.mode, FileType::Symlink);
}

/// What is left to set on a directory that is made, and nothing else, is its
/// own mode and time of modification, as its inode's bytes record them.
pub proof fn lemma_directory_end_tells_inode(
    sb: Superblock,
    img: Seq<u8>,
    e: WalkView,
    x: ExtractionView,
    action: ActionView,
    left_out: nat,
)
    requires
        sb.wf(),
        is_true_of(sb, img, e),
        inode_from(sb, img, e.stat.inode) is Ok,
    ensures
        ({
            let b = inode_bytes(sb, img, e.stat.inode);
            let after = stepped(x, e, action, left_out);
            &&& !(action is Directory) ==> after.dirs == x.dirs
            &&& action is Directory ==> {
                &&& after.dirs.len() == x.dirs.len() + 1
                &&& after.dirs.drop_last() == x.dirs
                &&& after.dirs.last().path == e.raw_path
                &&& b.subrange(2, 4) == be16_bytes(after.dirs.last().mode)
                &&& holds_time(b.subrange(40, 48), after.dirs.last().mtime, counts_nanoseconds(b))
            }
        }),
{
    lemma_stat_tells_inode(sb, img, e.stat.inode);
    let after = stepped(x, e, action, left_out);
    if action is Directory {
        assert(after.dirs.drop_last() =~= x.dirs);
    }
}

/// A report goes up by what is made: one file and its bytes, one directory, one
/// symlink, one hard link, or the path of what is not made, and by the
/// attributes left out.
pub proof fn lemma_report_goes_up(r: ExtractReportView, e: WalkView, action: ActionView, left_out: nat)
    requires
        r.files < u64::MAX,
        r.directories < u64::MAX,
        r.symlinks < u64::MAX,
        r.hard_links < u64::MAX,
        r.bytes + e.stat.size <= u64::MAX,
        r.xattrs_skipped + left_out <= u64::MAX,
    ensures
        ({
            let after = reported(r, e, action, left_out);
            let one = |b: bool|
                if b {
                    1int
                } else {
                    0int
                };
            &&& after.files - r.files == one(action is File)
            &&& after.directories - r.directories == one(action is Directory)
            &&& after.symlinks - r.symlinks == one(action is Symlink)
            &&& after.hard_links - r.hard_links == one(action is HardLink)
            &&& after.bytes - r.bytes == if action is File {
                e.stat.size as int
            } else {
                0
            }
            &&& after.xattrs_skipped - r.xattrs_skipped == left_out
            &&& after.specials_skipped == if action is Skip {
                r.specials_skipped + seq![e.path]
            } else {
                r.specials_skipped
            }
        }),
{
    assert(r.specials_skipped.push(e.path) =~= r.specials_skipped + seq![e.path]);
}

/// Whether a name is a file's or a symlink's that has others.
pub open spec fn is_one_of_several(e: WalkView) -> bool {
    let number = e.stat.mode as int / 4096;
    (number == 8 || number == 10) && e.stat.links > 1
}

proof fn lemma_one_of_several(e: WalkView)
    ensures
        may_be_linked(e) == is_one_of_several(e),
{
    lemma_mode_tells_type(e.stat.mode, FileType::File);
    lemma_mode_tells_type(e.stat.mode, FileType::Symlink);
}

/// Whether the `i`th of `items` is the first name of inode `ino`, which has
/// others.
pub open spec fn is_first_name(items: Seq<WalkView>, i: int, ino: u64) -> bool {
    &&& items[i].stat.inode == ino
    &&& is_one_of_several(items[i])
    &&& forall|j: int| 0 <= j < i && is_one_of_several(#[trigger] items[j]) ==> items[j].stat.inode != ino
}

/// What is remembered of the names made: of each file and symlink with several
/// names the path of the first, and of nothing else anything.
pub proof fn lemma_first_names_are_kept(items: Seq<WalkView>, ino: u64)
    ensures
        made_of(items).dom().contains(ino) <==> exists|i: int|
            0 <= i < items.len() && (#[trigger] items[i]).stat.inode == ino && is_one_of_several(items[i]),
        forall|i: int|
            0 <= i < items.len() && #[trigger] is_first_name(items, i, ino) ==> made_of(items).dom().contains(ino)
                && made_of(items)[ino] == items[i].raw_path,
    decreases items.len(),
{
    if items.len() > 0 {
        let front = items.drop_last();
        let last = items.len() - 1;
        lemma_first_names_are_kept(front, ino);
        lemma_one_of_several(items[last]);
        assert forall|i: int| 0 <= i < front.len() implies #[trigger] items[i] == front[i] by {}
        if exists|i: int| 0 <= i < front.len() && (#[trigger] front[i]).stat.inode == ino && is_one_of_several(front[i]) {
            let k = choose|i: int|
                0 <= i < front.len() && (#[trigger] front[i]).stat.inode == ino && is_one_of_several(front[i]);
            assert(items[k] == front[k]);
            assert(made_of(items).dom().contains(ino));
            assert(made_of(items)[ino] == made_of(front)[ino]);
            assert forall|i: int| 0 <= i < items.len() && #[trigger] is_first_name(items, i, ino) implies made_of(
                items,
            )[ino] == items[i].raw_path by {
                if i < last {
                    assert forall|j: int| 0 <= j < i && is_one_of_several(#[trigger] front[j]) implies front[j].stat.inode
                        != ino by {
                        assert(items[j] == front[j]);
                    }
                    assert(is_first_name(front, i, ino));
                }
            }
        } else {
            assert forall|i: int| 0 <= i < items.len() && #[trigger] is_first_name(items, i, ino) implies i == last by {
                if i < last {
                    assert(front[i] == items[i]);
                }
            }
            if made_of(items).dom().contains(ino) {
                assert(items[last].stat.inode == ino && is_one_of_several(items[last]));
            }
            if exists|i: int| 0 <= i < items.len() && (#[trigger] items[i]).stat.inode == ino && is_one_of_several(items[i]) {
                let k = choose|i: int|
                    0 <= i < items.len() && (#[trigger] items[i]).stat.inode == ino && is_one_of_several(items[i]);
                if k < last {
                    assert(front[k] == items[k]);
                }
                assert(k == last);
            }
        }
    }
}

} // verus!
