//! What is told at a path: of a symbolic link itself, or of what it leads to.

use vstd::prelude::*;
use vstd::utf8::encode_utf8;

use crate::attr::XattrView;
use crate::dir::FileType;
use crate::error::Fault;
use crate::inode::InodeView;
use crate::layout::kinds::lemma_mode_tells_type;
use crate::sb::Superblock;
use crate::volume::blocks::inode_from;
use crate::volume::bytewise::lemma_range_is_slice;
use crate::volume::links::target_of;
use crate::volume::map::fork_map;
use crate::volume::names::listing;
use crate::volume::paths::{
    existence, file_bytes, first_value, inode_at, listing_at, range_at, resolved, target_at, whole_at, xattr_at,
    xattrs_at,
};
use crate::volume::trees::lemma_fork_map;
use crate::volume::xattrs::xattrs_of;
use crate::volume::EntryView;

verus! {

/// Whether a path exists, its target and its extended attributes are told of
/// what it names, be that a link: a link whose target is not there exists.
pub proof fn lemma_told_of_name(sb: Superblock, img: Seq<u8>, path: Seq<char>, inode: InodeView)
    requires
        resolved(sb, img, encode_utf8(path), false) == Ok::<u64, Fault>(inode.ino),
        inode_from(sb, img, inode.ino) == Ok::<InodeView, Fault>(inode),
    ensures
        existence(sb, img, path) == Ok::<bool, Fault>(true),
        inode_at(sb, img, path, false) == Ok::<InodeView, Fault>(inode),
        xattrs_at(sb, img, path) == xattrs_of(sb, img, inode),
        inode.mode as int / 4096 == 10 ==> target_at(sb, img, path) == target_of(sb, img, inode),
        inode.mode as int / 4096 != 10 ==> target_at(sb, img, path) == Err::<Seq<u8>, Fault>(Fault::NotASymlink(path)),
{
    lemma_mode_tells_type(inode.mode, FileType::Symlink);
}

/// Contents and entries are told of what a path leads to, links followed: the
/// contents of a regular file and of nothing else, and the entries of a
/// directory and of nothing else.
pub proof fn lemma_told_of_end(sb: Superblock, img: Seq<u8>, path: Seq<char>, inode: InodeView, offset: u64, len: u64)
    requires
        resolved(sb, img, encode_utf8(path), true) == Ok::<u64, Fault>(inode.ino),
        inode_from(sb, img, inode.ino) == Ok::<InodeView, Fault>(inode),
    ensures
        ({
            let number = inode.mode as int / 4096;
            &&& number == 8 ==> {
                &&& whole_at(sb, img, path) == file_bytes(sb, img, inode, 0, inode.size)
                &&& range_at(sb, img, path, offset, len) == file_bytes(sb, img, inode, offset, len)
            }
            &&& number == 4 ==> {
                &&& listing_at(sb, img, path) == listing(sb, img, inode)
                &&& whole_at(sb, img, path) == Err::<Seq<u8>, Fault>(Fault::IsADirectory(path))
                &&& range_at(sb, img, path, offset, len) == Err::<Seq<u8>, Fault>(Fault::IsADirectory(path))
            }
            &&& number != 4 ==> listing_at(sb, img, path) == Err::<Seq<EntryView>, Fault>(Fault::NotADirectory(path))
            &&& number != 4 && number != 8 ==> {
                &&& whole_at(sb, img, path) matches Err(Fault::Unsupported(_))
                &&& range_at(sb, img, path, offset, len) matches Err(Fault::Unsupported(_))
            }
        }),
{
    lemma_mode_tells_type(inode.mode, FileType::File);
    lemma_mode_tells_type(inode.mode, FileType::Directory);
}

/// A range of a file is that part of the whole, cut off where the file ends.
pub proof fn lemma_range_is_part_of_whole(sb: Superblock, img: Seq<u8>, path: Seq<char>, offset: u64, len: u64)
    requires
        sb.wf(),
        img.len() <= u64::MAX,
        whole_at(sb, img, path) is Ok,
        offset <= whole_at(sb, img, path)->Ok_0.len(),
    ensures
        ({
            let whole = whole_at(sb, img, path)->Ok_0;
            let end = if offset + len < whole.len() {
                offset + len
            } else {
                whole.len() as int
            };
            range_at(sb, img, path, offset, len) == Ok::<Seq<u8>, Fault>(whole.subrange(offset as int, end))
        }),
{
    let inode = inode_at(sb, img, path, true)->Ok_0;
    let extents = fork_map(sb, img, inode, false)->Ok_0;
    lemma_fork_map(sb, img, inode, false);
    crate::volume::map::lemma_contents_len(sb, img, inode, extents, 0, inode.size);
    lemma_range_is_slice(sb, img, inode, extents, offset, len);
}

proof fn lemma_first_value(xattrs: Seq<XattrView>, name: Seq<char>)
    ensures
        match first_value(xattrs, name) {
            Some(value) => exists|i: int|
                0 <= i < xattrs.len() && (#[trigger] xattrs[i]).name == name && xattrs[i].value == value && forall|j: int|
                    0 <= j < i ==> (#[trigger] xattrs[j]).name != name,
            None => forall|i: int| 0 <= i < xattrs.len() ==> (#[trigger] xattrs[i]).name != name,
        },
    decreases xattrs.len(),
{
    if xattrs.len() > 0 {
        let rest = xattrs.skip(1);
        lemma_first_value(rest, name);
        assert(forall|i: int| 0 <= i < rest.len() ==> rest[i] == xattrs[i + 1]);
        if xattrs[0].name != name {
            if let Some(value) = first_value(rest, name) {
                let i = choose|i: int|
                    0 <= i < rest.len() && (#[trigger] rest[i]).name == name && rest[i].value == value && forall|j: int|
                        0 <= j < i ==> (#[trigger] rest[j]).name != name;
                assert(xattrs[i + 1].name == name);
                assert forall|j: int| 0 <= j < i + 1 implies (#[trigger] xattrs[j]).name != name by {
                    if j > 0 {
                        assert(rest[j - 1].name != name);
                    }
                }
            } else {
                assert forall|j: int| 0 <= j < xattrs.len() implies (#[trigger] xattrs[j]).name != name by {
                    if j > 0 {
                        assert(rest[j - 1].name != name);
                    }
                }
            }
        }
    }
}

/// The value of an attribute is the one that is listed with its name, the first
/// if there are several; there is none just when the name is not listed.
pub proof fn lemma_value_is_listed(sb: Superblock, img: Seq<u8>, path: Seq<char>, name: Seq<char>)
    requires
        xattrs_at(sb, img, path) is Ok,
    ensures
        xattr_at(sb, img, path, name) is Ok,
        ({
            let xattrs = xattrs_at(sb, img, path)->Ok_0;
            match xattr_at(sb, img, path, name)->Ok_0 {
                Some(value) => exists|i: int|
                    0 <= i < xattrs.len() && (#[trigger] xattrs[i]).name == name && xattrs[i].value == value
                        && forall|j: int| 0 <= j < i ==> (#[trigger] xattrs[j]).name != name,
                None => forall|i: int| 0 <= i < xattrs.len() ==> (#[trigger] xattrs[i]).name != name,
            }
        }),
{
    lemma_first_value(xattrs_at(sb, img, path)->Ok_0, name);
}

} // verus!
