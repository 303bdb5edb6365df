//! What an archive says of a file is what the file's inode on the device
//! records.

use vstd::prelude::*;

use crate::attr::XattrView;
use crate::bytes::{be16_at, zero_bytes};
use crate::dir::FileType;
use crate::error::Fault;
use crate::export::pack::{
    archive_of, as_pairs, common_header, content_of, header_of, is_true_of, lemma_content_len,
    lemma_links_point_back, lemma_packed, lemma_packed_last, lemma_tree_is_true, lemma_unseen, may_be_shared,
    own_header, packed, packed_one, seen_of, tree_entries,
};
use crate::inode::{mode, InodeView};
use crate::layout::inode::holds_time;
use crate::layout::kinds::{lemma_mode_tells_type, mode_number};
use crate::layout::{be32_bytes, be64_bytes, lemma_be16};
use crate::sb::Superblock;
use crate::tar::reading::{block_place, has_entry, lemma_entry_is_said};
use crate::tar::{entry_bytes, padding, pax_of, EntryKind, HeaderView};
use crate::volume::blocks::inode_from;
use crate::volume::bytewise::lemma_chunks_are_whole;
use crate::volume::links::target_of;
use crate::volume::map::fork_map;
use crate::volume::paths::file_bytes;
use crate::volume::recorded::{counts_nanoseconds, fork_place, inode_bytes, lemma_stat_tells_inode};
use crate::volume::trees::lemma_fork_map;
use crate::volume::walk::tree_of;
use crate::volume::xattrs::xattrs_of;
use crate::volume::WalkView;

verus! {

/// Whether a header has the owner, the permissions and the time that `b`, the
/// bytes of an inode, record.
pub open spec fn has_metadata(b: Seq<u8>, h: HeaderView) -> bool {
    &&& h.mode == be16_at(b, 2) % 0o10000
    &&& b.subrange(8, 12) == be32_bytes(h.uid)
    &&& b.subrange(12, 16) == be32_bytes(h.gid)
    &&& holds_time(b.subrange(40, 48), h.mtime, counts_nanoseconds(b))
}

/// The type of file that a kind of entry is for.
pub open spec fn type_of_kind(kind: EntryKind) -> FileType {
    match kind {
        EntryKind::File => FileType::File,
        EntryKind::Symlink => FileType::Symlink,
        EntryKind::CharDevice => FileType::CharDevice,
        EntryKind::BlockDevice => FileType::BlockDevice,
        EntryKind::Directory => FileType::Directory,
        EntryKind::Fifo => FileType::Fifo,
        EntryKind::HardLink => FileType::Unknown,
    }
}

/// Whether a header is that of the name `path` of the inode whose bytes are `b`,
/// and says what is particular to its type.
pub open spec fn is_own(sb: Superblock, img: Seq<u8>, inode: InodeView, b: Seq<u8>, path: Seq<u8>, h: HeaderView) -> bool {
    &&& h.kind != EntryKind::HardLink
    &&& be16_at(b, 2) as int / 4096 == mode_number(type_of_kind(h.kind))
    &&& h.path == if h.kind == EntryKind::Directory {
        path + seq![47u8]
    } else {
        path
    }
    &&& h.kind == EntryKind::File ==> b.subrange(56, 64) == be64_bytes(h.size)
    &&& h.kind == EntryKind::Symlink ==> target_of(sb, img, inode) == Ok::<Seq<u8>, Fault>(h.link)
    &&& h.kind != EntryKind::Symlink ==> h.link.len() == 0
    &&& h.kind == EntryKind::CharDevice || h.kind == EntryKind::BlockDevice ==> has_device(b, h)
    &&& has_attributes(xattrs_of(sb, img, inode), h)
}

/// Whether a header has the device number that the inode in `b` records.
pub open spec fn has_device(b: Seq<u8>, h: HeaderView) -> bool {
    let at = fork_place(b);
    b[5] == 0 && b[82] == 0 && at + 4 <= b.len() ==> h.minor < 0x4_0000 && h.major * 0x4_0000 + h.minor <= u32::MAX
        && b.subrange(at, at + 4) == be32_bytes((h.major * 0x4_0000 + h.minor) as u32)
}

/// Whether a header has every one of an inode's extended attributes.
pub open spec fn has_attributes(xattrs: core::result::Result<Seq<XattrView>, Fault>, h: HeaderView) -> bool {
    &&& xattrs is Ok
    &&& xattrs->Ok_0.len() == h.xattrs.len()
    &&& forall|i: int|
        0 <= i < h.xattrs.len() ==> (#[trigger] h.xattrs[i]).0 == xattrs->Ok_0[i].name && h.xattrs[i].1
            == xattrs->Ok_0[i].value
}

/// Whether the inode of a name has others that an archive can hold: it has more
/// than one link, and is neither a directory nor a socket.
pub open spec fn has_other_names(e: WalkView) -> bool {
    let number = e.stat.mode as int / 4096;
    e.stat.links > 1 && number != 4 && number != 12
}

/// Whether one of the first `n` of `items` is another name of the inode of `e`.
pub open spec fn was_met(items: Seq<WalkView>, n: int, e: WalkView) -> bool {
    exists|j: int| 0 <= j < n && (#[trigger] items[j]).stat.inode == e.stat.inode && has_other_names(items[j])
}

proof fn lemma_other_names(e: WalkView)
    ensures
        may_be_shared(e) == has_other_names(e),
{
    lemma_mode_tells_type(e.stat.mode, FileType::Directory);
    lemma_mode_tells_type(e.stat.mode, FileType::Socket);
}

/// Whether a header is that of the hard link `items[i]`: to the first name of
/// its inode.
pub open spec fn is_link(items: Seq<WalkView>, i: int, h: HeaderView) -> bool {
    &&& h.kind == EntryKind::HardLink
    &&& h.path == items[i].raw_path
    &&& h.xattrs.len() == 0
    &&& exists|j: int|
        0 <= j < i && (#[trigger] items[j]).stat.inode == items[i].stat.inode && has_other_names(items[j])
            && items[j].raw_path == h.link && !was_met(items, j, items[i])
}

/// Whether an archive has, after the block at `place`, the content that a
/// header says follows.
pub open spec fn has_content(
    sb: Superblock,
    img: Seq<u8>,
    inode: InodeView,
    archive: Seq<u8>,
    place: int,
    h: HeaderView,
) -> bool {
    h.kind == EntryKind::File ==> {
        &&& place + 512 + h.size <= archive.len()
        &&& img.len() <= u64::MAX && file_bytes(sb, img, inode, 0, inode.size) is Ok ==> archive.subrange(
            place + 512,
            place + 512 + h.size,
        ) == file_bytes(sb, img, inode, 0, inode.size)->Ok_0
    }
}

/// What names have in an archive, the first `n + 1` of them.
proof fn lemma_packed_front(sb: Superblock, img: Seq<u8>, items: Seq<WalkView>, i: int)
    requires
        0 <= i < items.len(),
        packed(sb, img, items, Map::empty()) is Ok,
    ensures
        ({
            let bytes = packed(sb, img, items, Map::empty())->Ok_0.0;
            let front = packed(sb, img, items.take(i), Map::empty());
            let one = packed_one(sb, img, items[i], seen_of(items.take(i)));
            &&& front is Ok
            &&& one is Ok
            &&& bytes.len() >= front->Ok_0.0.len() + one->Ok_0.0.len()
            &&& bytes.take((front->Ok_0.0.len() + one->Ok_0.0.len()) as int) == front->Ok_0.0 + one->Ok_0.0
        }),
    decreases items.len(),
{
    lemma_packed_last(sb, img, items);
    let most = items.drop_last();
    let bytes = packed(sb, img, items, Map::empty())->Ok_0.0;
    if i == items.len() - 1 {
        assert(items.take(i) =~= most);
        assert(bytes.take(bytes.len() as int) =~= bytes);
    } else {
        lemma_packed_front(sb, img, most, i);
        assert(most.take(i) =~= items.take(i));
        let less = packed(sb, img, most, Map::empty())->Ok_0.0;
        let n = packed(sb, img, items.take(i), Map::empty())->Ok_0.0.len() + packed_one(
            sb,
            img,
            items[i],
            seen_of(items.take(i)),
        )->Ok_0.0.len();
        assert(bytes.take(n as int) =~= less.take(n as int));
    }
}

proof fn lemma_own_header(sb: Superblock, img: Seq<u8>, e: WalkView, inode: InodeView, h: HeaderView)
    requires
        sb.wf(),
        inode_from(sb, img, e.stat.inode) == Ok::<InodeView, Fault>(inode),
        is_true_of(sb, img, e),
        own_header(sb, img, e, inode) == Ok::<HeaderView, Fault>(h),
    ensures
        has_metadata(inode_bytes(sb, img, e.stat.inode), h),
        xattrs_of(sb, img, inode) matches Ok(xattrs) ==> is_own(
            sb,
            img,
            inode,
            inode_bytes(sb, img, e.stat.inode),
            e.raw_path,
            HeaderView { xattrs: as_pairs(xattrs), ..h },
        ),
{
    let b = inode_bytes(sb, img, e.stat.inode);
    lemma_metadata(sb, img, e, inode);
    lemma_mode_tells_type(e.stat.mode, FileType::File);
    lemma_mode_tells_type(e.stat.mode, FileType::Directory);
    lemma_mode_tells_type(e.stat.mode, FileType::Symlink);
    lemma_mode_tells_type(e.stat.mode, FileType::CharDevice);
    lemma_mode_tells_type(e.stat.mode, FileType::BlockDevice);
    lemma_mode_tells_type(e.stat.mode, FileType::Fifo);
    assert(e.raw_path.push(47) =~= e.raw_path + seq![47u8]);
}

proof fn lemma_metadata(sb: Superblock, img: Seq<u8>, e: WalkView, inode: InodeView)
    requires
        sb.wf(),
        inode_from(sb, img, e.stat.inode) == Ok::<InodeView, Fault>(inode),
        is_true_of(sb, img, e),
    ensures
        has_metadata(inode_bytes(sb, img, e.stat.inode), common_header(e)),
        be16_at(inode_bytes(sb, img, e.stat.inode), 2) == e.stat.mode,
        inode_bytes(sb, img, e.stat.inode).subrange(56, 64) == be64_bytes(e.stat.size),
        e.stat.mode as int / 4096 == mode_number(FileType::CharDevice) || e.stat.mode as int / 4096 == mode_number(
            FileType::BlockDevice,
        ) ==> has_device(
            inode_bytes(sb, img, e.stat.inode),
            HeaderView { major: e.stat.rdev.0, minor: e.stat.rdev.1, ..HeaderView::blank() },
        ),
{
    lemma_stat_tells_inode(sb, img, e.stat.inode);
    crate::volume::recorded::lemma_inode_is_in_its_place(sb, img, e.stat.inode);
    let b = inode_bytes(sb, img, e.stat.inode);
    lemma_be16(b, 2);
}

/// The header that a name of a tree has is that of a hard link or its own.
pub proof fn lemma_header(sb: Superblock, img: Seq<u8>, items: Seq<WalkView>, i: int, inode: InodeView, h: HeaderView)
    requires
        sb.wf(),
        0 <= i < items.len(),
        inode_from(sb, img, items[i].stat.inode) == Ok::<InodeView, Fault>(inode),
        is_true_of(sb, img, items[i]),
        header_of(sb, img, items[i], inode, seen_of(items.take(i))) == Ok::<Option<HeaderView>, Fault>(Some(h)),
    ensures
        ({
            let b = inode_bytes(sb, img, items[i].stat.inode);
            let is_second = has_other_names(items[i]) && was_met(items, i, items[i]);
            &&& has_metadata(b, h)
            &&& is_second ==> is_link(items, i, h)
            &&& !is_second ==> is_own(sb, img, inode, b, items[i].raw_path, h)
        }),
{
    reveal(header_of);
    let e = items[i];
    let front = items.take(i);
    let seen = seen_of(front);
    lemma_metadata(sb, img, e, inode);
    assert forall|x: WalkView| #[trigger] may_be_shared(x) == has_other_names(x) by {
        lemma_other_names(x);
    }
    assert(may_be_shared(e) == has_other_names(e));
    if seen.dom().contains(e.stat.inode) {
        lemma_links_point_back(front, e.stat.inode);
        let j = choose|j: int|
            0 <= j < front.len() && (#[trigger] front[j]).stat.inode == e.stat.inode && may_be_shared(front[j])
                && front[j].raw_path == seen[e.stat.inode] && forall|k: int|
                0 <= k < j && may_be_shared(#[trigger] front[k]) ==> front[k].stat.inode != e.stat.inode;
        assert(items[j] == front[j]);
        assert(!was_met(items, j, e)) by {
            if was_met(items, j, e) {
                let k = choose|k: int|
                    0 <= k < j && (#[trigger] items[k]).stat.inode == e.stat.inode && has_other_names(items[k]);
                assert(front[k] == items[k]);
                assert(may_be_shared(front[k]));
            }
        }
    } else {
        lemma_unseen(front, e.stat.inode);
        if was_met(items, i, e) {
            let k = choose|k: int|
                0 <= k < i && (#[trigger] items[k]).stat.inode == e.stat.inode && has_other_names(items[k]);
            assert(front[k] == items[k]);
            assert(may_be_shared(front[k]));
        }
    }
    if !(may_be_shared(e) && seen.dom().contains(e.stat.inode)) {
        let own = own_header(sb, img, e, inode)->Ok_0;
        lemma_own_header(sb, img, e, inode, own);
    }
}

/// Where in an archive what the `i`th of `items` has comes: after what those
/// before it have.
pub open spec fn place_of(sb: Superblock, img: Seq<u8>, items: Seq<WalkView>, i: int) -> int {
    packed(sb, img, items.take(i), Map::empty())->Ok_0.0.len() as int
}

/// Names have their entries in the order of the tree: where a name's entry
/// comes, that of every name before it has ended.
pub proof fn lemma_entries_in_order(sb: Superblock, img: Seq<u8>, root: Seq<char>, i: int, j: int)
    requires
        archive_of(sb, img, root) is Ok,
        0 <= i < j < tree_of(sb, img, root)->Ok_0.len(),
    ensures
        ({
            let items = tree_of(sb, img, root)->Ok_0;
            &&& place_of(sb, img, items, i) <= place_of(sb, img, items, j)
            &&& items[i].stat.mode as int / 4096 != mode_number(FileType::Socket) ==> place_of(sb, img, items, i) + 512
                <= place_of(sb, img, items, j)
        }),
{
    lemma_places(sb, img, tree_of(sb, img, root)->Ok_0, i, j);
}

proof fn lemma_places(sb: Superblock, img: Seq<u8>, items: Seq<WalkView>, i: int, j: int)
    requires
        packed(sb, img, items, Map::empty()) is Ok,
        0 <= i < j <= items.len(),
    ensures
        place_of(sb, img, items, i) <= place_of(sb, img, items, j),
        items[i].stat.mode as int / 4096 != mode_number(FileType::Socket) ==> place_of(sb, img, items, i) + 512
            <= place_of(sb, img, items, j),
    decreases j,
{
    let upto = items.take(j);
    lemma_packed_take(sb, img, items, j);
    lemma_packed_last(sb, img, upto);
    assert(upto.drop_last() =~= items.take(j - 1));
    if i == j - 1 {
        let e = items[i];
        assert(upto.last() == e);
        let seen = seen_of(items.take(i));
        if e.stat.mode as int / 4096 != mode_number(FileType::Socket) {
            lemma_has_header(sb, img, e, seen);
            let inode = inode_from(sb, img, e.stat.inode)->Ok_0;
            let h = header_of(sb, img, e, inode, seen)->Ok_0->Some_0;
            lemma_entry_is_said(Seq::empty(), h, Seq::empty());
        }
    } else {
        lemma_places(sb, img, items, i, j - 1);
    }
}

proof fn lemma_packed_take(sb: Superblock, img: Seq<u8>, items: Seq<WalkView>, j: int)
    requires
        packed(sb, img, items, Map::empty()) is Ok,
        0 <= j <= items.len(),
    ensures
        packed(sb, img, items.take(j), Map::empty()) is Ok,
{
    if j < items.len() {
        lemma_packed_front(sb, img, items, j);
    } else {
        assert(items.take(j) =~= items);
    }
}

/// Every name of a tree that an archive can hold has an entry in the archive of
/// the tree, at whole blocks. What the entry says of the owner, the group, the
/// permissions and the time is what the inode's bytes on the device record, for
/// the first name of an inode and for every other. The first has its type, its
/// size and content, its target, its device number and its extended attributes;
/// every other is a hard link to the first.
pub proof fn lemma_archive_tells_inode(sb: Superblock, img: Seq<u8>, root: Seq<char>, i: int)
    requires
        sb.wf(),
        archive_of(sb, img, root) is Ok,
        0 <= i < tree_of(sb, img, root)->Ok_0.len(),
        tree_of(sb, img, root)->Ok_0[i].stat.mode as int / 4096 != mode_number(FileType::Socket),
    ensures
        ({
            let items = tree_of(sb, img, root)->Ok_0;
            let ino = items[i].stat.inode;
            let b = inode_bytes(sb, img, ino);
            let archive = archive_of(sb, img, root)->Ok_0;
            let is_second = has_other_names(items[i]) && was_met(items, i, items[i]);
            &&& inode_from(sb, img, ino) is Ok
            &&& exists|at: int, pax: Seq<u8>, h: HeaderView|
                #[trigger] has_entry(archive, at, pax, h) && at == place_of(sb, img, items, i) && has_metadata(b, h) && (
                if is_second {
                    is_link(items, i, h)
                } else {
                    is_own(sb, img, inode_from(sb, img, ino)->Ok_0, b, items[i].raw_path, h)
                }) && has_content(sb, img, inode_from(sb, img, ino)->Ok_0, archive, block_place(at, pax), h)
        }),
{
    let items = tree_of(sb, img, root)->Ok_0;
    let e = items[i];
    let archive = archive_of(sb, img, root)->Ok_0;
    let entries = tree_entries(sb, img, root)->Ok_0.0;
    lemma_tree_is_true(sb, img, root);
    lemma_packed_front(sb, img, items, i);
    let front = packed(sb, img, items.take(i), Map::empty())->Ok_0.0;
    let seen = seen_of(items.take(i));
    let one = packed_one(sb, img, e, seen)->Ok_0.0;
    assert(is_true_of(sb, img, e));
    lemma_packed(sb, img, items.take(i), Map::empty());
    let inode = inode_from(sb, img, e.stat.inode)->Ok_0;
    let h = header_of(sb, img, e, inode, seen)->Ok_0->Some_0;
    lemma_has_header(sb, img, e, seen);
    lemma_header(sb, img, items, i, inode, h);
    let content = content_of(sb, img, inode, h)->Ok_0;
    lemma_content(sb, img, inode, h, e.stat.inode);
    let n = (front.len() + one.len()) as int;
    let pad = zero_bytes(padding(h.content_len() as nat));
    let back = content + pad + archive.skip(n);
    assert(archive.take(n) =~= entries.take(n));
    lemma_in_parts(archive, front, entry_bytes(h), content, pad, n);
    lemma_entry_is_said(front, h, back);
    let at = front.len() as int;
    let place = block_place(at, pax_of(h));
    assert(place + 512 == front.len() + entry_bytes(h).len());
    assert(has_content(sb, img, inode, archive, place, h));
    assert(has_entry(archive, at, pax_of(h), h));
}

proof fn lemma_in_parts(archive: Seq<u8>, front: Seq<u8>, entry: Seq<u8>, content: Seq<u8>, pad: Seq<u8>, n: int)
    requires
        0 <= n <= archive.len(),
        archive.take(n) == front + (entry + content + pad),
    ensures
        archive == front + entry + (content + pad + archive.skip(n)),
        archive.len() >= front.len() + entry.len() + content.len(),
        archive.subrange((front.len() + entry.len()) as int, (front.len() + entry.len() + content.len()) as int)
            == content,
{
    let whole = front + entry + (content + pad + archive.skip(n));
    let (f, e) = (front.len() as int, entry.len() as int);
    assert(archive =~= archive.take(n) + archive.skip(n));
    assert(archive =~= whole);
    assert(whole.subrange(f + e, f + e + content.len()) =~= content);
}

/// A name that is no socket's has a header, and after it content and padding.
pub proof fn lemma_has_header(sb: Superblock, img: Seq<u8>, e: WalkView, seen: Map<u64, Seq<u8>>)
    requires
        packed_one(sb, img, e, seen) is Ok,
        e.stat.mode as int / 4096 != mode_number(FileType::Socket),
    ensures
        ({
            let inode = inode_from(sb, img, e.stat.inode)->Ok_0;
            let h = header_of(sb, img, e, inode, seen)->Ok_0->Some_0;
            &&& inode_from(sb, img, e.stat.inode) is Ok
            &&& header_of(sb, img, e, inode, seen) == Ok::<Option<HeaderView>, Fault>(Some(h))
            &&& content_of(sb, img, inode, h) is Ok
            &&& packed_one(sb, img, e, seen)->Ok_0.0 == entry_bytes(h) + content_of(sb, img, inode, h)->Ok_0
                + zero_bytes(padding(h.content_len() as nat))
        }),
{
    reveal(packed_one);
    reveal(header_of);
    lemma_mode_tells_type(e.stat.mode, FileType::Socket);
}

proof fn lemma_content(sb: Superblock, img: Seq<u8>, inode: InodeView, h: HeaderView, ino: u64)
    requires
        sb.wf(),
        inode_from(sb, img, ino) == Ok::<InodeView, Fault>(inode),
        h.kind == EntryKind::File ==> inode_bytes(sb, img, ino).subrange(56, 64) == be64_bytes(h.size),
        content_of(sb, img, inode, h) is Ok,
    ensures
        content_of(sb, img, inode, h)->Ok_0.len() == h.content_len(),
        h.kind == EntryKind::File && img.len() <= u64::MAX && file_bytes(sb, img, inode, 0, inode.size) is Ok
            ==> content_of(sb, img, inode, h) == file_bytes(sb, img, inode, 0, inode.size),
{
    crate::volume::recorded::lemma_inode_is_in_its_place(sb, img, ino);
    let b = inode_bytes(sb, img, ino);
    crate::layout::lemma_be64(b, 56);
    lemma_content_len(sb, img, inode, h);
    if h.kind == EntryKind::File && img.len() <= u64::MAX && file_bytes(sb, img, inode, 0, inode.size) is Ok {
        lemma_fork_map(sb, img, inode, false);
        lemma_chunks_are_whole(sb, img, inode, fork_map(sb, img, inode, false)->Ok_0);
    }
}

/// An archive ends with 1024 zero bytes, and before them is what its names have,
/// one after another; a socket has nothing.
pub proof fn lemma_archive_ends(sb: Superblock, img: Seq<u8>, root: Seq<char>)
    requires
        archive_of(sb, img, root) is Ok,
    ensures
        ({
            let archive = archive_of(sb, img, root)->Ok_0;
            let items = tree_of(sb, img, root)->Ok_0;
            &&& archive.len() >= 1024
            &&& forall|i: int| archive.len() - 1024 <= i < archive.len() ==> #[trigger] archive[i] == 0
            &&& items.len() == 0 ==> archive.len() == 1024
        }),
        forall|e: WalkView, seen: Map<u64, Seq<u8>>|
            e.stat.mode as int / 4096 == 12 && (#[trigger] packed_one(sb, img, e, seen)) is Ok ==> packed_one(
                sb,
                img,
                e,
                seen,
            )->Ok_0.0.len() == 0,
{
    assert forall|e: WalkView, seen: Map<u64, Seq<u8>>|
        e.stat.mode as int / 4096 == 12 && (#[trigger] packed_one(sb, img, e, seen)) is Ok implies packed_one(
        sb,
        img,
        e,
        seen,
    )->Ok_0.0.len() == 0 by {
        reveal(packed_one);
        reveal(header_of);
        lemma_mode_tells_type(e.stat.mode, FileType::Socket);
    }
}

} // verus!
