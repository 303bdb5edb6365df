//! Packing a tree into a tar archive.

use std::collections::HashMap;
use vstd::prelude::*;
use vstd::string::*;

use crate::arith::{lemma_wrapped_sum, mul_add};
use crate::attr::{Xattr, XattrView};
use crate::bmap::Extent;
use crate::bytes::{cut, lemma_views_push, views, zero_bytes};
use crate::device::{settled, BlockDevice};
use crate::error::{outcome, prefixed, Error, Fault, Result};
use crate::export::{PackReport, Tally, CHUNK};
use crate::inode::{mode, Inode, InodeView};
use crate::sb::Superblock;
use crate::tar::pax::is_writable;
use crate::tar::ustar::BLOCK;
use crate::tar::{entry_bytes, lemma_whole_blocks, padding, EntryKind, Header, HeaderView, Sink, Writer};
use crate::text::{numeral, push_numeral};
use crate::volume::blocks::inode_from;
use crate::volume::links::target_of;
use crate::volume::map::{clipped, contents_of, fork_map, reads_blocks};
use crate::volume::paths::{inode_at, lemma_inode_at, SLASH};
use crate::volume::walk::{lemma_walk, tree_of, walk_of};
use crate::volume::xattrs::xattrs_of;
use crate::volume::{stat_of, Volume, WalkEntry, WalkView};

verus! {

/// The headers of extended attributes.
pub open spec fn as_pairs(xattrs: Seq<XattrView>) -> Seq<(Seq<char>, Seq<u8>)> {
    Seq::new(xattrs.len(), |i: int| (xattrs[i].name, xattrs[i].value))
}

/// What every header says of a name, whatever it is.
pub open spec fn common_header(e: WalkView) -> HeaderView {
    HeaderView {
        path: e.raw_path,
        mode: (e.stat.mode % 0o10000) as u32,
        uid: e.stat.uid,
        gid: e.stat.gid,
        mtime: e.stat.mtime,
        ..HeaderView::blank()
    }
}

/// Whether a name is one that an archive has an entry for, and that its inode
/// may have others beside.
pub open spec fn may_be_shared(e: WalkView) -> bool {
    !e.stat.spec_is_dir() && e.stat.mode & mode::IFMT != mode::IFSOCK && e.stat.links > 1
}

/// The names first seen for inodes, once `e` has been seen too.
pub open spec fn seen_after(e: WalkView, seen: Map<u64, Seq<u8>>) -> Map<u64, Seq<u8>> {
    if may_be_shared(e) && !seen.dom().contains(e.stat.inode) {
        seen.insert(e.stat.inode, e.raw_path)
    } else {
        seen
    }
}

/// The header of a name that is not a second name for anything, without its
/// extended attributes.
pub open spec fn own_header(sb: Superblock, img: Seq<u8>, e: WalkView, inode: InodeView) -> core::result::Result<
    HeaderView,
    Fault,
> {
    let h = common_header(e);
    let t = e.stat.mode & mode::IFMT;
    if t == mode::IFDIR {
        Ok(HeaderView { kind: EntryKind::Directory, path: e.raw_path.push(SLASH), ..h })
    } else if t == mode::IFLNK {
        match target_of(sb, img, inode) {
            Err(f) => Err(f),
            Ok(target) => Ok(HeaderView { kind: EntryKind::Symlink, link: target, ..h }),
        }
    } else if t == mode::IFCHR {
        Ok(HeaderView { kind: EntryKind::CharDevice, major: e.stat.rdev.0, minor: e.stat.rdev.1, ..h })
    } else if t == mode::IFBLK {
        Ok(HeaderView { kind: EntryKind::BlockDevice, major: e.stat.rdev.0, minor: e.stat.rdev.1, ..h })
    } else if t == mode::IFIFO {
        Ok(HeaderView { kind: EntryKind::Fifo, major: e.stat.rdev.0, minor: e.stat.rdev.1, ..h })
    } else if t == mode::IFREG {
        Ok(HeaderView { kind: EntryKind::File, size: e.stat.size, ..h })
    } else {
        Err(Fault::Corrupt(e.path + ": file type 0o"@ + numeral(t as nat, 8)))
    }
}

/// The header an archive has for a name, if it has one: a hard link to the
/// first name seen for the inode, or one of its own, with the inode's extended
/// attributes. Sockets, which tar has no type for, have none.
#[verifier::opaque]
pub open spec fn header_of(
    sb: Superblock,
    img: Seq<u8>,
    e: WalkView,
    inode: InodeView,
    seen: Map<u64, Seq<u8>>,
) -> core::result::Result<Option<HeaderView>, Fault> {
    if e.stat.mode & mode::IFMT == mode::IFSOCK {
        Ok(None)
    } else if may_be_shared(e) && seen.dom().contains(e.stat.inode) {
        Ok(Some(HeaderView { kind: EntryKind::HardLink, link: seen[e.stat.inode], ..common_header(e) }))
    } else {
        match xattrs_of(sb, img, inode) {
            Err(f) => Err(f),
            Ok(xattrs) => match own_header(sb, img, e, inode) {
                Err(f) => Err(f),
                Ok(h) => Ok(Some(HeaderView { xattrs: as_pairs(xattrs), ..h })),
            },
        }
    }
}

/// A file's contents from `off` on, read a chunk at a time.
pub open spec fn chunks_from(sb: Superblock, img: Seq<u8>, inode: InodeView, extents: Seq<Extent>, off: int)
    -> core::result::Result<Seq<u8>, Fault>
    decreases
        if off < inode.size {
            inode.size - off
        } else {
            0
        },
{
    if off < 0 || off >= inode.size {
        Ok(Seq::empty())
    } else {
        match contents_of(sb, img, inode, extents, off as u64, CHUNK) {
            Err(f) => Err(f),
            Ok(chunk) => prefixed(chunk, chunks_from(sb, img, inode, extents, off + CHUNK)),
        }
    }
}

/// The content that follows a header.
pub open spec fn content_of(sb: Superblock, img: Seq<u8>, inode: InodeView, h: HeaderView) -> core::result::Result<
    Seq<u8>,
    Fault,
> {
    if h.kind == EntryKind::File {
        match fork_map(sb, img, inode, false) {
            Err(f) => Err(f),
            Ok(extents) => chunks_from(sb, img, inode, extents, 0),
        }
    } else {
        Ok(Seq::empty())
    }
}

/// What there is to report on a header.
pub open spec fn tally_of(h: HeaderView) -> Tally {
    let t = Tally { xattrs: h.xattrs.len(), ..Tally::none() };
    match h.kind {
        EntryKind::File => Tally { files: 1, bytes: h.size as nat, ..t },
        EntryKind::HardLink => Tally { hard_links: 1, ..t },
        EntryKind::Symlink => Tally { symlinks: 1, ..t },
        EntryKind::Directory => Tally { directories: 1, ..t },
        _ => Tally { devices: 1, ..t },
    }
}

/// The refusal of a time that cannot be written down.
pub open spec fn bad_time(e: WalkView) -> Fault {
    Fault::Corrupt(e.path + ": modification time"@)
}

/// What an archive has for a name: header, content and padding, and what
/// there is to report on it.
#[verifier::opaque]
pub open spec fn packed_one(sb: Superblock, img: Seq<u8>, e: WalkView, seen: Map<u64, Seq<u8>>)
    -> core::result::Result<(Seq<u8>, Tally), Fault> {
    match inode_from(sb, img, e.stat.inode) {
        Err(f) => Err(f),
        Ok(inode) => match header_of(sb, img, e, inode, seen) {
            Err(f) => Err(f),
            Ok(None) => Ok((Seq::empty(), Tally { sockets_skipped: 1, ..Tally::none() })),
            Ok(Some(h)) => if !is_writable(h.mtime) {
                Err(bad_time(e))
            } else {
                match content_of(sb, img, inode, h) {
                    Err(f) => Err(f),
                    Ok(content) => Ok(
                        (
                            entry_bytes(h) + content + zero_bytes(padding(h.content_len() as nat)),
                            tally_of(h),
                        ),
                    ),
                }
            },
        },
    }
}

/// What an archive has for names, and what there is to report on them.
pub open spec fn packed(sb: Superblock, img: Seq<u8>, items: Seq<WalkView>, seen: Map<u64, Seq<u8>>)
    -> core::result::Result<(Seq<u8>, Tally), Fault>
    decreases items.len(),
{
    if items.len() == 0 {
        Ok((Seq::empty(), Tally::none()))
    } else {
        match packed_one(sb, img, items[0], seen) {
            Err(f) => Err(f),
            Ok((bytes, tally)) => match packed(sb, img, items.skip(1), seen_after(items[0], seen)) {
                Err(f) => Err(f),
                Ok((more, rest)) => Ok((bytes + more, tally.plus(rest))),
            },
        }
    }
}

/// The entries of the archive of a tree, and what there is to report on them.
pub open spec fn tree_entries(sb: Superblock, img: Seq<u8>, root: Seq<char>) -> core::result::Result<
    (Seq<u8>, Tally),
    Fault,
> {
    match tree_of(sb, img, root) {
        Err(f) => Err(f),
        Ok(items) => packed(sb, img, items, Map::empty()),
    }
}

/// The two zero blocks that end an archive.
pub open spec fn archive_end() -> Seq<u8> {
    zero_bytes((2 * BLOCK) as nat)
}

/// The archive of a tree.
pub open spec fn archive_of(sb: Superblock, img: Seq<u8>, root: Seq<char>) -> core::result::Result<Seq<u8>, Fault> {
    match tree_entries(sb, img, root) {
        Err(f) => Err(f),
        Ok((entries, _)) => Ok(entries + archive_end()),
    }
}

/// The names in a map, as contracts speak of them.
pub open spec fn names_in(m: Map<u64, Vec<u8>>) -> Map<u64, Seq<u8>> {
    m.map_values(|v: Vec<u8>| v@)
}

/// Extended attributes as a header holds them.
fn pairs(xattrs: Vec<Xattr>) -> (r: Vec<(String, Vec<u8>)>)
    ensures
        views(r@) == as_pairs(views(xattrs@)),
{
    let mut left = crate::sort::flipped(xattrs);
    let mut r: Vec<(String, Vec<u8>)> = Vec::new();
    let ghost all = as_pairs(views(xattrs@));
    while left.len() > 0
        invariant
            all == as_pairs(views(xattrs@)),
            left@.len() + r@.len() == xattrs@.len(),
            left@ == xattrs@.reverse().subrange(0, left@.len() as int),
            views(r@) == all.subrange(0, r@.len() as int),
        decreases left@.len(),
    {
        let ghost n = r@.len() as int;
        let ghost had = left@;
        if let Some(x) = left.pop() {
            let pair: (String, Vec<u8>) = (x.name, x.value);
            proof {
                assert(had[had.len() - 1] == xattrs@[n]);
                assert(pair@ == all[n]);
                lemma_views_push(r@, pair);
                assert(all.subrange(0, n + 1) =~= all.subrange(0, n).push(all[n]));
                assert(left@ =~= xattrs@.reverse().subrange(0, left@.len() as int));
            }
            r.push(pair);
        }
    }
    assert(all.subrange(0, r@.len() as int) =~= all);
    r
}

/// What every header says of a name, whatever it is.
fn start_header(e: &WalkEntry) -> (h: Header)
    ensures
        h@ == common_header(e@),
{
    let mut h = Header::default();
    h.path = cut(e.raw_path.as_slice(), 0, e.raw_path.len());
    h.mode = (e.stat.mode % 0o10000) as u32;
    h.uid = e.stat.uid;
    h.gid = e.stat.gid;
    h.mtime = e.stat.mtime;
    assert(h.path@ =~= e@.raw_path);
    assert(h@ =~= common_header(e@));
    h
}

/// Take note of the first name seen for an inode.
fn remember(seen: &mut HashMap<u64, Vec<u8>>, e: &WalkEntry)
    ensures
        names_in(final(seen)@) == seen_after(e@, names_in(old(seen)@)),
{
    broadcast use vstd::std_specs::hash::group_hash_axioms;

    let t: u16 = e.stat.mode & mode::IFMT;
    if !e.stat.is_dir() && t != mode::IFSOCK && e.stat.links > 1 && !seen.contains_key(&e.stat.inode) {
        let path = cut(e.raw_path.as_slice(), 0, e.raw_path.len());
        assert(path@ =~= e@.raw_path);
        seen.insert(e.stat.inode, path);
        assert(names_in(seen@) =~= names_in(old(seen)@).insert(e.stat.inode, e@.raw_path));
    }
}

/// Count a header in a report.
fn count(report: &mut PackReport, h: &Header, Ghost(t): Ghost<Tally>)
    requires
        old(report).reports(t),
        t.names() < u64::MAX,
    ensures
        final(report).reports(t.plus(tally_of(h@))),
{
    let n: u64 = h.xattrs.len() as u64;
    report.xattrs = mul_add(report.xattrs, 1, n);
    proof {
        lemma_wrapped_sum(t.xattrs as int, n as int);
        lemma_wrapped_sum(t.bytes as int, h.size as int);
        assert(h@.xattrs.len() == n);
    }
    match h.kind {
        EntryKind::File => {
            report.files = report.files + 1;
            report.bytes = mul_add(report.bytes, 1, h.size);
        },
        EntryKind::HardLink => {
            report.hard_links = report.hard_links + 1;
        },
        EntryKind::Symlink => {
            report.symlinks = report.symlinks + 1;
        },
        EntryKind::Directory => {
            report.directories = report.directories + 1;
        },
        EntryKind::CharDevice => {
            report.devices = report.devices + 1;
        },
        EntryKind::BlockDevice => {
            report.devices = report.devices + 1;
        },
        EntryKind::Fifo => {
            report.devices = report.devices + 1;
        },
    }
}

impl<D: BlockDevice> Volume<D> {
    /// The header of a name that is not a second name for anything.
    fn header_alone(&self, e: &WalkEntry, inode: &Inode) -> (r: Result<Header>)
        ensures
            settled(&self.dev(), outcome(r), own_header(self.sb(), self.img(), e@, inode@)),
    {
        let mut h = start_header(e);
        let t: u16 = e.stat.mode & mode::IFMT;
        if t == mode::IFDIR {
            h.kind = EntryKind::Directory;
            h.path.push(SLASH);
        } else if t == mode::IFLNK {
            h.kind = EntryKind::Symlink;
            h.link = self.symlink_target(inode)?;
        } else if t == mode::IFCHR || t == mode::IFBLK || t == mode::IFIFO {
            h.kind = if t == mode::IFCHR {
                EntryKind::CharDevice
            } else if t == mode::IFBLK {
                EntryKind::BlockDevice
            } else {
                EntryKind::Fifo
            };
            h.major = e.stat.rdev.0;
            h.minor = e.stat.rdev.1;
        } else if t == mode::IFREG {
            h.kind = EntryKind::File;
            h.size = e.stat.size;
        } else {
            let mut what = String::from_str(e.path.as_str());
            what.append(": file type 0o");
            push_numeral(&mut what, t as u128, 8);
            return Err(Error::Corrupt(what));
        }
        Ok(h)
    }

    /// The header an archive has for a name, if it has one.
    fn plan_header(&self, e: &WalkEntry, inode: &Inode, seen: &HashMap<u64, Vec<u8>>) -> (r: Result<Option<Header>>)
        ensures
            settled(
                &self.dev(),
                match r {
                    Ok(Some(h)) => Ok(Some(h@)),
                    Ok(None) => Ok(None),
                    Err(x) => Err(x@),
                },
                header_of(self.sb(), self.img(), e@, inode@, names_in(seen@)),
            ),
    {
        broadcast use vstd::std_specs::hash::group_hash_axioms;

        reveal(header_of);
        if e.stat.mode & mode::IFMT == mode::IFSOCK {
            return Ok(None);
        }
        if !e.stat.is_dir() && e.stat.links > 1 {
            if let Some(first) = seen.get(&e.stat.inode) {
                let mut h = start_header(e);
                h.kind = EntryKind::HardLink;
                h.link = cut(first.as_slice(), 0, first.len());
                assert(h.link@ =~= names_in(seen@)[e.stat.inode]);
                return Ok(Some(h));
            }
        }
        let xattrs = self.xattrs_inode(inode)?;
        let mut h = self.header_alone(e, inode)?;
        h.xattrs = pairs(xattrs);
        Ok(Some(h))
    }

    /// The next piece of a file's contents, from `off` on, and `off` moved past
    /// it; none once `off` is at the end.
    pub fn next_chunk(&self, inode: &Inode, extents: &[Extent], off: &mut u64) -> (r: Result<Option<Vec<u8>>>)
        requires
            forall|i: int| 0 <= i < extents@.len() ==> (#[trigger] extents@[i]).is_numbered(),
        ensures
            ({
                let want = contents_of(self.sb(), self.img(), inode@, extents@, *old(off), CHUNK);
                match r {
                    Ok(Some(chunk)) => {
                        &&& *old(off) < inode@.size
                        &&& want == Ok::<Seq<u8>, Fault>(chunk@)
                        &&& chunk@.len() == clipped(inode@.size, *old(off), CHUNK)
                        &&& *final(off) == *old(off) + chunk@.len()
                    },
                    Ok(None) => *old(off) >= inode@.size && *final(off) == *old(off),
                    Err(e) => {
                        &&& *old(off) < inode@.size
                        &&& want == Err::<Seq<u8>, Fault>(e@) || (self.dev().may_fail(e@) && reads_blocks(
                            self.sb(),
                            inode@,
                            extents@,
                            *old(off),
                            CHUNK,
                        ))
                        &&& *final(off) == *old(off)
                    },
                }
            }),
    {
        if *off >= inode.size {
            return Ok(None);
        }
        let chunk = self.read_inode_range(inode, extents, *off, CHUNK)?;
        *off = *off + chunk.len() as u64;
        Ok(Some(chunk))
    }

    /// Write a file's contents, which a header before them announced.
    fn copy_out<K: Sink>(&self, w: &mut Writer<K>, inode: &Inode) -> (r: Result<()>)
        requires
            old(w).owed() == inode@.size,
        ensures
            ({
                let want = match fork_map(self.sb(), self.img(), inode@, false) {
                    Err(f) => Err(f),
                    Ok(extents) => chunks_from(self.sb(), self.img(), inode@, extents, 0),
                };
                match r {
                    Ok(_) => {
                        &&& want is Ok
                        &&& final(w).written() == old(w).written() + want->Ok_0
                        &&& final(w).owed() == 0
                        &&& final(w).pad() == old(w).pad()
                    },
                    Err(e) => self.dev().may_fail(e@) || K::may_refuse(e@) || want == Err::<Seq<u8>, Fault>(e@),
                }
            }),
    {
        let extents = self.extents(inode, false)?;
        let mut off: u64 = 0;
        let ghost want = chunks_from(self.sb(), self.img(), inode@, extents@, 0);
        let ghost mut at: int = 0;
        let ghost mut got: Seq<u8> = Seq::empty();
        proof {
            crate::error::lemma_prefixed(got, got, want);
            assert(w.written() + got =~= w.written());
        }
        while off < inode.size
            invariant
                crate::bmap::is_fork_map(extents@),
                off <= inode@.size,
                w.owed() == inode@.size - off,
                w.pad() == old(w).pad(),
                w.written() == old(w).written() + got,
                off < inode@.size ==> at == off,
                off == inode@.size ==> at >= off,
                0 <= at,
                want == chunks_from(self.sb(), self.img(), inode@, extents@, 0),
                want == prefixed(got, chunks_from(self.sb(), self.img(), inode@, extents@, at)),
                fork_map(self.sb(), self.img(), inode@, false) == Ok::<Seq<Extent>, Fault>(extents@),
            decreases inode@.size - off,
        {
            let chunk = match self.next_chunk(inode, extents.as_slice(), &mut off)? {
                Some(chunk) => chunk,
                None => return Ok(()),
            };
            proof {
                crate::error::lemma_prefixed(
                    got,
                    chunk@,
                    chunks_from(self.sb(), self.img(), inode@, extents@, at + CHUNK),
                );
                assert(old(w).written() + got + chunk@ =~= old(w).written() + (got + chunk@));
                got = got + chunk@;
                at = at + CHUNK;
            }
            w.data(chunk.as_slice())?;
        }
        assert(got + Seq::<u8>::empty() =~= got);
        Ok(())
    }

    /// Write what an archive has for a name, and count it.
    fn pack_one<K: Sink>(
        &self,
        w: &mut Writer<K>,
        e: &WalkEntry,
        seen: &mut HashMap<u64, Vec<u8>>,
        report: &mut PackReport,
        Ghost(t): Ghost<Tally>,
    ) -> (r: Result<()>)
        requires
            old(w).owed() == 0,
            old(report).reports(t),
            t.names() < u64::MAX,
            inode_from(self.sb(), self.img(), e@.stat.inode) matches Ok(inode) ==> e@.stat == stat_of(
                self.sb(),
                inode,
            ),
        ensures
            ({
                let want = packed_one(self.sb(), self.img(), e@, names_in(old(seen)@));
                match r {
                    Ok(_) => {
                        &&& want is Ok
                        &&& final(w).owed() == 0
                        &&& final(w).written() + zero_bytes(final(w).pad()) == old(w).written() + zero_bytes(
                            old(w).pad(),
                        ) + want->Ok_0.0
                        &&& final(report).reports(t.plus(want->Ok_0.1))
                        &&& names_in(final(seen)@) == seen_after(e@, names_in(old(seen)@))
                    },
                    Err(x) => self.dev().may_fail(x@) || K::may_refuse(x@) || want == Err::<(Seq<u8>, Tally), Fault>(
                        x@,
                    ),
                }
            }),
    {
        reveal(packed_one);
        let ghost before = w.written() + zero_bytes(w.pad());
        let inode = self.inode(e.stat.inode)?;
        let plan = self.plan_header(e, &inode, seen)?;
        proof {
            lemma_header_size(self.sb(), self.img(), e@, inode@, names_in(seen@));
        }
        remember(seen, e);
        match plan {
            None => {
                report.sockets_skipped = report.sockets_skipped + 1;
                assert(before + Seq::<u8>::empty() =~= before);
                Ok(())
            },
            Some(h) => {
                if h.mtime.secs < 0 && h.mtime.nsecs > 1_000_000_000 {
                    let mut what = String::from_str(e.path.as_str());
                    what.append(": modification time");
                    return Err(Error::Corrupt(what));
                }
                w.begin(&h)?;
                if h.kind == EntryKind::File {
                    self.copy_out(w, &inode)?;
                }
                count(report, &h, Ghost(t));
                proof {
                    let content = content_of(self.sb(), self.img(), inode@, h@)->Ok_0;
                    let pad = zero_bytes(padding(h@.content_len() as nat));
                    assert(w.written() =~= before + entry_bytes(h@) + content);
                    assert(before + entry_bytes(h@) + content + pad =~= before + (entry_bytes(h@) + content + pad));
                }
                Ok(())
            },
        }
    }
}

/// Whether what a walk says of a name is what the name's inode says.
pub open spec fn is_true_of(sb: Superblock, img: Seq<u8>, e: WalkView) -> bool {
    inode_from(sb, img, e.stat.inode) matches Ok(inode) ==> e.stat == stat_of(sb, inode)
}

/// What a tree says of its names is what their inodes say.
pub proof fn lemma_tree_is_true(sb: Superblock, img: Seq<u8>, root: Seq<char>)
    requires
        tree_of(sb, img, root) is Ok,
    ensures
        forall|i: int| 0 <= i < tree_of(sb, img, root)->Ok_0.len() ==> is_true_of(sb, img, #[trigger] tree_of(
            sb,
            img,
            root,
        )->Ok_0[i]),
{
    lemma_walk(sb, img, root);
    let items = walk_of(sb, img, root).0;
    let tree = tree_of(sb, img, root)->Ok_0;
    assert forall|i: int| 0 <= i < tree.len() implies is_true_of(sb, img, #[trigger] tree[i]) by {
        assert(tree[i] == items[i].0);
    }
}

impl<D: BlockDevice> Volume<D> {
    /// Write the entries of a tree's archive.
    pub fn pack_into<K: Sink>(&self, w: &mut Writer<K>, root: &str) -> (r: Result<PackReport>)
        requires
            old(w).owed() == 0,
        ensures
            ({
                let want = tree_entries(self.sb(), self.img(), root@);
                match r {
                    Ok(report) => {
                        &&& want is Ok
                        &&& report.reports(want->Ok_0.1)
                        &&& report.names() == tree_of(self.sb(), self.img(), root@)->Ok_0.len()
                        &&& final(w).owed() == 0
                        &&& final(w).written() + zero_bytes(final(w).pad()) == old(w).written() + zero_bytes(
                            old(w).pad(),
                        ) + want->Ok_0.0
                    },
                    Err(x) => self.dev().may_fail(x@) || K::may_refuse(x@) || want == Err::<(Seq<u8>, Tally), Fault>(
                        x@,
                    ),
                }
            }),
    {
        broadcast use vstd::std_specs::hash::group_hash_axioms;

        let items = self.walk(root)?;
        let mut report = PackReport::default();
        let mut seen: HashMap<u64, Vec<u8>> = HashMap::new();
        let mut i: usize = 0;
        let ghost start = w.written() + zero_bytes(w.pad());
        let ghost all = views(items@);
        let ghost want = packed(self.sb(), self.img(), all, Map::empty());
        let ghost mut done: (Seq<u8>, Tally) = (Seq::empty(), Tally::none());
        proof {
            lemma_tree_is_true(self.sb(), self.img(), root@);
            assert(all.skip(0) =~= all);
            assert(names_in(seen@) =~= Map::<u64, Seq<u8>>::empty());
            assert(start + Seq::<u8>::empty() =~= start);
            lemma_joined_none(want);
        }
        while i < items.len()
            invariant
                i <= items@.len(),
                all == views(items@),
                start == old(w).written() + zero_bytes(old(w).pad()),
                tree_of(self.sb(), self.img(), root@) == Ok::<Seq<WalkView>, Fault>(all),
                want == tree_entries(self.sb(), self.img(), root@),
                forall|k: int| 0 <= k < all.len() ==> is_true_of(self.sb(), self.img(), #[trigger] all[k]),
                w.owed() == 0,
                w.written() + zero_bytes(w.pad()) == start + done.0,
                report.reports(done.1),
                done.1.names() == i,
                want == joined_to(
                    done,
                    packed(self.sb(), self.img(), all.skip(i as int), names_in(seen@)),
                ),
            decreases items@.len() - i,
        {
            let ghost left = all.skip(i as int);
            let ghost names = names_in(seen@);
            proof {
                assert(left[0] == all[i as int]);
                assert(is_true_of(self.sb(), self.img(), all[i as int]));
                assert(left.skip(1) =~= all.skip(i + 1));
            }
            self.pack_one(w, &items[i], &mut seen, &mut report, Ghost(done.1))?;
            proof {
                let one = packed_one(self.sb(), self.img(), left[0], names)->Ok_0;
                let rest = packed(self.sb(), self.img(), left.skip(1), names_in(seen@));
                assert(start + done.0 + one.0 =~= start + (done.0 + one.0));
                lemma_tally_names(self.sb(), self.img(), left[0], names);
                lemma_joined_to(done, one, rest);
                done = (done.0 + one.0, done.1.plus(one.1));
            }
            i += 1;
        }
        proof {
            assert(done.0 + Seq::<u8>::empty() =~= done.0);
        }
        Ok(report)
    }

    /// Pack a tree into a tar archive held in memory.
    pub fn pack_tar(&self, root: &str) -> (r: Result<Vec<u8>>)
        ensures
            settled(&self.dev(), outcome(r), archive_of(self.sb(), self.img(), root@)),
    {
        let empty: Vec<u8> = Vec::new();
        let mut writer = Writer::new(empty);
        self.pack_into(&mut writer, root)?;
        writer.finish()?;
        let out = writer.into_inner();
        proof {
            let entries = tree_entries(self.sb(), self.img(), root@)->Ok_0.0;
            assert(Seq::<u8>::empty() + zero_bytes(0) + entries =~= entries);
            assert(out@ =~= entries + archive_end());
        }
        Ok(out)
    }

    /// Pack a tree into a tar archive written to a stream.
    ///
    /// Names are relative to `root` and in sorted order, so the same tree
    /// always makes the same archive. Modes, ownership, modification times
    /// (to the nanosecond), symlinks, hard links, device nodes and extended
    /// attributes are all carried; sockets are left out, as tar has no type
    /// for them. The root directory itself is not an entry.
    pub fn pack_tar_to<K: Sink>(&self, sink: K, root: &str) -> (r: Result<PackReport>)
        ensures
            match r {
                Ok(report) => {
                    &&& tree_entries(self.sb(), self.img(), root@) is Ok
                    &&& report.reports(tree_entries(self.sb(), self.img(), root@)->Ok_0.1)
                    &&& report.names() == tree_of(self.sb(), self.img(), root@)->Ok_0.len()
                    &&& archive_of(self.sb(), self.img(), root@) is Ok
                    &&& exists|done: K|
                        #[trigger] done.written() == sink.written() + archive_of(
                            self.sb(),
                            self.img(),
                            root@,
                        )->Ok_0 && done.is_flushed()
                },
                Err(x) => self.dev().may_fail(x@) || K::may_refuse(x@) || archive_of(self.sb(), self.img(), root@)
                    == Err::<Seq<u8>, Fault>(x@),
            },
    {
        let mut writer = Writer::new(sink);
        let report = self.pack_into(&mut writer, root)?;
        writer.finish()?;
        let done = writer.into_inner();
        proof {
            let entries = tree_entries(self.sb(), self.img(), root@)->Ok_0.0;
            assert(sink.written() + zero_bytes(0) + entries + archive_end() =~= sink.written() + (entries
                + archive_end()));
        }
        Ok(report)
    }
}

/// `rest`, with `front` before it where it is an archive at all.
spec fn joined_to(front: (Seq<u8>, Tally), rest: core::result::Result<(Seq<u8>, Tally), Fault>)
    -> core::result::Result<(Seq<u8>, Tally), Fault> {
    match rest {
        Ok((bytes, tally)) => Ok((front.0 + bytes, front.1.plus(tally))),
        Err(f) => Err(f),
    }
}

proof fn lemma_joined_none(rest: core::result::Result<(Seq<u8>, Tally), Fault>)
    ensures
        joined_to((Seq::empty(), Tally::none()), rest) == rest,
{
    if let Ok((bytes, tally)) = rest {
        assert(Seq::<u8>::empty() + bytes =~= bytes);
    }
}

proof fn lemma_joined_to(
    a: (Seq<u8>, Tally),
    b: (Seq<u8>, Tally),
    rest: core::result::Result<(Seq<u8>, Tally), Fault>,
)
    ensures
        joined_to(a, joined_to(b, rest)) == joined_to((a.0 + b.0, a.1.plus(b.1)), rest),
{
    if let Ok((bytes, tally)) = rest {
        assert(a.0 + (b.0 + bytes) =~= a.0 + b.0 + bytes);
    }
}

proof fn lemma_tally_names(sb: Superblock, img: Seq<u8>, e: WalkView, seen: Map<u64, Seq<u8>>)
    ensures
        packed_one(sb, img, e, seen) matches Ok((_, tally)) ==> tally.names() == 1,
{
    reveal(packed_one);
}

proof fn lemma_chunks_len(sb: Superblock, img: Seq<u8>, inode: InodeView, extents: Seq<Extent>, off: int)
    requires
        sb.wf(),
        0 <= off,
        chunks_from(sb, img, inode, extents, off) is Ok,
    ensures
        chunks_from(sb, img, inode, extents, off)->Ok_0.len() == if off < inode.size {
            inode.size - off
        } else {
            0
        },
    decreases
        if off < inode.size {
            inode.size - off
        } else {
            0
        },
{
    if off < inode.size {
        lemma_chunks_len(sb, img, inode, extents, off + CHUNK);
        crate::volume::map::lemma_contents_len(sb, img, inode, extents, off as u64, CHUNK);
    }
}

/// A file's header says how long the file is.
proof fn lemma_header_size(sb: Superblock, img: Seq<u8>, e: WalkView, inode: InodeView, seen: Map<u64, Seq<u8>>)
    requires
        e.stat == stat_of(sb, inode),
    ensures
        header_of(sb, img, e, inode, seen) matches Ok(Some(h)) ==> h.kind == EntryKind::File ==> h.size == inode.size,
{
    reveal(header_of);
}

/// The content that follows a header is as long as the header says.
pub proof fn lemma_content_len(sb: Superblock, img: Seq<u8>, inode: InodeView, h: HeaderView)
    requires
        sb.wf(),
        h.kind == EntryKind::File ==> h.size == inode.size,
        content_of(sb, img, inode, h) is Ok,
    ensures
        content_of(sb, img, inode, h)->Ok_0.len() == h.content_len(),
{
    if h.kind == EntryKind::File {
        lemma_chunks_len(sb, img, inode, fork_map(sb, img, inode, false)->Ok_0, 0);
    }
}

proof fn lemma_three_parts(a: nat, b: nat, c: nat)
    requires
        a % BLOCK as nat == 0,
        (b + c) % BLOCK as nat == 0,
    ensures
        (a + b + c) % BLOCK as nat == 0,
{
}

proof fn lemma_one_is_whole_blocks(sb: Superblock, img: Seq<u8>, e: WalkView, seen: Map<u64, Seq<u8>>)
    requires
        sb.wf(),
        is_true_of(sb, img, e),
        packed_one(sb, img, e, seen) is Ok,
    ensures
        packed_one(sb, img, e, seen)->Ok_0.0.len() % BLOCK as nat == 0,
{
    reveal(packed_one);
    let inode = inode_from(sb, img, e.stat.inode)->Ok_0;
    lemma_header_size(sb, img, e, inode, seen);
    if let Ok(Some(h)) = header_of(sb, img, e, inode, seen) {
        let content = content_of(sb, img, inode, h)->Ok_0;
        let pad = padding(h.content_len() as nat);
        lemma_content_len(sb, img, inode, h);
        lemma_whole_blocks(h);
        lemma_three_parts(entry_bytes(h).len(), content.len(), pad);
        assert(packed_one(sb, img, e, seen)->Ok_0.0.len() == entry_bytes(h).len() + content.len() + pad);
    }
}

proof fn lemma_counted(sb: Superblock, img: Seq<u8>, items: Seq<WalkView>, seen: Map<u64, Seq<u8>>)
    requires
        packed(sb, img, items, seen) is Ok,
    ensures
        packed(sb, img, items, seen)->Ok_0.1.names() == items.len(),
    decreases items.len(),
{
    if items.len() > 0 {
        lemma_tally_names(sb, img, items[0], seen);
        lemma_counted(sb, img, items.skip(1), seen_after(items[0], seen));
    }
}

/// What names have in an archive is whole blocks.
pub proof fn lemma_packed(sb: Superblock, img: Seq<u8>, items: Seq<WalkView>, seen: Map<u64, Seq<u8>>)
    requires
        sb.wf(),
        forall|i: int| 0 <= i < items.len() ==> is_true_of(sb, img, #[trigger] items[i]),
        packed(sb, img, items, seen) is Ok,
    ensures
        packed(sb, img, items, seen)->Ok_0.0.len() % BLOCK as nat == 0,
    decreases items.len(),
{
    if items.len() > 0 {
        assert(is_true_of(sb, img, items[0]));
        lemma_one_is_whole_blocks(sb, img, items[0], seen);
        lemma_packed(sb, img, items.skip(1), seen_after(items[0], seen));
    }
}

/// The archive of a tree is whole blocks.
pub proof fn lemma_archive_is_whole_blocks(sb: Superblock, img: Seq<u8>, root: Seq<char>)
    requires
        sb.wf(),
        archive_of(sb, img, root) is Ok,
    ensures
        archive_of(sb, img, root)->Ok_0.len() % BLOCK as nat == 0,
{
    lemma_tree_is_true(sb, img, root);
    lemma_packed(sb, img, tree_of(sb, img, root)->Ok_0, Map::empty());
}

/// Every name of a tree is reported on once: files, directories, symlinks, hard
/// links, devices and sockets left out are together as many as a walk lists.
pub proof fn lemma_every_name_is_counted(sb: Superblock, img: Seq<u8>, root: Seq<char>)
    requires
        tree_entries(sb, img, root) is Ok,
    ensures
        tree_of(sb, img, root) is Ok,
        tree_entries(sb, img, root)->Ok_0.1.names() == tree_of(sb, img, root)->Ok_0.len(),
{
    lemma_counted(sb, img, tree_of(sb, img, root)->Ok_0, Map::empty());
}

/// Two packings of one tree agree: what either adds to its stream is the same
/// byte for byte, and so are their reports.
pub proof fn lemma_packings_agree(
    sb: Superblock,
    img: Seq<u8>,
    root: Seq<char>,
    before: Seq<u8>,
    after: Seq<u8>,
    report: PackReport,
    before2: Seq<u8>,
    after2: Seq<u8>,
    report2: PackReport,
)
    requires
        archive_of(sb, img, root) is Ok,
        after == before + archive_of(sb, img, root)->Ok_0,
        after2 == before2 + archive_of(sb, img, root)->Ok_0,
        report.reports(tree_entries(sb, img, root)->Ok_0.1),
        report2.reports(tree_entries(sb, img, root)->Ok_0.1),
    ensures
        after.skip(before.len() as int) == after2.skip(before2.len() as int),
        report == report2,
{
    let archive = archive_of(sb, img, root)->Ok_0;
    assert(after.skip(before.len() as int) =~= archive);
    assert(after2.skip(before2.len() as int) =~= archive);
}

/// The directory a tree is packed from is not itself an entry.
pub proof fn lemma_root_is_no_entry(sb: Superblock, img: Seq<u8>, root: Seq<char>)
    requires
        tree_of(sb, img, root) is Ok,
    ensures
        inode_at(sb, img, root, true) is Ok,
        forall|i: int|
            0 <= i < tree_of(sb, img, root)->Ok_0.len() ==> (#[trigger] tree_of(sb, img, root)->Ok_0[i]).stat.inode
                != inode_at(sb, img, root, true)->Ok_0.ino,
{
    reveal(walk_of);
    lemma_walk(sb, img, root);
    lemma_inode_at(sb, img, root, true);
    let top = inode_at(sb, img, root, true)->Ok_0;
    let items = walk_of(sb, img, root).0;
    let tree = tree_of(sb, img, root)->Ok_0;
    assert forall|i: int| 0 <= i < tree.len() implies (#[trigger] tree[i]).stat.inode != top.ino by {
        assert(tree[i] == items[i].0);
    }
}

/// The names first seen for inodes, once `items` have been seen after `seen`.
pub open spec fn seen_from(items: Seq<WalkView>, seen: Map<u64, Seq<u8>>) -> Map<u64, Seq<u8>>
    decreases items.len(),
{
    if items.len() == 0 {
        seen
    } else {
        seen_after(items.last(), seen_from(items.drop_last(), seen))
    }
}

/// The names first seen for inodes, once `items` have been seen.
pub open spec fn seen_of(items: Seq<WalkView>) -> Map<u64, Seq<u8>> {
    seen_from(items, Map::empty())
}

proof fn lemma_seen_from_front(items: Seq<WalkView>, seen: Map<u64, Seq<u8>>)
    requires
        items.len() > 0,
    ensures
        seen_from(items, seen) == seen_from(items.skip(1), seen_after(items[0], seen)),
    decreases items.len(),
{
    if items.len() == 1 {
        assert(items.drop_last() =~= Seq::<WalkView>::empty());
        assert(items.skip(1) =~= Seq::<WalkView>::empty());
        assert(seen_from(items.drop_last(), seen) == seen);
    } else {
        lemma_seen_from_front(items.drop_last(), seen);
        assert(items.drop_last().skip(1) =~= items.skip(1).drop_last());
    }
}

proof fn lemma_packed_last_from(sb: Superblock, img: Seq<u8>, items: Seq<WalkView>, seen: Map<u64, Seq<u8>>)
    requires
        items.len() > 0,
        packed(sb, img, items, seen) is Ok,
    ensures
        ({
            let (bytes, tally) = packed(sb, img, items, seen)->Ok_0;
            let front = packed(sb, img, items.drop_last(), seen);
            let last = packed_one(sb, img, items.last(), seen_from(items.drop_last(), seen));
            &&& front is Ok
            &&& last is Ok
            &&& bytes == front->Ok_0.0 + last->Ok_0.0
            &&& tally == front->Ok_0.1.plus(last->Ok_0.1)
        }),
    decreases items.len(),
{
    let rest = items.skip(1);
    let next = seen_after(items[0], seen);
    let front = items.drop_last();
    let one = packed_one(sb, img, items[0], seen)->Ok_0;
    if items.len() == 1 {
        assert(front =~= Seq::<WalkView>::empty());
        assert(rest =~= Seq::<WalkView>::empty());
        assert(packed(sb, img, rest, next) == Ok::<(Seq<u8>, Tally), Fault>((Seq::empty(), Tally::none())));
        assert(one.0 + Seq::<u8>::empty() =~= Seq::<u8>::empty() + one.0);
    } else {
        lemma_packed_last_from(sb, img, rest, next);
        lemma_seen_from_front(front, seen);
        assert(front.skip(1) =~= rest.drop_last());
        assert(front[0] == items[0]);
        let a = packed(sb, img, rest.drop_last(), next)->Ok_0;
        let b = packed_one(sb, img, items.last(), seen_from(rest.drop_last(), next))->Ok_0;
        assert(one.0 + (a.0 + b.0) =~= one.0 + a.0 + b.0);
    }
}

/// An archive has what its names have, one after another, each given the names
/// before it.
pub proof fn lemma_packed_last(sb: Superblock, img: Seq<u8>, items: Seq<WalkView>)
    requires
        items.len() > 0,
        packed(sb, img, items, Map::empty()) is Ok,
    ensures
        ({
            let (bytes, tally) = packed(sb, img, items, Map::empty())->Ok_0;
            let front = packed(sb, img, items.drop_last(), Map::empty());
            let last = packed_one(sb, img, items.last(), seen_of(items.drop_last()));
            &&& front is Ok
            &&& last is Ok
            &&& bytes == front->Ok_0.0 + last->Ok_0.0
            &&& tally == front->Ok_0.1.plus(last->Ok_0.1)
        }),
{
    lemma_packed_last_from(sb, img, items, Map::empty());
}

/// The first name of an inode has an entry of its own, under its own path: a
/// hard link points to something that is in the archive.
pub proof fn lemma_first_name_has_entry(sb: Superblock, img: Seq<u8>, items: Seq<WalkView>, j: int, inode: InodeView)
    requires
        0 <= j < items.len(),
        may_be_shared(items[j]),
        forall|k: int|
            0 <= k < j && may_be_shared(#[trigger] items[k]) ==> items[k].stat.inode != items[j].stat.inode,
    ensures
        header_of(sb, img, items[j], inode, seen_of(items.take(j))) matches Ok(plan) ==> plan is Some
            && plan->Some_0.kind != EntryKind::HardLink && plan->Some_0.path == items[j].raw_path,
{
    reveal(header_of);
    let front = items.take(j);
    let ino = items[j].stat.inode;
    if seen_of(front).dom().contains(ino) {
        lemma_links_point_back(front, ino);
        let k = choose|k: int|
            0 <= k < front.len() && (#[trigger] front[k]).stat.inode == ino && may_be_shared(front[k])
                && front[k].raw_path == seen_of(front)[ino] && forall|m: int|
                0 <= m < k && may_be_shared(#[trigger] front[m]) ==> front[m].stat.inode != ino;
        assert(front[k] == items[k]);
    }
}

/// What a hard link points to is the path of a name met before it, and that of
/// the first name of its inode.
pub proof fn lemma_links_point_back(items: Seq<WalkView>, ino: u64)
    requires
        seen_of(items).dom().contains(ino),
    ensures
        exists|j: int|
            0 <= j < items.len() && (#[trigger] items[j]).stat.inode == ino && may_be_shared(items[j])
                && items[j].raw_path == seen_of(items)[ino] && forall|k: int|
                0 <= k < j && may_be_shared(#[trigger] items[k]) ==> items[k].stat.inode != ino,
    decreases items.len(),
{
    if items.len() > 0 {
        let front = items.drop_last();
        if seen_of(front).dom().contains(ino) {
            lemma_links_point_back(front, ino);
            let j = choose|j: int|
                0 <= j < front.len() && (#[trigger] front[j]).stat.inode == ino && may_be_shared(front[j])
                    && front[j].raw_path == seen_of(front)[ino] && forall|k: int|
                    0 <= k < j && may_be_shared(#[trigger] front[k]) ==> front[k].stat.inode != ino;
            assert(items[j] == front[j]);
            assert forall|k: int| 0 <= k < j && may_be_shared(#[trigger] items[k]) implies items[k].stat.inode
                != ino by {
                assert(front[k] == items[k]);
            }
        } else {
            lemma_unseen(front, ino);
            let j = items.len() - 1;
            assert(items[j].stat.inode == ino);
            assert forall|k: int| 0 <= k < j && may_be_shared(#[trigger] items[k]) implies items[k].stat.inode
                != ino by {
                assert(front[k] == items[k]);
            }
        }
    }
}

/// An inode has no name among those that did not make it known.
pub proof fn lemma_unseen(items: Seq<WalkView>, ino: u64)
    requires
        !seen_of(items).dom().contains(ino),
    ensures
        forall|k: int| 0 <= k < items.len() && may_be_shared(#[trigger] items[k]) ==> items[k].stat.inode != ino,
    decreases items.len(),
{
    if items.len() > 0 {
        let front = items.drop_last();
        lemma_unseen(front, ino);
        assert forall|k: int| 0 <= k < items.len() && may_be_shared(#[trigger] items[k]) implies items[k].stat.inode
            != ino by {
            if k < front.len() {
                assert(front[k] == items[k]);
            }
        }
    }
}

} // verus!
