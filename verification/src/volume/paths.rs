//! Paths, and everything that is read by one.

use vstd::prelude::*;
use vstd::string::*;
use vstd::utf8::encode_utf8;

use crate::attr::{Xattr, XattrView};
use crate::bytes::{cut, lemma_views_push, views};
use crate::device::{settled, BlockDevice};
use crate::error::{list_outcome, outcome, verdict, Error, Fault, Result};
use crate::inode::{mode, Inode, InodeView};
use crate::sb::Superblock;
use crate::text::{lossy, lossy_text, same_text};
use crate::volume::blocks::{inode_from, lemma_inode_from};
use crate::volume::links::target_of;
use crate::volume::map::{contents_of, fork_map};
use crate::volume::names::{child_of, dot, listing};
use crate::volume::xattrs::xattrs_of;
use crate::volume::{stat_of, Entry, EntryView, Stat, Volume};

verus! {

/// Symbolic links followed while resolving one path, as Linux allows.
pub const MAX_SYMLINKS: u32 = 40;

/// The byte `/`.
pub const SLASH: u8 = 47;

/// The place of the first `/` in `path` from `i` on, or its end.
pub open spec fn next_slash(path: Seq<u8>, i: int) -> int
    decreases path.len() - i,
{
    if i >= path.len() || path[i] == SLASH {
        i
    } else {
        next_slash(path, i + 1)
    }
}

/// A piece of a path between slashes, as a list: empty if it names nothing.
pub open spec fn kept(piece: Seq<u8>) -> Seq<Seq<u8>> {
    if piece.len() == 0 || piece == dot() {
        Seq::empty()
    } else {
        seq![piece]
    }
}

/// The components of a path from byte `i` on.
pub open spec fn components_from(path: Seq<u8>, i: int) -> Seq<Seq<u8>>
    decreases path.len() + 1 - i,
{
    if i < 0 || i > path.len() {
        Seq::empty()
    } else {
        proof {
            lemma_next_slash(path, i);
        }
        let j = next_slash(path, i);
        kept(path.subrange(i, j)) + components_from(path, j + 1)
    }
}

/// The components of a path, without empty ones and `.`.
pub open spec fn components(path: Seq<u8>) -> Seq<Seq<u8>> {
    components_from(path, 0)
}

/// There is no `/` before the first one.
pub proof fn lemma_next_slash(path: Seq<u8>, i: int)
    requires
        0 <= i <= path.len(),
    ensures
        i <= next_slash(path, i) <= path.len(),
        forall|k: int| i <= k < next_slash(path, i) ==> path[k] != SLASH,
    decreases path.len() - i,
{
    if i < path.len() && path[i] != SLASH {
        lemma_next_slash(path, i + 1);
    }
}

proof fn lemma_components_from(path: Seq<u8>, i: int)
    requires
        0 <= i,
    ensures
        forall|k: int|
            0 <= k < components_from(path, i).len() ==> {
                let c = #[trigger] components_from(path, i)[k];
                c.len() > 0 && c != dot() && !c.contains(SLASH)
            },
    decreases path.len() + 1 - i,
{
    if i <= path.len() {
        lemma_next_slash(path, i);
        let j = next_slash(path, i);
        lemma_components_from(path, j + 1);
        let piece = path.subrange(i, j);
        let rest = components_from(path, j + 1);
        assert(!piece.contains(SLASH)) by {
            if piece.contains(SLASH) {
                let k = choose|k: int| 0 <= k < piece.len() && piece[k] == SLASH;
                assert(path[i + k] == SLASH);
            }
        }
        let all = components_from(path, i);
        assert forall|k: int| 0 <= k < all.len() implies {
            let c = #[trigger] all[k];
            c.len() > 0 && c != dot() && !c.contains(SLASH)
        } by {
            let n = kept(piece).len();
            if k >= n {
                assert(all[k] == rest[k - n]);
            }
        }
    }
}

/// No component of a path is empty or `.` or has a `/` in it.
pub proof fn lemma_components(path: Seq<u8>)
    ensures
        forall|k: int|
            0 <= k < components(path).len() ==> {
                let c = #[trigger] components(path)[k];
                c.len() > 0 && c != dot() && !c.contains(SLASH)
            },
{
    lemma_components_from(path, 0);
}

/// The components of a path.
fn split(path: &[u8]) -> (r: Vec<Vec<u8>>)
    ensures
        views(r@) == components(path@),
{
    let len: usize = path.len();
    let mut out: Vec<Vec<u8>> = Vec::new();
    let mut start: usize = 0;
    let mut done: bool = false;
    assert(views(out@) =~= Seq::<Seq<u8>>::empty());
    while !done
        invariant
            len == path@.len(),
            start <= len,
            !done ==> components(path@) == views(out@) + components_from(path@, start as int),
            done ==> components(path@) == views(out@),
        decreases (if done {
            0
        } else {
            len + 1 - start
        }),
    {
        let mut j: usize = start;
        while j < len && path[j] != SLASH
            invariant
                start <= j <= len,
                len == path@.len(),
                next_slash(path@, start as int) == next_slash(path@, j as int),
            decreases len - j,
        {
            j += 1;
        }
        let piece = cut(path, start, j);
        let ghost rest = components_from(path@, j + 1);
        let names: bool = piece.len() > 0 && !(piece.len() == 1 && piece[0] == 46);
        proof {
            if piece@.len() == 1 && piece@[0] == 46 {
                assert(piece@ =~= dot());
            }
            lemma_views_push(out@, piece);
            assert(views(out@).push(piece@) + rest =~= views(out@) + (seq![piece@] + rest));
            assert(views(out@) + rest =~= views(out@) + (Seq::<Seq<u8>>::empty() + rest));
        }
        if names {
            out.push(piece);
        }
        if j == len {
            assert(views(out@) + Seq::<Seq<u8>>::empty() =~= views(out@));
            done = true;
        } else {
            start = j + 1;
        }
    }
    out
}

/// Where the components `comps` lead from inode `cur`, `links` symbolic links
/// having been followed. Symlinks on the way are followed, the last component
/// only when `follow` is set; an absolute target starts over at this
/// filesystem's root.
pub open spec fn led(
    sb: Superblock,
    img: Seq<u8>,
    shown: Seq<char>,
    follow: bool,
    cur: u64,
    comps: Seq<Seq<u8>>,
    links: int,
) -> core::result::Result<u64, Fault>
    decreases MAX_SYMLINKS - links, comps.len(),
{
    if comps.len() == 0 {
        Ok(cur)
    } else {
        match inode_from(sb, img, cur) {
            Err(f) => Err(f),
            Ok(dir) => if !dir.is_dir() {
                Err(Fault::NotADirectory(shown))
            } else {
                match child_of(sb, img, dir, comps[0]) {
                    Err(f) => Err(f),
                    Ok(None) => Err(Fault::NotFound(shown)),
                    Ok(Some(child)) => if comps.len() == 1 && !follow {
                        Ok(child)
                    } else {
                        match inode_from(sb, img, child) {
                            Err(f) => Err(f),
                            Ok(inode) => if inode.file_type() == mode::IFLNK {
                                if links >= MAX_SYMLINKS {
                                    Err(Fault::SymlinkLoop(shown))
                                } else {
                                    match target_of(sb, img, inode) {
                                        Err(f) => Err(f),
                                        Ok(target) => led(
                                            sb,
                                            img,
                                            shown,
                                            follow,
                                            if target.len() > 0 && target[0] == SLASH {
                                                sb.root_ino
                                            } else {
                                                cur
                                            },
                                            components(target) + comps.skip(1),
                                            links + 1,
                                        ),
                                    }
                                }
                            } else {
                                led(sb, img, shown, follow, child, comps.skip(1), links)
                            },
                        }
                    },
                }
            },
        }
    }
}

/// The inode a path names.
pub open spec fn resolved(sb: Superblock, img: Seq<u8>, path: Seq<u8>, follow: bool) -> core::result::Result<
    u64,
    Fault,
> {
    led(sb, img, lossy_text(path), follow, sb.root_ino, components(path), 0)
}

/// The inode at a path, read.
pub open spec fn inode_at(sb: Superblock, img: Seq<u8>, path: Seq<char>, follow: bool) -> core::result::Result<
    InodeView,
    Fault,
> {
    match resolved(sb, img, encode_utf8(path), follow) {
        Err(f) => Err(f),
        Ok(ino) => inode_from(sb, img, ino),
    }
}

/// Whether a path exists.
pub open spec fn existence(sb: Superblock, img: Seq<u8>, path: Seq<char>) -> core::result::Result<bool, Fault> {
    match resolved(sb, img, encode_utf8(path), false) {
        Ok(_) => Ok(true),
        Err(Fault::NotFound(_)) => Ok(false),
        Err(f) => Err(f),
    }
}

/// The inode of the regular file at a path.
pub open spec fn file_at(sb: Superblock, img: Seq<u8>, path: Seq<char>) -> core::result::Result<InodeView, Fault> {
    match inode_at(sb, img, path, true) {
        Err(f) => Err(f),
        Ok(inode) => if inode.file_type() == mode::IFREG {
            Ok(inode)
        } else if inode.file_type() == mode::IFDIR {
            Err(Fault::IsADirectory(path))
        } else {
            Err(Fault::Unsupported(path + ": not a regular file"@))
        },
    }
}

/// The `len` bytes from `offset` of the regular file with inode `inode`.
pub open spec fn file_bytes(sb: Superblock, img: Seq<u8>, inode: InodeView, offset: u64, len: u64)
    -> core::result::Result<Seq<u8>, Fault> {
    match fork_map(sb, img, inode, false) {
        Err(f) => Err(f),
        Ok(extents) => contents_of(sb, img, inode, extents, offset, len),
    }
}

/// The `len` bytes from `offset` of the regular file at a path.
pub open spec fn range_at(sb: Superblock, img: Seq<u8>, path: Seq<char>, offset: u64, len: u64)
    -> core::result::Result<Seq<u8>, Fault> {
    match file_at(sb, img, path) {
        Err(f) => Err(f),
        Ok(inode) => file_bytes(sb, img, inode, offset, len),
    }
}

/// The whole contents of the regular file at a path.
pub open spec fn whole_at(sb: Superblock, img: Seq<u8>, path: Seq<char>) -> core::result::Result<Seq<u8>, Fault> {
    match file_at(sb, img, path) {
        Err(f) => Err(f),
        Ok(inode) => file_bytes(sb, img, inode, 0, inode.size),
    }
}

/// The entries of the directory at a path.
pub open spec fn listing_at(sb: Superblock, img: Seq<u8>, path: Seq<char>) -> core::result::Result<
    Seq<EntryView>,
    Fault,
> {
    match inode_at(sb, img, path, true) {
        Err(f) => Err(f),
        Ok(inode) => if !inode.is_dir() {
            Err(Fault::NotADirectory(path))
        } else {
            listing(sb, img, inode)
        },
    }
}

/// The target of the symlink at a path.
pub open spec fn target_at(sb: Superblock, img: Seq<u8>, path: Seq<char>) -> core::result::Result<Seq<u8>, Fault> {
    match inode_at(sb, img, path, false) {
        Err(f) => Err(f),
        Ok(inode) => if inode.file_type() != mode::IFLNK {
            Err(Fault::NotASymlink(path))
        } else {
            target_of(sb, img, inode)
        },
    }
}

/// The extended attributes of the inode at a path.
pub open spec fn xattrs_at(sb: Superblock, img: Seq<u8>, path: Seq<char>) -> core::result::Result<
    Seq<XattrView>,
    Fault,
> {
    match inode_at(sb, img, path, false) {
        Err(f) => Err(f),
        Ok(inode) => xattrs_of(sb, img, inode),
    }
}

/// The value of the first of `xattrs` called `name`, if any is.
pub open spec fn first_value(xattrs: Seq<XattrView>, name: Seq<char>) -> Option<Seq<u8>>
    decreases xattrs.len(),
{
    if xattrs.len() == 0 {
        None
    } else if xattrs[0].name == name {
        Some(xattrs[0].value)
    } else {
        first_value(xattrs.skip(1), name)
    }
}

/// The value of one extended attribute of the inode at a path.
pub open spec fn xattr_at(sb: Superblock, img: Seq<u8>, path: Seq<char>, name: Seq<char>) -> core::result::Result<
    Option<Seq<u8>>,
    Fault,
> {
    match xattrs_at(sb, img, path) {
        Err(f) => Err(f),
        Ok(xattrs) => Ok(first_value(xattrs, name)),
    }
}

/// Put components on a stack, the first on top.
fn pile_up(stack: &mut Vec<Vec<u8>>, comps: Vec<Vec<u8>>)
    ensures
        views(final(stack)@).reverse() == views(comps@) + views(old(stack)@).reverse(),
{
    let mut left = comps;
    let ghost all = views(comps@);
    let ghost before = views(stack@).reverse();
    assert(all.skip(all.len() as int) + before =~= before);
    while left.len() > 0
        invariant
            left@.len() <= all.len(),
            views(left@) == all.subrange(0, left@.len() as int),
            views(stack@).reverse() == all.skip(left@.len() as int) + before,
        decreases left@.len(),
    {
        let ghost n = left@.len() as int;
        let ghost was = stack@;
        let ghost had = left@;
        if let Some(c) = left.pop() {
            assert(views(had)[n - 1] == c@);
            assert(views(left@) =~= all.subrange(0, n - 1));
            stack.push(c);
            assert(views(stack@).reverse() =~= seq![c@] + views(was).reverse());
            assert(all.skip(n - 1) =~= seq![all[n - 1]] + all.skip(n));
            assert(views(stack@).reverse() =~= all.skip(n - 1) + before);
        }
    }
    assert(all.skip(0) =~= all);
}

/// The value of the first of `xattrs` called `name`, if any is.
fn value_named(xattrs: &Vec<Xattr>, name: &str) -> (r: Option<Vec<u8>>)
    ensures
        match r {
            Some(v) => first_value(views(xattrs@), name@) == Some(v@),
            None => first_value(views(xattrs@), name@) is None,
        },
{
    let mut i: usize = 0;
    let ghost all = views(xattrs@);
    assert(all.skip(0) =~= all);
    while i < xattrs.len()
        invariant
            i <= xattrs@.len(),
            all == views(xattrs@),
            first_value(all, name@) == first_value(all.skip(i as int), name@),
        decreases xattrs@.len() - i,
    {
        let x: &Xattr = &xattrs[i];
        assert(all.skip(i as int)[0] == x@);
        if same_text(x.name.as_str(), name) {
            assert(x.value@.subrange(0, x.value@.len() as int) =~= x.value@);
            return Some(cut(x.value.as_slice(), 0, x.value.len()));
        }
        assert(all.skip(i as int).skip(1) =~= all.skip(i + 1));
        i += 1;
    }
    None
}

impl<D: BlockDevice> Volume<D> {
    /// Resolve a path to an inode number. Symlinks in the middle of a path
    /// are followed, as Linux follows them; the last component is followed
    /// only when `follow` is set. Absolute symlink targets resolve from this
    /// filesystem's root, never the host's.
    pub fn resolve(&self, path: &[u8], follow: bool) -> (r: Result<u64>)
        ensures
            settled(&self.dev(), verdict(r), resolved(self.sb(), self.img(), path@, follow)),
            components(path@).len() == 0 ==> r == Ok::<u64, Error>(self.sb().root_ino),
    {
        let root: u64 = self.superblock().root_ino;
        let mut comps: Vec<Vec<u8>> = Vec::new();
        pile_up(&mut comps, split(path));
        let mut cur: u64 = root;
        let mut links: u32 = 0;
        let ghost shown = lossy_text(path@);
        let ghost want = resolved(self.sb(), self.img(), path@, follow);
        assert(views(comps@).reverse() =~= components(path@));
        while comps.len() > 0
            invariant
                links <= MAX_SYMLINKS,
                root == self.sb().root_ino,
                shown == lossy_text(path@),
                want == resolved(self.sb(), self.img(), path@, follow),
                components(path@).len() == 0 ==> cur == root && comps@.len() == 0,
                want == led(
                    self.sb(),
                    self.img(),
                    shown,
                    follow,
                    cur,
                    views(comps@).reverse(),
                    links as int,
                ),
            decreases MAX_SYMLINKS - links, comps@.len(),
        {
            let ghost todo = views(comps@).reverse();
            let comp: Vec<u8> = match comps.pop() {
                Some(c) => c,
                None => return Ok(cur),
            };
            proof {
                assert(todo[0] == comp@);
                assert(views(comps@).reverse() =~= todo.skip(1));
            }
            let dir = self.inode(cur)?;
            if !dir.is_dir() {
                return Err(Error::NotADirectory(lossy(path)));
            }
            let child: u64 = match self.dir_lookup(&dir, comp.as_slice())? {
                Some(child) => child,
                None => return Err(Error::NotFound(lossy(path))),
            };
            if comps.len() == 0 && !follow {
                return Ok(child);
            }
            let inode = self.inode(child)?;
            if inode.file_type() == mode::IFLNK {
                if links >= MAX_SYMLINKS {
                    return Err(Error::SymlinkLoop(lossy(path)));
                }
                links += 1;
                let target = self.symlink_target(&inode)?;
                if target.len() > 0 && target[0] == SLASH {
                    cur = root;
                }
                pile_up(&mut comps, split(target.as_slice()));
            } else {
                cur = child;
            }
        }
        assert(views(comps@).reverse() =~= Seq::<Seq<u8>>::empty());
        Ok(cur)
    }

    /// The inode a path names, without following a final symlink.
    pub fn lookup(&self, path: &str) -> (r: Result<u64>)
        ensures
            settled(&self.dev(), verdict(r), resolved(self.sb(), self.img(), encode_utf8(path@), false)),
            components(encode_utf8(path@)).len() == 0 ==> r == Ok::<u64, Error>(self.sb().root_ino),
    {
        self.resolve(path.as_bytes(), false)
    }

    /// The inode at a path, read.
    pub(crate) fn inode_by_path(&self, path: &str, follow: bool) -> (r: Result<Inode>)
        ensures
            settled(&self.dev(), outcome(r), inode_at(self.sb(), self.img(), path@, follow)),
    {
        let ino: u64 = self.resolve(path.as_bytes(), follow)?;
        self.inode(ino)
    }

    /// Whether a path exists (a dangling symlink exists).
    ///
    /// Anything the device reports as not found counts as absence.
    pub fn path_exists(&self, path: &str) -> (r: Result<bool>)
        ensures
            settled(&self.dev(), verdict(r), existence(self.sb(), self.img(), path@)) || (r == Ok::<bool, Error>(false)
                && exists|s: Seq<char>| #[trigger] self.dev().may_fail(Fault::NotFound(s))),
            components(encode_utf8(path@)).len() == 0 ==> r == Ok::<bool, Error>(true),
    {
        match self.lookup(path) {
            Ok(_) => Ok(true),
            Err(Error::NotFound(s)) => {
                assert(Error::NotFound(s)@ == Fault::NotFound(s@));
                Ok(false)
            },
            Err(e) => Err(e),
        }
    }

    /// Stat a path, without following a final symlink (`lstat`).
    pub fn stat(&self, path: &str) -> (r: Result<Stat>)
        ensures
            settled(
                &self.dev(),
                verdict(r),
                match inode_at(self.sb(), self.img(), path@, false) {
                    Ok(inode) => Ok(stat_of(self.sb(), inode)),
                    Err(f) => Err(f),
                },
            ),
    {
        let inode = self.inode_by_path(path, false)?;
        Ok(self.stat_inode(&inode))
    }

    /// The inode of the regular file at a path.
    fn file_inode(&self, path: &str) -> (r: Result<Inode>)
        ensures
            settled(&self.dev(), outcome(r), file_at(self.sb(), self.img(), path@)),
    {
        let inode = self.inode_by_path(path, true)?;
        let t: u16 = inode.file_type();
        if t == mode::IFREG {
            Ok(inode)
        } else if t == mode::IFDIR {
            Err(Error::IsADirectory(String::from_str(path)))
        } else {
            Err(Error::Unsupported(String::from_str(path).concat(": not a regular file")))
        }
    }

    /// A regular file's whole contents, following symlinks.
    pub fn read(&self, path: &str) -> (r: Result<Vec<u8>>)
        ensures
            settled(&self.dev(), outcome(r), whole_at(self.sb(), self.img(), path@)),
    {
        let inode = self.file_inode(path)?;
        let extents = self.extents(&inode, false)?;
        self.read_inode_range(&inode, extents.as_slice(), 0, inode.size)
    }

    /// Up to `len` bytes of a regular file from `offset`, following symlinks.
    pub fn read_range(&self, path: &str, offset: u64, len: u64) -> (r: Result<Vec<u8>>)
        ensures
            settled(&self.dev(), outcome(r), range_at(self.sb(), self.img(), path@, offset, len)),
    {
        let inode = self.file_inode(path)?;
        let extents = self.extents(&inode, false)?;
        self.read_inode_range(&inode, extents.as_slice(), offset, len)
    }

    /// A directory's entries, without `.` and `..`, following symlinks.
    pub fn read_dir(&self, path: &str) -> (r: Result<Vec<Entry>>)
        ensures
            settled(&self.dev(), list_outcome(r), listing_at(self.sb(), self.img(), path@)),
    {
        let inode = self.inode_by_path(path, true)?;
        if !inode.is_dir() {
            return Err(Error::NotADirectory(String::from_str(path)));
        }
        self.read_dir_inode(&inode)
    }

    /// A symlink's target. Non-UTF-8 bytes are replaced; see
    /// [`Volume::read_link_bytes`].
    pub fn read_link(&self, path: &str) -> (r: Result<String>)
        ensures
            settled(
                &self.dev(),
                outcome(r),
                match target_at(self.sb(), self.img(), path@) {
                    Ok(target) => Ok(lossy_text(target)),
                    Err(f) => Err(f),
                },
            ),
    {
        let target = self.read_link_bytes(path)?;
        Ok(lossy(target.as_slice()))
    }

    /// A symlink's target exactly as stored.
    pub fn read_link_bytes(&self, path: &str) -> (r: Result<Vec<u8>>)
        ensures
            settled(&self.dev(), outcome(r), target_at(self.sb(), self.img(), path@)),
    {
        let inode = self.inode_by_path(path, false)?;
        if inode.file_type() != mode::IFLNK {
            return Err(Error::NotASymlink(String::from_str(path)));
        }
        self.symlink_target(&inode)
    }

    /// Every extended attribute of a path, without following a final
    /// symlink, in the names Linux reports (`user.`, `trusted.`,
    /// `security.`, `system.posix_acl_*`).
    pub fn list_xattrs(&self, path: &str) -> (r: Result<Vec<Xattr>>)
        ensures
            settled(&self.dev(), list_outcome(r), xattrs_at(self.sb(), self.img(), path@)),
    {
        let inode = self.inode_by_path(path, false)?;
        self.xattrs_inode(&inode)
    }

    /// One extended attribute's value.
    pub fn get_xattr(&self, path: &str, name: &str) -> (r: Result<Option<Vec<u8>>>)
        ensures
            settled(
                &self.dev(),
                match r {
                    Ok(Some(v)) => Ok(Some(v@)),
                    Ok(None) => Ok(None),
                    Err(e) => Err(e@),
                },
                xattr_at(self.sb(), self.img(), path@, name@),
            ),
    {
        let xattrs = self.list_xattrs(path)?;
        Ok(value_named(&xattrs, name))
    }
}

pub proof fn lemma_led_however_shown(
    sb: Superblock,
    img: Seq<u8>,
    a: Seq<char>,
    b: Seq<char>,
    follow: bool,
    cur: u64,
    comps: Seq<Seq<u8>>,
    links: int,
)
    requires
        links <= MAX_SYMLINKS,
    ensures
        led(sb, img, a, follow, cur, comps, links) is Ok <==> led(sb, img, b, follow, cur, comps, links) is Ok,
        led(sb, img, a, follow, cur, comps, links) is Ok ==> led(sb, img, a, follow, cur, comps, links) == led(
            sb,
            img,
            b,
            follow,
            cur,
            comps,
            links,
        ),
    decreases MAX_SYMLINKS - links, comps.len(),
{
    if comps.len() > 0 {
        if let Ok(dir) = inode_from(sb, img, cur) {
            if let Ok(Some(child)) = child_of(sb, img, dir, comps[0]) {
                if let Ok(inode) = inode_from(sb, img, child) {
                    if inode.file_type() != mode::IFLNK {
                        lemma_led_however_shown(sb, img, a, b, follow, child, comps.skip(1), links);
                    } else if links < MAX_SYMLINKS {
                        if let Ok(target) = target_of(sb, img, inode) {
                            let from = if target.len() > 0 && target[0] == SLASH {
                                sb.root_ino
                            } else {
                                cur
                            };
                            let next = components(target) + comps.skip(1);
                            lemma_led_however_shown(sb, img, a, b, follow, from, next, links + 1);
                        }
                    }
                }
            }
        }
    }
}

/// Repeated slashes and `.` make no difference to what a path names: two paths
/// with the same components name the same inode, or neither names any.
pub proof fn lemma_spelling(sb: Superblock, img: Seq<u8>, a: Seq<u8>, b: Seq<u8>, follow: bool)
    requires
        components(a) == components(b),
    ensures
        resolved(sb, img, a, follow) is Ok <==> resolved(sb, img, b, follow) is Ok,
        resolved(sb, img, a, follow) is Ok ==> resolved(sb, img, a, follow) == resolved(sb, img, b, follow),
{
    lemma_led_however_shown(sb, img, lossy_text(a), lossy_text(b), follow, sb.root_ino, components(a), 0);
}

proof fn lemma_led_to_the_end(
    sb: Superblock,
    img: Seq<u8>,
    shown: Seq<char>,
    cur: u64,
    comps: Seq<Seq<u8>>,
    links: int,
    ino: u64,
)
    requires
        links <= MAX_SYMLINKS,
        led(sb, img, shown, false, cur, comps, links) == Ok::<u64, Fault>(ino),
        inode_from(sb, img, ino) matches Ok(inode) && inode.file_type() != mode::IFLNK,
    ensures
        led(sb, img, shown, true, cur, comps, links) == Ok::<u64, Fault>(ino),
    decreases MAX_SYMLINKS - links, comps.len(),
{
    if comps.len() > 0 {
        let dir = inode_from(sb, img, cur)->Ok_0;
        let child = child_of(sb, img, dir, comps[0])->Ok_0->Some_0;
        if comps.len() == 1 {
            assert(comps.skip(1).len() == 0);
            assert(led(sb, img, shown, true, child, comps.skip(1), links) == Ok::<u64, Fault>(child));
        } else {
            let inode = inode_from(sb, img, child)->Ok_0;
            if inode.file_type() == mode::IFLNK {
                let target = target_of(sb, img, inode)->Ok_0;
                let from = if target.len() > 0 && target[0] == SLASH {
                    sb.root_ino
                } else {
                    cur
                };
                lemma_led_to_the_end(sb, img, shown, from, components(target) + comps.skip(1), links + 1, ino);
            } else {
                lemma_led_to_the_end(sb, img, shown, child, comps.skip(1), links, ino);
            }
        }
    }
}

/// What is found without following more links than are left is found the same
/// with more of them left.
pub proof fn lemma_led_with_more_left(
    sb: Superblock,
    img: Seq<u8>,
    shown: Seq<char>,
    follow: bool,
    cur: u64,
    comps: Seq<Seq<u8>>,
    links: int,
    fewer: int,
)
    requires
        fewer <= links <= MAX_SYMLINKS,
        led(sb, img, shown, follow, cur, comps, links) is Ok,
    ensures
        led(sb, img, shown, follow, cur, comps, fewer) == led(sb, img, shown, follow, cur, comps, links),
    decreases MAX_SYMLINKS - links, comps.len(),
{
    if comps.len() > 0 {
        let dir = inode_from(sb, img, cur)->Ok_0;
        let child = child_of(sb, img, dir, comps[0])->Ok_0->Some_0;
        if comps.len() > 1 || follow {
            let inode = inode_from(sb, img, child)->Ok_0;
            if inode.file_type() == mode::IFLNK {
                let target = target_of(sb, img, inode)->Ok_0;
                let from = if target.len() > 0 && target[0] == SLASH {
                    sb.root_ino
                } else {
                    cur
                };
                let next = components(target) + comps.skip(1);
                lemma_led_with_more_left(sb, img, shown, follow, from, next, links + 1, fewer + 1);
            } else {
                lemma_led_with_more_left(sb, img, shown, follow, child, comps.skip(1), links, fewer);
            }
        }
    }
}

/// Where following the last link of a path goes on from.
proof fn lemma_led_through(
    sb: Superblock,
    img: Seq<u8>,
    shown: Seq<char>,
    cur: u64,
    comps: Seq<Seq<u8>>,
    links: int,
    link: InodeView,
)
    requires
        0 <= links <= MAX_SYMLINKS,
        comps.len() > 0,
        led(sb, img, shown, false, cur, comps, links) == Ok::<u64, Fault>(link.ino),
        inode_from(sb, img, link.ino) == Ok::<InodeView, Fault>(link),
        link.file_type() == mode::IFLNK,
        target_of(sb, img, link) is Ok,
        target_of(sb, img, link)->Ok_0.len() > 0,
        target_of(sb, img, link)->Ok_0[0] == SLASH,
        led(sb, img, shown, true, cur, comps, links) is Ok,
    ensures
        led(sb, img, shown, true, sb.root_ino, components(target_of(sb, img, link)->Ok_0), 0) == led(
            sb,
            img,
            shown,
            true,
            cur,
            comps,
            links,
        ),
    decreases MAX_SYMLINKS - links, comps.len(),
{
    let dir = inode_from(sb, img, cur)->Ok_0;
    let child = child_of(sb, img, dir, comps[0])->Ok_0->Some_0;
    let inode = inode_from(sb, img, child)->Ok_0;
    if comps.len() == 1 {
        let comps2 = components(target_of(sb, img, link)->Ok_0);
        assert(comps2 + comps.skip(1) =~= comps2);
        lemma_led_with_more_left(sb, img, shown, true, sb.root_ino, comps2, links + 1, 0);
    } else if inode.file_type() == mode::IFLNK {
        let target = target_of(sb, img, inode)->Ok_0;
        let from = if target.len() > 0 && target[0] == SLASH {
            sb.root_ino
        } else {
            cur
        };
        lemma_led_through(sb, img, shown, from, components(target) + comps.skip(1), links + 1, link);
    } else {
        lemma_led_through(sb, img, shown, child, comps.skip(1), links, link);
    }
}

/// Whether the last component is followed makes no difference to a path that
/// names no symlink.
pub proof fn lemma_nothing_to_follow(sb: Superblock, img: Seq<u8>, path: Seq<u8>, ino: u64)
    requires
        resolved(sb, img, path, false) == Ok::<u64, Fault>(ino),
        inode_from(sb, img, ino) matches Ok(inode) && inode.file_type() != mode::IFLNK,
    ensures
        resolved(sb, img, path, true) == Ok::<u64, Fault>(ino),
{
    lemma_led_to_the_end(sb, img, lossy_text(path), sb.root_ino, components(path), 0, ino);
}

/// Following a path to a symlink whose target is absolute gives what that
/// target gives.
pub proof fn lemma_followed_is_target(sb: Superblock, img: Seq<u8>, path: Seq<u8>, link: InodeView)
    requires
        resolved(sb, img, path, false) == Ok::<u64, Fault>(link.ino),
        inode_from(sb, img, link.ino) == Ok::<InodeView, Fault>(link),
        link.file_type() == mode::IFLNK,
        target_of(sb, img, link) is Ok,
        target_of(sb, img, link)->Ok_0.len() > 0,
        target_of(sb, img, link)->Ok_0[0] == SLASH,
        resolved(sb, img, path, true) is Ok,
        components(path).len() > 0 || resolved(sb, img, target_of(sb, img, link)->Ok_0, true) is Ok,
    ensures
        resolved(sb, img, target_of(sb, img, link)->Ok_0, true) == resolved(sb, img, path, true),
{
    let target = target_of(sb, img, link)->Ok_0;
    let shown = lossy_text(path);
    if components(path).len() > 0 {
        lemma_led_through(sb, img, shown, sb.root_ino, components(path), 0, link);
        lemma_led_however_shown(sb, img, shown, lossy_text(target), true, sb.root_ino, components(target), 0);
    } else if components(target).len() > 0 {
        assert(mode::IFDIR != mode::IFLNK);
    }
}

/// A path that names nothing below it is the root's.
pub proof fn lemma_root(sb: Superblock, img: Seq<u8>, path: Seq<u8>, follow: bool)
    requires
        components(path).len() == 0,
    ensures
        resolved(sb, img, path, follow) == Ok::<u64, Fault>(sb.root_ino),
{
}

/// An inode found by its path is the one its number says.
pub proof fn lemma_inode_at(sb: Superblock, img: Seq<u8>, path: Seq<char>, follow: bool)
    ensures
        inode_at(sb, img, path, follow) matches Ok(inode) ==> inode_from(sb, img, inode.ino) == Ok::<InodeView, Fault>(
            inode,
        ),
{
    if let Ok(ino) = resolved(sb, img, encode_utf8(path), follow) {
        lemma_inode_from(sb, img, ino);
    }
}

} // verus!
