//! Copying a tree out: what to make of each name.

use std::collections::HashMap;
use vstd::prelude::*;
use vstd::string::*;

use crate::arith::{mul_add, wrapped};
use crate::bytes::{cut, lemma_views_push, views, zero_bytes};
use crate::device::BlockDevice;
use crate::error::{Fault, Result};
use crate::export::pack::names_in;
use crate::export::{ExtractReport, ExtractReportView};
use crate::inode::{mode, Inode, InodeView, Timestamp};
use crate::sb::Superblock;
use crate::sort::flipped;
use crate::volume::blocks::inode_from;
use crate::volume::links::target_of;
use crate::volume::xattrs::xattrs_of;
use crate::volume::{Volume, WalkEntry, WalkView};

verus! {

/// What to make of a name.
pub enum Action {
    /// A second name for the file made at the path `first`.
    HardLink {
        /// That path, relative to the root of the copy.
        first: Vec<u8>,
    },
    /// A directory.
    Directory,
    /// A symbolic link.
    Symlink {
        /// What it points to.
        target: Vec<u8>,
    },
    /// A regular file.
    File {
        /// Whose contents it gets.
        inode: Inode,
    },
    /// Nothing: a device node, a FIFO or a socket.
    Skip,
}

/// An [`Action`] as contracts speak of it.
pub enum ActionView {
    HardLink { first: Seq<u8> },
    Directory,
    Symlink { target: Seq<u8> },
    File { inode: InodeView },
    Skip,
}

impl View for Action {
    type V = ActionView;

    open spec fn view(&self) -> ActionView {
        match *self {
            Action::HardLink { first } => ActionView::HardLink { first: first@ },
            Action::Directory => ActionView::Directory,
            Action::Symlink { target } => ActionView::Symlink { target: target@ },
            Action::File { inode } => ActionView::File { inode: inode@ },
            Action::Skip => ActionView::Skip,
        }
    }
}

/// What is to be set on a directory once everything inside it is written: a
/// read-only directory would refuse its children, and each child written
/// would move its time.
#[derive(Debug, Clone)]
pub struct DirectoryEnd {
    /// Its path, relative to the root of the copy.
    pub path: Vec<u8>,
    /// Its mode.
    pub mode: u16,
    /// Its modification time.
    pub mtime: Timestamp,
}

/// A [`DirectoryEnd`] as contracts speak of it.
#[verifier::ext_equal]
pub struct DirectoryEndView {
    pub path: Seq<u8>,
    pub mode: u16,
    pub mtime: Timestamp,
}

impl View for DirectoryEnd {
    type V = DirectoryEndView;

    open spec fn view(&self) -> DirectoryEndView {
        DirectoryEndView { path: self.path@, mode: self.mode, mtime: self.mtime }
    }
}

/// How far copying a tree out has come.
pub struct Extraction {
    seen: HashMap<u64, Vec<u8>>,
    dirs: Vec<DirectoryEnd>,
    report: ExtractReport,
}

/// An [`Extraction`] as contracts speak of it.
#[verifier::ext_equal]
pub struct ExtractionView {
    /// The first name made for each inode that may have several.
    pub seen: Map<u64, Seq<u8>>,
    /// The directories made, in the order they were.
    pub dirs: Seq<DirectoryEndView>,
    /// What there is to report.
    pub report: ExtractReportView,
}

impl View for Extraction {
    type V = ExtractionView;

    closed spec fn view(&self) -> ExtractionView {
        ExtractionView { seen: names_in(self.seen@), dirs: views(self.dirs@), report: self.report@ }
    }
}

/// Whether a name is one that is made, and that its inode may have others
/// beside: a file's or a symlink's.
pub open spec fn may_be_linked(e: WalkView) -> bool {
    let t = e.stat.mode & mode::IFMT;
    (t == mode::IFREG || t == mode::IFLNK) && e.stat.links > 1
}

/// The names first made for inodes, once `e` has been made too.
pub open spec fn made_after(e: WalkView, seen: Map<u64, Seq<u8>>) -> Map<u64, Seq<u8>> {
    if may_be_linked(e) && !seen.dom().contains(e.stat.inode) {
        seen.insert(e.stat.inode, e.raw_path)
    } else {
        seen
    }
}

/// What to make of a name that is not a second name for anything.
pub open spec fn own_action(sb: Superblock, img: Seq<u8>, e: WalkView, inode: InodeView) -> core::result::Result<
    ActionView,
    Fault,
> {
    let t = e.stat.mode & mode::IFMT;
    if t == mode::IFDIR {
        Ok(ActionView::Directory)
    } else if t == mode::IFLNK {
        match target_of(sb, img, inode) {
            Err(f) => Err(f),
            Ok(target) => Ok(ActionView::Symlink { target }),
        }
    } else if t == mode::IFREG {
        Ok(ActionView::File { inode })
    } else {
        Ok(ActionView::Skip)
    }
}

/// What to make of a name, and how many extended attributes that leaves out.
/// A second name leaves none out that the first did not.
pub open spec fn action_of(sb: Superblock, img: Seq<u8>, e: WalkView, seen: Map<u64, Seq<u8>>) -> core::result::Result<
    (ActionView, nat),
    Fault,
> {
    match inode_from(sb, img, e.stat.inode) {
        Err(f) => Err(f),
        Ok(inode) => if may_be_linked(e) && seen.dom().contains(e.stat.inode) {
            Ok((ActionView::HardLink { first: seen[e.stat.inode] }, 0))
        } else {
            match xattrs_of(sb, img, inode) {
                Err(f) => Err(f),
                Ok(xattrs) => match own_action(sb, img, e, inode) {
                    Err(f) => Err(f),
                    Ok(action) => Ok((action, xattrs.len())),
                },
            }
        },
    }
}

/// A report with a name added of which `action` was made, `xattrs` extended
/// attributes being left out.
pub open spec fn reported(r: ExtractReportView, e: WalkView, action: ActionView, xattrs: nat) -> ExtractReportView {
    let r = ExtractReportView { xattrs_skipped: wrapped(r.xattrs_skipped + xattrs), ..r };
    match action {
        ActionView::HardLink { .. } => ExtractReportView { hard_links: wrapped(r.hard_links + 1), ..r },
        ActionView::Directory => ExtractReportView { directories: wrapped(r.directories + 1), ..r },
        ActionView::Symlink { .. } => ExtractReportView { symlinks: wrapped(r.symlinks + 1), ..r },
        ActionView::File { .. } => ExtractReportView {
            files: wrapped(r.files + 1),
            bytes: wrapped(r.bytes + e.stat.size),
            ..r
        },
        ActionView::Skip => ExtractReportView { specials_skipped: r.specials_skipped.push(e.path), ..r },
    }
}

/// How far copying a tree out has come once `action` was made of `e`.
pub open spec fn stepped(x: ExtractionView, e: WalkView, action: ActionView, xattrs: nat) -> ExtractionView {
    ExtractionView {
        seen: made_after(e, x.seen),
        dirs: if action is Directory {
            x.dirs.push(DirectoryEndView { path: e.raw_path, mode: e.stat.mode, mtime: e.stat.mtime })
        } else {
            x.dirs
        },
        report: reported(x.report, e, action, xattrs),
    }
}

impl Extraction {
    /// Start copying a tree out.
    pub fn new() -> (x: Self)
        ensures
            x@.seen == Map::<u64, Seq<u8>>::empty(),
            x@.dirs == Seq::<DirectoryEndView>::empty(),
            x@.report == ExtractReportView::none(),
    {
        broadcast use vstd::std_specs::hash::group_hash_axioms;

        let x = Extraction { seen: HashMap::new(), dirs: Vec::new(), report: ExtractReport::default() };
        assert(x@.seen =~= Map::<u64, Seq<u8>>::empty());
        x
    }

    /// What is to be set on directories, those inside others first, and the
    /// report.
    pub fn finish(self) -> (r: (Vec<DirectoryEnd>, ExtractReport))
        ensures
            views(r.0@) == self@.dirs.reverse(),
            r.0@.len() == self@.dirs.len(),
            forall|i: int, j: int|
                0 <= i < self@.dirs.len() && i + j == self@.dirs.len() - 1 ==> (#[trigger] r.0@[i])@
                    == #[trigger] self@.dirs[j],
            r.1@ == self@.report,
    {
        let ends = flipped(self.dirs);
        assert(views(ends@) =~= self@.dirs.reverse());
        assert forall|i: int, j: int| 0 <= i < self@.dirs.len() && i + j == self@.dirs.len() - 1 implies (
        #[trigger] ends@[i])@ == #[trigger] self@.dirs[j] by {
            assert(views(ends@)[i] == ends@[i]@);
        }
        (ends, self.report)
    }

    /// Take note that `action` was made of `e`.
    fn note(&mut self, e: &WalkEntry, action: &Action, xattrs: u64)
        ensures
            final(self)@ == stepped(old(self)@, e@, action@, xattrs as nat),
    {
        broadcast use vstd::std_specs::hash::group_hash_axioms;

        let ghost before = self@;
        if (e.stat.is_file() || e.stat.is_symlink()) && e.stat.links > 1 && !self.seen.contains_key(&e.stat.inode) {
            let path = cut(e.raw_path.as_slice(), 0, e.raw_path.len());
            assert(path@ =~= e@.raw_path);
            self.seen.insert(e.stat.inode, path);
            assert(names_in(self.seen@) =~= before.seen.insert(e.stat.inode, e@.raw_path));
        }
        assert(names_in(self.seen@) == made_after(e@, before.seen));
        self.report.xattrs_skipped = mul_add(self.report.xattrs_skipped, 1, xattrs);
        match action {
            Action::HardLink { .. } => {
                self.report.hard_links = mul_add(self.report.hard_links, 1, 1);
            },
            Action::Directory => {
                let path = cut(e.raw_path.as_slice(), 0, e.raw_path.len());
                assert(path@ =~= e@.raw_path);
                let end = DirectoryEnd { path, mode: e.stat.mode, mtime: e.stat.mtime };
                proof {
                    lemma_views_push(self.dirs@, end);
                }
                self.dirs.push(end);
                self.report.directories = mul_add(self.report.directories, 1, 1);
            },
            Action::Symlink { .. } => {
                self.report.symlinks = mul_add(self.report.symlinks, 1, 1);
            },
            Action::File { .. } => {
                self.report.files = mul_add(self.report.files, 1, 1);
                self.report.bytes = mul_add(self.report.bytes, 1, e.stat.size);
            },
            Action::Skip => {
                let path = String::from_str(e.path.as_str());
                proof {
                    lemma_views_push(self.report.specials_skipped@, path);
                }
                self.report.specials_skipped.push(path);
            },
        }
        assert(self@ =~= stepped(before, e@, action@, xattrs as nat));
    }
}

impl<D: BlockDevice> Volume<D> {
    /// What to make of the next name of a tree being copied out. Once it is
    /// made, the next name may follow.
    #[verifier::rlimit(40)]
    pub fn extract_step(&self, e: &WalkEntry, x: &mut Extraction) -> (r: Result<Action>)
        ensures
            ({
                let want = action_of(self.sb(), self.img(), e@, old(x)@.seen);
                match r {
                    Ok(action) => {
                        &&& want is Ok
                        &&& action@ == want->Ok_0.0
                        &&& final(x)@ == stepped(old(x)@, e@, want->Ok_0.0, want->Ok_0.1)
                    },
                    Err(f) => {
                        &&& self.dev().may_fail(f@) || want == Err::<(ActionView, nat), Fault>(f@)
                        &&& final(x)@ == old(x)@
                    },
                }
            }),
    {
        broadcast use vstd::std_specs::hash::group_hash_axioms;

        let inode = self.inode(e.stat.inode)?;
        let t: u16 = e.stat.mode & mode::IFMT;
        if (e.stat.is_file() || e.stat.is_symlink()) && e.stat.links > 1 {
            if let Some(name) = x.seen.get(&e.stat.inode) {
                let first = cut(name.as_slice(), 0, name.len());
                assert(first@ =~= x@.seen[e.stat.inode]);
                let action = Action::HardLink { first };
                x.note(e, &action, 0);
                return Ok(action);
            }
        }
        let xattrs = self.xattrs_inode(&inode)?;
        let left_out: u64 = xattrs.len() as u64;
        let action: Action = if t == mode::IFDIR {
            Action::Directory
        } else if t == mode::IFLNK {
            let target = self.symlink_target(&inode)?;
            Action::Symlink { target }
        } else if t == mode::IFREG {
            Action::File { inode }
        } else {
            Action::Skip
        };
        x.note(e, &action, left_out);
        Ok(action)
    }
}

/// Device nodes, FIFOs and sockets are not made, under any of their names, and
/// each of their paths is reported.
pub proof fn lemma_specials_are_skipped(
    sb: Superblock,
    img: Seq<u8>,
    e: WalkView,
    seen: Map<u64, Seq<u8>>,
    r: ExtractReportView,
)
    requires
        e.stat.mode & mode::IFMT != mode::IFDIR,
        e.stat.mode & mode::IFMT != mode::IFLNK,
        e.stat.mode & mode::IFMT != mode::IFREG,
        action_of(sb, img, e, seen) is Ok,
    ensures
        ({
            let (action, xattrs) = action_of(sb, img, e, seen)->Ok_0;
            &&& action is Skip
            &&& reported(r, e, action, xattrs).specials_skipped == r.specials_skipped.push(e.path)
            &&& made_after(e, seen) == seen
        }),
{
}

/// The names first made for inodes, once all of `items` have been made.
pub open spec fn made_of(items: Seq<WalkView>) -> Map<u64, Seq<u8>>
    decreases items.len(),
{
    if items.len() == 0 {
        Map::empty()
    } else {
        made_after(items.last(), made_of(items.drop_last()))
    }
}

/// What a hard link is made to is a file or a symlink made before it.
pub proof fn lemma_links_are_made_to_names(items: Seq<WalkView>, ino: u64)
    requires
        made_of(items).dom().contains(ino),
    ensures
        exists|j: int|
            0 <= j < items.len() && (#[trigger] items[j]).stat.inode == ino && may_be_linked(items[j])
                && items[j].raw_path == made_of(items)[ino],
    decreases items.len(),
{
    if items.len() > 0 {
        let front = items.drop_last();
        if made_of(front).dom().contains(ino) {
            lemma_links_are_made_to_names(front, ino);
            let j = choose|j: int|
                0 <= j < front.len() && (#[trigger] front[j]).stat.inode == ino && may_be_linked(front[j])
                    && front[j].raw_path == made_of(front)[ino];
            assert(items[j] == front[j]);
        } else {
            assert(items[items.len() - 1].stat.inode == ino);
        }
    }
}

/// Each name copied out is reported on once.
pub proof fn lemma_reported_once(r: ExtractReportView, e: WalkView, action: ActionView, xattrs: nat)
    requires
        r.files < u64::MAX,
        r.directories < u64::MAX,
        r.symlinks < u64::MAX,
        r.hard_links < u64::MAX,
    ensures
        reported(r, e, action, xattrs).names() == r.names() + 1,
{
}

/// The size of the pieces a file is looked at in for holes.
pub const PIECE: usize = 4096;

/// A run of a file's bytes, all of them zero or else to be written.
#[derive(Debug, Clone, Copy, PartialEq, Eq, Structural)]
pub struct Run {
    /// Where it starts.
    pub start: usize,
    /// One past where it ends.
    pub end: usize,
    /// Whether its bytes are all zero.
    pub zero: bool,
}

/// Where the piece that starts at `i` ends.
pub open spec fn piece_end(buf: Seq<u8>, i: int) -> int {
    if i + PIECE < buf.len() {
        i + PIECE
    } else {
        buf.len() as int
    }
}

/// Whether the piece that starts at `i` is all zeros.
pub open spec fn is_zero_piece(buf: Seq<u8>, i: int) -> bool {
    forall|k: int| i <= k < piece_end(buf, i) ==> buf[k] == 0
}

/// Where the run of pieces from `i` on that are all zeros, or all not, ends.
pub open spec fn run_end(buf: Seq<u8>, i: int, zero: bool) -> int
    decreases buf.len() - i,
{
    if i < buf.len() && is_zero_piece(buf, i) == zero {
        run_end(buf, piece_end(buf, i), zero)
    } else {
        i
    }
}

/// The runs of `buf` from `at` on.
pub open spec fn runs_from(buf: Seq<u8>, at: int) -> Seq<Run>
    decreases buf.len() - at,
{
    if at >= buf.len() {
        Seq::empty()
    } else {
        proof {
            lemma_run_end(buf, at, is_zero_piece(buf, at));
        }
        let zero = is_zero_piece(buf, at);
        let end = run_end(buf, at, zero);
        seq![Run { start: at as usize, end: end as usize, zero }] + runs_from(buf, end)
    }
}

/// A run reaches past the piece it starts with, but not past the end; in one
/// of zeros every byte is zero.
pub proof fn lemma_run_end(buf: Seq<u8>, i: int, zero: bool)
    requires
        i <= buf.len(),
    ensures
        i <= run_end(buf, i, zero) <= buf.len(),
        i < buf.len() && is_zero_piece(buf, i) == zero ==> i < run_end(buf, i, zero),
        zero ==> forall|k: int| i <= k < run_end(buf, i, zero) ==> buf[k] == 0,
    decreases buf.len() - i,
{
    if i < buf.len() && is_zero_piece(buf, i) == zero {
        lemma_run_end(buf, piece_end(buf, i), zero);
        if zero {
            assert forall|k: int| i <= k < run_end(buf, i, zero) implies buf[k] == 0 by {
                if k < piece_end(buf, i) {
                }
            }
        }
    }
}

/// Whether the bytes of `buf` from `from` to `to` are all zero.
fn all_zero(buf: &[u8], from: usize, to: usize) -> (r: bool)
    requires
        from <= to <= buf@.len(),
    ensures
        r == (forall|k: int| from <= k < to ==> buf@[k] == 0),
{
    let mut i: usize = from;
    while i < to
        invariant
            from <= i <= to <= buf@.len(),
            forall|k: int| from <= k < i ==> buf@[k] == 0,
        decreases to - i,
    {
        if buf[i] != 0 {
            return false;
        }
        i += 1;
    }
    true
}

/// The runs of `buf`, in pieces of 4 KiB: those that are all zeros need not
/// be written, so holes stay holes.
pub fn sparse_runs(buf: &[u8]) -> (r: Vec<Run>)
    ensures
        r@ == runs_from(buf@, 0),
{
    let len: usize = buf.len();
    let mut out: Vec<Run> = Vec::new();
    let mut at: usize = 0;
    assert(out@ + runs_from(buf@, 0) =~= runs_from(buf@, 0));
    while at < len
        invariant
            len == buf@.len(),
            at <= len,
            runs_from(buf@, 0) == out@ + runs_from(buf@, at as int),
        decreases len - at,
    {
        let mut next: usize = if len - at > PIECE {
            at + PIECE
        } else {
            len
        };
        let zero: bool = all_zero(buf, at, next);
        assert(zero == is_zero_piece(buf@, at as int));
        let mut same: bool = true;
        while next < len && same
            invariant
                at < next <= len,
                len == buf@.len(),
                zero == is_zero_piece(buf@, at as int),
                same ==> run_end(buf@, at as int, zero) == run_end(buf@, next as int, zero),
                !same ==> run_end(buf@, at as int, zero) == next,
            decreases len - next + (if same { 1int } else { 0 }),
        {
            let after: usize = if len - next > PIECE {
                next + PIECE
            } else {
                len
            };
            if all_zero(buf, next, after) == zero {
                assert(is_zero_piece(buf@, next as int) == zero);
                next = after;
            } else {
                assert(is_zero_piece(buf@, next as int) != zero);
                same = false;
            }
        }
        let run = Run { start: at, end: next, zero };
        proof {
            assert(run_end(buf@, at as int, zero) == next);
            assert(out@.push(run) + runs_from(buf@, next as int) =~= out@ + (seq![run] + runs_from(
                buf@,
                next as int,
            )));
        }
        out.push(run);
        at = next;
    }
    assert(out@ + Seq::<Run>::empty() =~= out@);
    out
}

/// What runs stand for: zeros, or the bytes of `buf`.
pub open spec fn filled(buf: Seq<u8>, runs: Seq<Run>) -> Seq<u8>
    decreases runs.len(),
{
    if runs.len() == 0 {
        Seq::empty()
    } else {
        let run = runs[0];
        (if run.zero {
            zero_bytes((run.end - run.start) as nat)
        } else {
            buf.subrange(run.start as int, run.end as int)
        }) + filled(buf, runs.skip(1))
    }
}

/// Runs, with zeros for those that are not written, give back the bytes they
/// came from.
pub proof fn lemma_runs_give_back(buf: Seq<u8>, at: int)
    requires
        0 <= at <= buf.len(),
        buf.len() <= usize::MAX,
    ensures
        filled(buf, runs_from(buf, at)) == buf.skip(at),
    decreases buf.len() - at,
{
    if at < buf.len() {
        let zero = is_zero_piece(buf, at);
        let end = run_end(buf, at, zero);
        lemma_run_end(buf, at, zero);
        lemma_runs_give_back(buf, end);
        let runs = runs_from(buf, at);
        assert(runs.skip(1) =~= runs_from(buf, end));
        assert(zero ==> zero_bytes((end - at) as nat) =~= buf.subrange(at, end));
        assert(buf.skip(at) =~= buf.subrange(at, end) + buf.skip(end));
    } else {
        assert(buf.skip(at) =~= Seq::<u8>::empty());
    }
}

} // verus!
