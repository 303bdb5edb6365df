//! Directories: the names in them, and what those stand for.

use vstd::arithmetic::div_mod::{
    lemma_fundamental_div_mod, lemma_mod_add_multiples_vanish, lemma_mod_bound, lemma_mod_multiples_basic,
    lemma_mod_multiples_vanish,
};
use vstd::arithmetic::power2::pow2;
use vstd::prelude::*;
use vstd::string::*;

use crate::arith::{lemma_power_fits, power};
use crate::bmap::{is_fork_map, Extent};
use crate::bytes::{cut, lemma_views_push, same_bytes, views};
use crate::device::{settled, BlockDevice};
use crate::dir::{
    data_block_names, parse_data_block, parse_shortform, shortform_of, type_of_mode, FileType, RawEntry, RawName,
    LEAF_OFFSET,
};
use crate::error::{around, lemma_prefixed, list_outcome, numbered, prefixed, verdict, Error, Fault, Result};
use crate::inode::{Format, Inode, InodeView};
use crate::sb::Superblock;
use crate::text::{lossy, lossy_text};
use crate::volume::blocks::inode_from;
use crate::volume::map::{fork_map, mapped};
use crate::volume::{Entry, EntryView, Volume};

verus! {

/// The name `.`.
pub open spec fn dot() -> Seq<u8> {
    seq![46u8]
}

/// The name `..`.
pub open spec fn dot_dot() -> Seq<u8> {
    seq![46u8, 46u8]
}

/// Whether an extent holds any of the `per` blocks from `m`.
pub open spec fn touches(e: Extent, m: int, per: int) -> bool {
    m < e.spec_end() && e.offset < m + per
}

/// Whether any extent holds any of the `per` blocks from `m`.
pub open spec fn any_touches(extents: Seq<Extent>, m: int, per: int) -> bool {
    exists|i: int| 0 <= i < extents.len() && touches(#[trigger] extents[i], m, per)
}

/// The blocks in a directory block.
pub open spec fn blocks_per(sb: Superblock) -> int {
    pow2(sb.dirblk_log as nat) as int
}

/// The logical block where the names of a directory stop and its indexes
/// start.
pub open spec fn names_limit(sb: Superblock) -> int {
    LEAF_OFFSET as int / sb.block_size as int
}

/// The names in the directory blocks from logical block `m` on. A directory
/// block that no extent holds any of is a hole, and has none.
pub open spec fn names_from_block(sb: Superblock, img: Seq<u8>, ino: u64, extents: Seq<Extent>, m: int)
    -> core::result::Result<Seq<RawName>, Fault>
    decreases
        if m < names_limit(sb) {
            names_limit(sb) - m
        } else {
            0
        },
{
    let per = blocks_per(sb);
    if m >= names_limit(sb) || per <= 0 {
        Ok(Seq::empty())
    } else if !any_touches(extents, m, per) {
        names_from_block(sb, img, ino, extents, m + per)
    } else {
        match mapped(sb, img, extents, m as u64, per as u64) {
            Err(f) => Err(f),
            Ok(buf) => match data_block_names(sb, buf, ino) {
                (names, None) => prefixed(names, names_from_block(sb, img, ino, extents, m + per)),
                (_, Some(f)) => Err(f),
            },
        }
    }
}

/// Every name in a directory as stored, `.` and `..` first or where they are.
pub open spec fn names_of(sb: Superblock, img: Seq<u8>, inode: InodeView) -> core::result::Result<
    Seq<RawName>,
    Fault,
> {
    if !inode.is_dir() {
        Err(Fault::NotADirectory(around("inode "@, inode.ino as nat, ""@)))
    } else if inode.format == Format::Local {
        match shortform_of(sb, inode.data_fork, inode.size) {
            Err(f) => Err(f),
            Ok((parent, names)) => Ok(
                seq![
                    RawName { name: dot(), ino: inode.ino, ftype: FileType::Directory },
                    RawName { name: dot_dot(), ino: parent, ftype: FileType::Directory },
                ] + names,
            ),
        }
    } else {
        match fork_map(sb, img, inode, false) {
            Err(f) => Err(f),
            Ok(extents) => names_from_block(sb, img, inode.ino, extents, 0),
        }
    }
}

/// The inode of the first of `names` that is `name`, if any is.
pub open spec fn first_named(names: Seq<RawName>, name: Seq<u8>) -> Option<u64>
    decreases names.len(),
{
    if names.len() == 0 {
        None
    } else if names[0].name == name {
        Some(names[0].ino)
    } else {
        first_named(names.skip(1), name)
    }
}

/// The inode that a directory gives for a name, if it has the name.
pub open spec fn child_of(sb: Superblock, img: Seq<u8>, dir: InodeView, name: Seq<u8>) -> core::result::Result<
    Option<u64>,
    Fault,
> {
    match names_of(sb, img, dir) {
        Err(f) => Err(f),
        Ok(names) => Ok(first_named(names, name)),
    }
}

/// The type of a name: the one recorded with it, or else its inode's.
pub open spec fn kind_of(sb: Superblock, img: Seq<u8>, e: RawName) -> core::result::Result<FileType, Fault> {
    if e.ftype == FileType::Unknown {
        match inode_from(sb, img, e.ino) {
            Err(f) => Err(f),
            Ok(inode) => Ok(type_of_mode(inode.mode)),
        }
    } else {
        Ok(e.ftype)
    }
}

/// What `names` are, without `.` and `..`.
pub open spec fn entries_of(sb: Superblock, img: Seq<u8>, names: Seq<RawName>) -> core::result::Result<
    Seq<EntryView>,
    Fault,
>
    decreases names.len(),
{
    if names.len() == 0 {
        Ok(Seq::empty())
    } else {
        let e = names[0];
        if e.name == dot() || e.name == dot_dot() {
            entries_of(sb, img, names.skip(1))
        } else {
            match kind_of(sb, img, e) {
                Err(f) => Err(f),
                Ok(kind) => prefixed(
                    seq![
                        EntryView {
                            name: lossy_text(e.name),
                            raw_name: e.name,
                            inode: e.ino,
                            kind,
                            is_dir: kind == FileType::Directory,
                        },
                    ],
                    entries_of(sb, img, names.skip(1)),
                ),
            }
        }
    }
}

/// The entries of a directory, without `.` and `..`.
pub open spec fn listing(sb: Superblock, img: Seq<u8>, inode: InodeView) -> core::result::Result<
    Seq<EntryView>,
    Fault,
> {
    match names_of(sb, img, inode) {
        Err(f) => Err(f),
        Ok(names) => entries_of(sb, img, names),
    }
}

/// Whether an inode is a directory whose names are in blocks of their own. A
/// small directory's are read with the inode.
pub open spec fn has_name_blocks(inode: InodeView) -> bool {
    inode.is_dir() && inode.format != Format::Local
}

/// Whether a type is recorded with every one of `names`.
pub open spec fn all_typed(names: Seq<RawName>) -> bool {
    forall|i: int| 0 <= i < names.len() ==> (#[trigger] names[i]).ftype != FileType::Unknown
}

/// Whether all there is to list of a directory was read with its inode.
pub open spec fn is_listed_inline(sb: Superblock, img: Seq<u8>, inode: InodeView) -> bool {
    !has_name_blocks(inode) && (names_of(sb, img, inode) matches Ok(names) ==> all_typed(names))
}

/// A listing never has `.` or `..` in it, and every entry is one of the names.
pub proof fn lemma_no_dots(sb: Superblock, img: Seq<u8>, names: Seq<RawName>)
    requires
        entries_of(sb, img, names) is Ok,
    ensures
        forall|i: int|
            0 <= i < entries_of(sb, img, names)->Ok_0.len() ==> {
                let e = #[trigger] entries_of(sb, img, names)->Ok_0[i];
                e.raw_name != dot() && e.raw_name != dot_dot() && e.name == lossy_text(e.raw_name) && e.is_dir == (
                e.kind == FileType::Directory) && exists|k: int|
                    0 <= k < names.len() && (#[trigger] names[k]).name == e.raw_name && names[k].ino == e.inode
            },
    decreases names.len(),
{
    if names.len() > 0 {
        let out = entries_of(sb, img, names)->Ok_0;
        let rest = names.skip(1);
        lemma_no_dots(sb, img, rest);
        let more = entries_of(sb, img, rest)->Ok_0;
        let shift = out.len() - more.len();
        assert forall|i: int| 0 <= i < out.len() implies {
            let e = #[trigger] out[i];
            e.raw_name != dot() && e.raw_name != dot_dot() && e.name == lossy_text(e.raw_name) && e.is_dir == (e.kind
                == FileType::Directory) && exists|k: int|
                0 <= k < names.len() && (#[trigger] names[k]).name == e.raw_name && names[k].ino == e.inode
        } by {
            if i >= shift {
                let e = more[i - shift];
                assert(out[i] == e);
                let k = choose|k: int|
                    0 <= k < rest.len() && (#[trigger] rest[k]).name == e.raw_name && rest[k].ino == e.inode;
                assert(names[k + 1] == rest[k]);
            } else {
                assert(names[0].name == out[i].raw_name);
            }
        }
    }
}

/// Directory blocks that no extent holds any of can be passed over.
proof fn lemma_holes_have_no_names(sb: Superblock, img: Seq<u8>, ino: u64, extents: Seq<Extent>, a: int, b: int)
    requires
        blocks_per(sb) > 0,
        0 <= a <= b,
        a % blocks_per(sb) == 0,
        b % blocks_per(sb) == 0,
        forall|m: int|
            a <= m < b && m < names_limit(sb) && m % blocks_per(sb) == 0 ==> !#[trigger] any_touches(
                extents,
                m,
                blocks_per(sb),
            ),
    ensures
        names_from_block(sb, img, ino, extents, a) == names_from_block(sb, img, ino, extents, b),
    decreases b - a,
{
    let per = blocks_per(sb);
    if a < b {
        lemma_next_multiple(a, b, per);
        if a < names_limit(sb) {
            assert(!any_touches(extents, a, per));
            lemma_holes_have_no_names(sb, img, ino, extents, a + per, b);
        }
    }
}

/// Multiples of `d` are at least `d` apart.
proof fn lemma_next_multiple(a: int, b: int, d: int)
    requires
        d > 0,
        a % d == 0,
        b % d == 0,
        a < b,
    ensures
        a + d <= b,
        (a + d) % d == 0,
{
    lemma_fundamental_div_mod(a, d);
    lemma_fundamental_div_mod(b, d);
    let x = a / d;
    let y = b / d;
    assert(x < y) by (nonlinear_arith)
        requires
            d * x < d * y,
            d > 0,
    ;
    assert(d * x + d <= d * y) by (nonlinear_arith)
        requires
            x + 1 <= y,
            d > 0,
    ;
    assert(a + d == (x + 1) * d) by (nonlinear_arith)
        requires
            a == d * x,
    ;
    lemma_mod_multiples_basic(x + 1, d);
}

/// Rounding down to a multiple.
proof fn lemma_round_down(n: int, d: int)
    requires
        0 <= n,
        0 < d,
    ensures
        0 <= n - n % d <= n,
        n < n - n % d + d,
        (n - n % d) % d == 0,
{
    lemma_fundamental_div_mod(n, d);
    lemma_mod_bound(n, d);
    let q = n / d;
    assert(0 <= q) by (nonlinear_arith)
        requires
            q == n / d,
            0 <= n,
            0 < d,
    ;
    assert(n - n % d == q * d) by (nonlinear_arith)
        requires
            n == d * q + n % d,
    ;
    assert(0 <= q * d) by (nonlinear_arith)
        requires
            0 <= q,
            0 < d,
    ;
    lemma_mod_multiples_basic(q, d);
}

/// The names of a directory lie in its first 32 GiB.
proof fn lemma_limit(sb: Superblock)
    requires
        sb.wf(),
    ensures
        0 <= names_limit(sb) <= LEAF_OFFSET,
{
    let bs = sb.block_size as int;
    let n = LEAF_OFFSET as int;
    assert(0 <= n / bs <= n) by (nonlinear_arith)
        requires
            bs >= 1,
            n >= 0,
    ;
}

/// Whether a name is `.` or `..`.
fn is_dots(name: &Vec<u8>) -> (r: bool)
    ensures
        r == (name@ == dot() || name@ == dot_dot()),
{
    let r: bool = (name.len() == 1 && name[0] == 46) || (name.len() == 2 && name[0] == 46 && name[1] == 46);
    proof {
        if r {
            if name@.len() == 1 {
                assert(name@ =~= dot());
            } else {
                assert(name@ =~= dot_dot());
            }
        }
    }
    r
}

impl<D: BlockDevice> Volume<D> {
    /// Add to `out` the names in the directory blocks from `lblk` to `stop`,
    /// all of which extent `i` holds some of. Returns where they end.
    fn extent_names(
        &self,
        ino: u64,
        extents: &Vec<Extent>,
        i: usize,
        lblk: u64,
        stop: u64,
        out: &mut Vec<RawEntry>,
    ) -> (r: Result<u64>)
        requires
            is_fork_map(extents@),
            i < extents@.len(),
            lblk as int % blocks_per(self.sb()) == 0,
            lblk <= stop,
            extents@[i as int].offset < lblk + blocks_per(self.sb()),
            stop <= extents@[i as int].spec_end(),
            stop <= names_limit(self.sb()),
        ensures
            match r {
                Ok(next) => {
                    &&& stop <= next < stop + blocks_per(self.sb())
                    &&& next as int % blocks_per(self.sb()) == 0
                    &&& prefixed(
                        views(old(out)@),
                        names_from_block(self.sb(), self.img(), ino, extents@, lblk as int),
                    ) == prefixed(
                        views(final(out)@),
                        names_from_block(self.sb(), self.img(), ino, extents@, next as int),
                    )
                },
                Err(e) => self.dev().may_fail(e@) || names_from_block(
                    self.sb(),
                    self.img(),
                    ino,
                    extents@,
                    lblk as int,
                ) == Err::<Seq<RawName>, Fault>(e@),
            },
    {
        let sb = self.superblock();
        assert(sb.dirblk_log < 64) by {
            sb.lemma_dir_block_size();
        }
        let per: u64 = power(sb.dirblk_log);
        let mut at: u64 = lblk;
        let ghost want = prefixed(
            views(out@),
            names_from_block(self.sb(), self.img(), ino, extents@, lblk as int),
        );
        proof {
            lemma_power_fits(sb.dirblk_log as nat);
            lemma_limit(*sb);
        }
        while at < stop
            invariant
                is_fork_map(extents@),
                i < extents@.len(),
                *sb == self.sb(),
                sb.wf(),
                per == blocks_per(*sb),
                0 < per <= 0x8000_0000_0000_0000,
                names_limit(*sb) <= LEAF_OFFSET,
                stop <= extents@[i as int].spec_end(),
                stop <= names_limit(*sb),
                extents@[i as int].offset < at + per,
                at as int % per as int == 0,
                at < stop + per,
                want == prefixed(
                    views(old(out)@),
                    names_from_block(self.sb(), self.img(), ino, extents@, lblk as int),
                ),
                want == prefixed(
                    views(out@),
                    names_from_block(self.sb(), self.img(), ino, extents@, at as int),
                ),
            decreases stop + per - at,
        {
            assert(any_touches(extents@, at as int, per as int)) by {
                assert(touches(extents@[i as int], at as int, per as int));
            }
            let buf = self.read_mapped(extents.as_slice(), at, per)?;
            proof {
                let bs = sb.block_size as int;
                assert(per * bs >= bs) by (nonlinear_arith)
                    requires
                        per >= 1,
                        bs >= 0,
                ;
                let got = data_block_names(self.sb(), buf@, ino);
                lemma_prefixed(
                    views(out@),
                    got.0,
                    names_from_block(self.sb(), self.img(), ino, extents@, at + per),
                );
                lemma_mod_add_multiples_vanish(at as int, per as int);
            }
            parse_data_block(sb, buf.as_slice(), ino, out)?;
            at += per;
        }
        Ok(at)
    }

    /// The names in the data blocks that `extents` map.
    fn block_names(&self, ino: u64, extents: &Vec<Extent>) -> (r: Result<Vec<RawEntry>>)
        requires
            is_fork_map(extents@),
        ensures
            settled(
                &self.dev(),
                list_outcome(r),
                names_from_block(self.sb(), self.img(), ino, extents@, 0),
            ),
    {
        let sb = self.superblock();
        assert(sb.dirblk_log < 64) by {
            sb.lemma_dir_block_size();
        }
        let per: u64 = power(sb.dirblk_log);
        let limit: u64 = LEAF_OFFSET / sb.block_size as u64;
        let mut out: Vec<RawEntry> = Vec::new();
        let mut next: u64 = 0;
        let mut i: usize = 0;
        let ghost want = names_from_block(self.sb(), self.img(), ino, extents@, 0);
        proof {
            lemma_power_fits(sb.dirblk_log as nat);
            lemma_limit(*sb);
            lemma_mod_multiples_basic(0, per as int);
            assert(views(out@) =~= Seq::<RawName>::empty());
            lemma_prefixed(views(out@), views(out@), want);
        }
        while i < extents.len()
            invariant
                i <= extents@.len(),
                is_fork_map(extents@),
                *sb == self.sb(),
                sb.wf(),
                per == blocks_per(*sb),
                0 < per <= 0x8000_0000_0000_0000,
                limit == names_limit(*sb),
                limit <= LEAF_OFFSET,
                next % per == 0,
                next < limit + per,
                want == prefixed(
                    views(out@),
                    names_from_block(self.sb(), self.img(), ino, extents@, next as int),
                ),
                want == names_from_block(self.sb(), self.img(), ino, extents@, 0),
                forall|m: int, j: int|
                    next <= m < limit && m % (per as int) == 0 && 0 <= j < i ==> !#[trigger] touches(
                        extents@[j],
                        m,
                        per as int,
                    ),
            decreases extents@.len() - i,
        {
            let e: Extent = extents[i];
            proof {
                lemma_round_down(e.offset as int, per as int);
            }
            let floor: u64 = e.offset - e.offset % per;
            let mut lblk: u64 = if floor < next {
                next
            } else {
                floor
            };
            let stop: u64 = if e.end() < limit {
                e.end()
            } else {
                limit
            };
            proof {
                assert forall|m: int, j: int|
                    next <= m < lblk && m < limit && m % (per as int) == 0 && 0 <= j < extents@.len() implies !#[trigger] touches(
                    extents@[j],
                    m,
                    per as int,
                ) by {
                    if j >= i {
                        lemma_next_multiple(m, floor as int, per as int);
                        if j > i {
                            assert(extents@[i as int].spec_end() <= extents@[j].offset);
                        }
                    }
                }
            }
            if lblk < stop {
                proof {
                    assert forall|m: int|
                        next <= m < lblk && m < names_limit(*sb) && m % blocks_per(*sb) == 0 implies !#[trigger] any_touches(
                        extents@,
                        m,
                        blocks_per(*sb),
                    ) by {
                        assert forall|j: int| 0 <= j < extents@.len() implies !touches(
                            #[trigger] extents@[j],
                            m,
                            per as int,
                        ) by {}
                    }
                    lemma_holes_have_no_names(self.sb(), self.img(), ino, extents@, next as int, lblk as int);
                }
                next = self.extent_names(ino, extents, i, lblk, stop, &mut out)?;
            }
            i += 1;
            assert forall|m: int, j: int|
                next <= m < limit && m % (per as int) == 0 && 0 <= j < i implies !#[trigger] touches(
                extents@[j],
                m,
                per as int,
            ) by {}
        }
        proof {
            let top = next + per * (limit as int);
            assert(top >= limit) by (nonlinear_arith)
                requires
                    top == next + per * (limit as int),
                    per >= 1,
                    limit >= 0,
                    next >= 0,
            ;
            assert(top % (per as int) == 0) by {
                lemma_mod_multiples_vanish(limit as int, next as int, per as int);
            }
            assert(per * (limit as int) >= 0) by (nonlinear_arith)
                requires
                    per >= 1,
                    limit >= 0,
            ;
            assert forall|m: int|
                next <= m < top && m < names_limit(*sb) && m % blocks_per(*sb) == 0 implies !#[trigger] any_touches(
                extents@,
                m,
                blocks_per(*sb),
            ) by {
                assert forall|j: int| 0 <= j < extents@.len() implies !touches(#[trigger] extents@[j], m, per as int) by {}
            }
            lemma_holes_have_no_names(self.sb(), self.img(), ino, extents@, next as int, top);
            assert(views(out@) + Seq::<RawName>::empty() =~= views(out@));
        }
        Ok(out)
    }

    /// Every name in a directory inode as stored, `.` and `..` included.
    #[verifier::rlimit(40)]
    pub(crate) fn dir_entries(&self, inode: &Inode) -> (r: Result<Vec<RawEntry>>)
        ensures
            settled(&self.dev(), list_outcome(r), names_of(self.sb(), self.img(), inode@)),
            !has_name_blocks(inode@) ==> list_outcome(r) == names_of(self.sb(), self.img(), inode@),
    {
        if !inode.is_dir() {
            return Err(Error::NotADirectory(numbered("inode ", inode.ino, "")));
        }
        if inode.format == Format::Local {
            let (parent, mut names) = parse_shortform(
                self.superblock(),
                inode.data_fork.as_slice(),
                inode.size,
            )?;
            let ghost listed = names@;
            let up: Vec<u8> = vec![46u8, 46u8];
            let here: Vec<u8> = vec![46u8];
            proof {
                assert(up@ =~= dot_dot());
                assert(here@ =~= dot());
            }
            names.insert(0, RawEntry { name: up, ino: parent, ftype: FileType::Directory });
            names.insert(0, RawEntry { name: here, ino: inode.ino, ftype: FileType::Directory });
            proof {
                let front = seq![
                    RawName { name: dot(), ino: inode.ino, ftype: FileType::Directory },
                    RawName { name: dot_dot(), ino: parent, ftype: FileType::Directory },
                ];
                assert(views(names@) =~= front + views(listed));
            }
            return Ok(names);
        }
        let extents = self.extents(inode, false)?;
        self.block_names(inode.ino, &extents)
    }

    /// The inode that a directory gives for a name, if it has the name.
    pub(crate) fn dir_lookup(&self, dir_inode: &Inode, name: &[u8]) -> (r: Result<Option<u64>>)
        ensures
            settled(&self.dev(), verdict(r), child_of(self.sb(), self.img(), dir_inode@, name@)),
            !has_name_blocks(dir_inode@) ==> verdict(r) == child_of(self.sb(), self.img(), dir_inode@, name@),
    {
        let names = self.dir_entries(dir_inode)?;
        let mut i: usize = 0;
        assert(views(names@).skip(0) =~= views(names@));
        while i < names.len()
            invariant
                i <= names@.len(),
                first_named(views(names@), name@) == first_named(views(names@).skip(i as int), name@),
                child_of(self.sb(), self.img(), dir_inode@, name@) == Ok::<Option<u64>, Fault>(
                    first_named(views(names@), name@),
                ),
            decreases names@.len() - i,
        {
            assert(views(names@).skip(i as int)[0] == names@[i as int]@);
            if same_bytes(names[i].name.as_slice(), name) {
                return Ok(Some(names[i].ino));
            }
            assert(views(names@).skip(i as int).skip(1) =~= views(names@).skip(i + 1));
            i += 1;
        }
        Ok(None)
    }

    /// The type of a name: the one recorded with it, or else its inode's.
    fn entry_kind(&self, e: &RawEntry) -> (r: Result<FileType>)
        ensures
            settled(&self.dev(), verdict(r), kind_of(self.sb(), self.img(), e@)),
            e@.ftype != FileType::Unknown ==> verdict(r) == kind_of(self.sb(), self.img(), e@),
    {
        match e.ftype {
            FileType::Unknown => {
                let inode = self.inode(e.ino)?;
                Ok(FileType::from_mode(inode.mode))
            },
            k => Ok(k),
        }
    }

    /// Entries of a directory inode, without `.` and `..`, with each one's
    /// type filled in from its inode where the directory does not record it.
    pub fn read_dir_inode(&self, inode: &Inode) -> (r: Result<Vec<Entry>>)
        ensures
            settled(&self.dev(), list_outcome(r), listing(self.sb(), self.img(), inode@)),
            is_listed_inline(self.sb(), self.img(), inode@) ==> list_outcome(r) == listing(
                self.sb(),
                self.img(),
                inode@,
            ),
    {
        let names = self.dir_entries(inode)?;
        let mut out: Vec<Entry> = Vec::new();
        let mut i: usize = 0;
        let ghost want = entries_of(self.sb(), self.img(), views(names@));
        proof {
            assert(views(names@).skip(0) =~= views(names@));
            assert(views(out@) =~= Seq::<EntryView>::empty());
            lemma_prefixed(views(out@), views(out@), want);
        }
        while i < names.len()
            invariant
                i <= names@.len(),
                want == prefixed(
                    views(out@),
                    entries_of(self.sb(), self.img(), views(names@).skip(i as int)),
                ),
                want == listing(self.sb(), self.img(), inode@),
                is_listed_inline(self.sb(), self.img(), inode@) ==> all_typed(views(names@)),
            decreases names@.len() - i,
        {
            let e: &RawEntry = &names[i];
            let ghost left = views(names@).skip(i as int);
            assert(left[0] == e@);
            assert(left.skip(1) =~= views(names@).skip(i + 1));
            if !is_dots(&e.name) {
                let kind = self.entry_kind(e)?;
                let entry = Entry {
                    name: lossy(e.name.as_slice()),
                    raw_name: cut(e.name.as_slice(), 0, e.name.len()),
                    inode: e.ino,
                    kind,
                    is_dir: kind == FileType::Directory,
                };
                proof {
                    assert(e.name@.subrange(0, e.name@.len() as int) =~= e.name@);
                    lemma_views_push(out@, entry);
                    assert(views(out@).push(entry@) =~= views(out@) + seq![entry@]);
                    lemma_prefixed(
                        views(out@),
                        seq![entry@],
                        entries_of(self.sb(), self.img(), left.skip(1)),
                    );
                }
                out.push(entry);
            }
            i += 1;
        }
        proof {
            assert(views(out@) + Seq::<EntryView>::empty() =~= views(out@));
        }
        Ok(out)
    }
}

} // verus!
