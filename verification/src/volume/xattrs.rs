//! Extended attributes.

use std::collections::HashSet;
use vstd::prelude::*;
use vstd::string::*;

use crate::attr::{
    all_inline, all_reported, block_of, is_reported_name, lemma_leaf, lemma_shortform, parse_block, parse_shortform,
    posix_acl, posix_acl_of, remote_blocks, remote_blocks_of, remote_payload, remote_payload_of, shortform_of, Block,
    BlockView, Found, FoundView, Value, ValueView, Xattr, XattrView,
};
use crate::bmap::{is_fork_map, Extent};
use crate::bytes::{extend, lemma_views_add, lemma_views_push, views};
use crate::device::{settled, BlockDevice};
use crate::error::{lemma_prefixed, list_outcome, outcome, prefixed, Fault, Result};
use crate::inode::{inode_error, inode_fault, Format, Inode, InodeView};
use crate::sb::Superblock;
use crate::sort::flipped;
use crate::text::begins_with;
use crate::volume::map::{fork_map, mapped};
use crate::volume::Volume;

verus! {

/// No more attribute blocks than this are followed.
pub const MAX_ATTR_BLOCKS: u32 = 0x10_0000;

/// The names in the attribute blocks from `blk` on, the blocks `seen` having
/// been read on the way there: down the leftmost children to the first leaf,
/// then from leaf to leaf.
pub open spec fn chained(sb: Superblock, img: Seq<u8>, ino: u64, extents: Seq<Extent>, blk: u32, seen: Seq<u32>)
    -> core::result::Result<Seq<FoundView>, Fault>
    decreases MAX_ATTR_BLOCKS - seen.len(),
{
    if seen.contains(blk) || seen.len() >= MAX_ATTR_BLOCKS {
        Err(inode_fault(ino, ": attribute blocks loop"@))
    } else {
        match mapped(sb, img, extents, blk as u64, 1) {
            Err(f) => Err(f),
            Ok(buf) => match block_of(sb, buf, ino, blk as u64) {
                Err(f) => Err(f),
                Ok(BlockView::Node { first_child }) => chained(
                    sb,
                    img,
                    ino,
                    extents,
                    first_child,
                    seen.push(blk),
                ),
                Ok(BlockView::Leaf { found, forw }) => if forw == 0 {
                    Ok(found)
                } else {
                    prefixed(found, chained(sb, img, ino, extents, forw, seen.push(blk)))
                },
            },
        }
    }
}

/// The attributes of an inode, before their values are fetched.
///
/// An attribute fork made ready and never used holds none: Linux gives new
/// inodes one up front when ACLs or security labels may follow.
pub open spec fn found_of(sb: Superblock, img: Seq<u8>, inode: InodeView) -> core::result::Result<
    Seq<FoundView>,
    Fault,
> {
    match inode.aformat {
        None => Ok(Seq::empty()),
        Some(Format::Local) => shortform_of(inode.attr_fork),
        Some(Format::Dev) => Err(inode_fault(inode.ino, ": device-format attributes"@)),
        Some(format) => if format == Format::Extents && inode.anextents == 0 {
            Ok(Seq::empty())
        } else {
            match fork_map(sb, img, inode, true) {
                Err(f) => Err(f),
                Ok(extents) => chained(sb, img, inode.ino, extents, 0, Seq::empty()),
            }
        },
    }
}

/// What is left of `len` bytes after `have` of them.
pub open spec fn still_wanted(len: u32, have: nat) -> nat {
    if have < len {
        (len - have) as nat
    } else {
        0
    }
}

/// The bytes of a remote value of `len` bytes that starts at block `blk`,
/// those of its blocks before the `i`th being `acc`.
pub open spec fn remote_bytes(
    sb: Superblock,
    img: Seq<u8>,
    ino: u64,
    extents: Seq<Extent>,
    blk: u32,
    len: u32,
    i: int,
    acc: Seq<u8>,
) -> core::result::Result<Seq<u8>, Fault>
    decreases remote_blocks_of(sb, len as nat) - i,
{
    if i >= remote_blocks_of(sb, len as nat) {
        Ok(acc)
    } else {
        match mapped(sb, img, extents, (blk + i) as u64, 1) {
            Err(f) => Err(f),
            Ok(buf) => match remote_payload_of(sb, buf, ino, still_wanted(len, acc.len())) {
                Err(f) => Err(f),
                Ok(part) => remote_bytes(sb, img, ino, extents, blk, len, i + 1, acc + part),
            },
        }
    }
}

/// The value of attribute `f` as stored.
pub open spec fn stored_value(sb: Superblock, img: Seq<u8>, inode: InodeView, f: FoundView) -> core::result::Result<
    Seq<u8>,
    Fault,
> {
    match f.value {
        ValueView::Inline(v) => Ok(v),
        ValueView::Remote { blk, len } => match fork_map(sb, img, inode, true) {
            Err(x) => Err(x),
            Ok(extents) => match remote_bytes(sb, img, inode.ino, extents, blk, len, 0, Seq::empty()) {
                Err(x) => Err(x),
                Ok(v) => if v.len() != len {
                    Err(inode_fault(inode.ino, ": remote attribute "@ + f.name))
                } else {
                    Ok(v)
                },
            },
        },
    }
}

/// The value of an attribute called `name` as Linux reports it: ACLs are
/// rewritten.
pub open spec fn shown_value(name: Seq<char>, value: Seq<u8>) -> core::result::Result<Seq<u8>, Fault> {
    if "system.posix_acl_"@.is_prefix_of(name) {
        posix_acl_of(value)
    } else {
        Ok(value)
    }
}

/// The value of attribute `f` as Linux reports it.
pub open spec fn value_of(sb: Superblock, img: Seq<u8>, inode: InodeView, f: FoundView) -> core::result::Result<
    Seq<u8>,
    Fault,
> {
    match stored_value(sb, img, inode, f) {
        Err(x) => Err(x),
        Ok(v) => shown_value(f.name, v),
    }
}

/// The attributes `found`, with their values.
pub open spec fn with_values(sb: Superblock, img: Seq<u8>, inode: InodeView, found: Seq<FoundView>)
    -> core::result::Result<Seq<XattrView>, Fault>
    decreases found.len(),
{
    if found.len() == 0 {
        Ok(Seq::empty())
    } else {
        match value_of(sb, img, inode, found[0]) {
            Err(x) => Err(x),
            Ok(value) => prefixed(
                seq![XattrView { name: found[0].name, value }],
                with_values(sb, img, inode, found.skip(1)),
            ),
        }
    }
}

/// Every user-visible extended attribute of an inode.
pub open spec fn xattrs_of(sb: Superblock, img: Seq<u8>, inode: InodeView) -> core::result::Result<
    Seq<XattrView>,
    Fault,
> {
    match found_of(sb, img, inode) {
        Err(f) => Err(f),
        Ok(found) => with_values(sb, img, inode, found),
    }
}

/// Whether an inode has attributes in blocks of their own. Others are read
/// with the inode, or are not there.
pub open spec fn has_attr_blocks(inode: InodeView) -> bool {
    match inode.aformat {
        Some(Format::Extents) => inode.anextents != 0,
        Some(Format::Btree) => true,
        _ => false,
    }
}

proof fn lemma_chained(sb: Superblock, img: Seq<u8>, ino: u64, extents: Seq<Extent>, blk: u32, seen: Seq<u32>)
    ensures
        chained(sb, img, ino, extents, blk, seen) matches Ok(found) ==> all_reported(found),
    decreases MAX_ATTR_BLOCKS - seen.len(),
{
    if !seen.contains(blk) && seen.len() < MAX_ATTR_BLOCKS {
        if let Ok(buf) = mapped(sb, img, extents, blk as u64, 1) {
            lemma_leaf(sb, buf, ino, blk as u64);
            match block_of(sb, buf, ino, blk as u64) {
                Ok(BlockView::Node { first_child }) => lemma_chained(
                    sb,
                    img,
                    ino,
                    extents,
                    first_child,
                    seen.push(blk),
                ),
                Ok(BlockView::Leaf { found, forw }) => lemma_chained(sb, img, ino, extents, forw, seen.push(blk)),
                Err(_) => {},
            }
        }
    }
}

proof fn lemma_with_values(sb: Superblock, img: Seq<u8>, inode: InodeView, found: Seq<FoundView>)
    ensures
        with_values(sb, img, inode, found) matches Ok(xattrs) ==> xattrs.len() == found.len() && forall|i: int|
            0 <= i < found.len() ==> (#[trigger] xattrs[i]).name == found[i].name && value_of(
                sb,
                img,
                inode,
                found[i],
            ) == Ok::<Seq<u8>, Fault>(xattrs[i].value),
    decreases found.len(),
{
    if found.len() > 0 {
        let rest = found.skip(1);
        lemma_with_values(sb, img, inode, rest);
        if let Ok(xattrs) = with_values(sb, img, inode, found) {
            let more = with_values(sb, img, inode, rest)->Ok_0;
            assert forall|i: int| 0 <= i < found.len() implies (#[trigger] xattrs[i]).name == found[i].name && value_of(
                sb,
                img,
                inode,
                found[i],
            ) == Ok::<Seq<u8>, Fault>(xattrs[i].value) by {
                if i > 0 {
                    assert(xattrs[i] == more[i - 1]);
                    assert(found[i] == rest[i - 1]);
                }
            }
        }
    }
}

/// Every extended attribute of an inode goes by a name that Linux reports:
/// one in the namespaces `user.`, `trusted.` and `security.`, or that of an
/// ACL, whose value is the stored one rewritten.
pub proof fn lemma_xattrs(sb: Superblock, img: Seq<u8>, inode: InodeView)
    requires
        xattrs_of(sb, img, inode) is Ok,
    ensures
        ({
            let xattrs = xattrs_of(sb, img, inode)->Ok_0;
            let found = found_of(sb, img, inode)->Ok_0;
            &&& found_of(sb, img, inode) is Ok
            &&& xattrs.len() == found.len()
            &&& forall|i: int|
                0 <= i < xattrs.len() ==> {
                    let x = #[trigger] xattrs[i];
                    &&& is_reported_name(x.name)
                    &&& x.name == found[i].name
                    &&& stored_value(sb, img, inode, found[i]) is Ok
                    &&& shown_value(x.name, stored_value(sb, img, inode, found[i])->Ok_0) == Ok::<Seq<u8>, Fault>(
                        x.value,
                    )
                }
        }),
{
    let found = found_of(sb, img, inode)->Ok_0;
    lemma_with_values(sb, img, inode, found);
    assert(all_reported(found)) by {
        lemma_shortform(inode.attr_fork);
        if let Ok(extents) = fork_map(sb, img, inode, true) {
            lemma_chained(sb, img, inode.ino, extents, 0, Seq::empty());
        }
    }
}

impl<D: BlockDevice> Volume<D> {
    /// The names in the blocks of an attribute fork.
    fn chain(&self, ino: u64, extents: &Vec<Extent>) -> (r: Result<Vec<Found>>)
        requires
            is_fork_map(extents@),
        ensures
            settled(
                &self.dev(),
                list_outcome(r),
                chained(self.sb(), self.img(), ino, extents@, 0, Seq::empty()),
            ),
    {
        broadcast use vstd::std_specs::hash::group_hash_axioms;

        let sb = self.superblock();
        let mut found: Vec<Found> = Vec::new();
        let mut seen: HashSet<u32> = HashSet::new();
        let mut blk: u32 = 0;
        let ghost mut path: Seq<u32> = Seq::empty();
        let ghost want = chained(self.sb(), self.img(), ino, extents@, 0, Seq::empty());
        proof {
            assert(views(found@) =~= Seq::<FoundView>::empty());
            lemma_prefixed(views(found@), views(found@), want);
        }
        loop
            invariant
                is_fork_map(extents@),
                *sb == self.sb(),
                sb.wf(),
                want == prefixed(
                    views(found@),
                    chained(self.sb(), self.img(), ino, extents@, blk, path),
                ),
                want == chained(self.sb(), self.img(), ino, extents@, 0, Seq::empty()),
                forall|x: u32| seen@.contains(x) <==> path.contains(x),
                seen@.len() == path.len(),
                seen@.finite(),
                path.len() <= MAX_ATTR_BLOCKS,
            decreases MAX_ATTR_BLOCKS - path.len(),
        {
            let ghost before = path;
            let fresh: bool = seen.insert(blk);
            if !fresh || seen.len() > MAX_ATTR_BLOCKS as usize {
                return Err(inode_error(ino, ": attribute blocks loop"));
            }
            proof {
                path = path.push(blk);
                assert forall|x: u32| seen@.contains(x) <==> path.contains(x) by {
                    if before.contains(x) {
                        let k = before.index_of(x);
                        assert(path[k] == x);
                    }
                    if x == blk {
                        assert(path[before.len() as int] == x);
                    }
                }
            }
            let buf = self.read_mapped(extents.as_slice(), blk as u64, 1)?;
            match parse_block(sb, buf.as_slice(), ino, blk as u64)? {
                Block::Node { first_child } => {
                    blk = first_child;
                },
                Block::Leaf { found: f, forw } => {
                    let mut more = f;
                    proof {
                        lemma_views_add(found@, more@);
                        lemma_prefixed(
                            views(found@),
                            views(more@),
                            chained(self.sb(), self.img(), ino, extents@, forw, path),
                        );
                    }
                    found.append(&mut more);
                    if forw == 0 {
                        return Ok(found);
                    }
                    blk = forw;
                },
            }
        }
    }

    /// The attributes of an inode, before their values are fetched.
    fn found(&self, inode: &Inode) -> (r: Result<Vec<Found>>)
        ensures
            settled(&self.dev(), list_outcome(r), found_of(self.sb(), self.img(), inode@)),
            !has_attr_blocks(inode@) ==> list_outcome(r) == found_of(self.sb(), self.img(), inode@) && (r matches Ok(
                found,
            ) ==> all_inline(views(found@))),
    {
        proof {
            lemma_shortform(inode.attr_fork@);
        }
        match inode.aformat {
            None => {
                let none: Vec<Found> = Vec::new();
                assert(views(none@) =~= Seq::<FoundView>::empty());
                Ok(none)
            },
            Some(Format::Local) => parse_shortform(inode.attr_fork.as_slice()),
            Some(Format::Dev) => Err(inode_error(inode.ino, ": device-format attributes")),
            Some(format) => {
                if format == Format::Extents && inode.anextents == 0 {
                    let none: Vec<Found> = Vec::new();
                    assert(views(none@) =~= Seq::<FoundView>::empty());
                    return Ok(none);
                }
                let extents = self.extents(inode, true)?;
                self.chain(inode.ino, &extents)
            },
        }
    }

    /// The bytes of a remote value of `len` bytes that starts at block `blk`.
    fn read_remote(&self, ino: u64, extents: &Vec<Extent>, blk: u32, len: u32) -> (r: Result<Vec<u8>>)
        requires
            is_fork_map(extents@),
        ensures
            settled(
                &self.dev(),
                outcome(r),
                remote_bytes(self.sb(), self.img(), ino, extents@, blk, len, 0, Seq::empty()),
            ),
    {
        let sb = self.superblock();
        let n: u64 = remote_blocks(sb, len);
        let mut v: Vec<u8> = Vec::new();
        let mut i: u64 = 0;
        let ghost want = remote_bytes(self.sb(), self.img(), ino, extents@, blk, len, 0, Seq::empty());
        assert(v@ =~= Seq::<u8>::empty());
        while i < n
            invariant
                i <= n <= len,
                n == remote_blocks_of(*sb, len as nat),
                is_fork_map(extents@),
                *sb == self.sb(),
                sb.wf(),
                want == remote_bytes(self.sb(), self.img(), ino, extents@, blk, len, 0, Seq::empty()),
                want == remote_bytes(self.sb(), self.img(), ino, extents@, blk, len, i as int, v@),
            decreases n - i,
        {
            let buf = self.read_mapped(extents.as_slice(), blk as u64 + i, 1)?;
            let left: usize = if (v.len() as u64) < len as u64 {
                (len as u64 - v.len() as u64) as usize
            } else {
                0
            };
            let part = remote_payload(sb, buf.as_slice(), ino, left)?;
            extend(&mut v, part);
            i += 1;
        }
        Ok(v)
    }

    /// Every user-visible extended attribute of an inode.
    #[verifier::rlimit(40)]
    pub fn xattrs_inode(&self, inode: &Inode) -> (r: Result<Vec<Xattr>>)
        ensures
            settled(&self.dev(), list_outcome(r), xattrs_of(self.sb(), self.img(), inode@)),
            !has_attr_blocks(inode@) ==> list_outcome(r) == xattrs_of(self.sb(), self.img(), inode@),
    {
        let found = self.found(inode)?;
        let ghost all = views(found@);
        let ghost want = with_values(self.sb(), self.img(), inode@, all);
        let mut left = flipped(found);
        let mut out: Vec<Xattr> = Vec::new();
        let mut extents: Option<Vec<Extent>> = None;
        proof {
            assert(views(left@).reverse() =~= all);
            assert(views(out@) =~= Seq::<XattrView>::empty());
            lemma_prefixed(views(out@), views(out@), want);
        }
        while left.len() > 0
            invariant
                want == prefixed(
                    views(out@),
                    with_values(self.sb(), self.img(), inode@, views(left@).reverse()),
                ),
                want == xattrs_of(self.sb(), self.img(), inode@),
                !has_attr_blocks(inode@) ==> all_inline(views(left@).reverse()),
                extents matches Some(v) ==> is_fork_map(v@) && fork_map(self.sb(), self.img(), inode@, true) == Ok::<
                    Seq<Extent>,
                    Fault,
                >(v@),
            decreases left@.len(),
        {
            let ghost todo = views(left@).reverse();
            let f: Found = match left.pop() {
                Some(f) => f,
                None => return Ok(out),
            };
            proof {
                assert(todo[0] == f@);
                assert(views(left@).reverse() =~= todo.skip(1));
            }
            let value: Vec<u8> = match f.value {
                Value::Inline(v) => v,
                Value::Remote { blk, len } => {
                    if extents.is_none() {
                        extents = Some(self.extents(inode, true)?);
                    }
                    let v = match &extents {
                        Some(ext) => self.read_remote(inode.ino, ext, blk, len)?,
                        None => Vec::new(),
                    };
                    if v.len() as u64 != len as u64 {
                        let what = String::from_str(": remote attribute ").concat(f.name.as_str());
                        return Err(inode_error(inode.ino, what.as_str()));
                    }
                    v
                },
            };
            let shown: Vec<u8> = if begins_with(f.name.as_str(), "system.posix_acl_") {
                posix_acl(value.as_slice())?
            } else {
                value
            };
            let x = Xattr { name: f.name, value: shown };
            proof {
                lemma_views_push(out@, x);
                assert(views(out@).push(x@) =~= views(out@) + seq![x@]);
                lemma_prefixed(
                    views(out@),
                    seq![x@],
                    with_values(self.sb(), self.img(), inode@, todo.skip(1)),
                );
            }
            out.push(x);
        }
        proof {
            assert(views(left@).reverse() =~= Seq::<FoundView>::empty());
            assert(views(out@) + Seq::<XattrView>::empty() =~= views(out@));
        }
        Ok(out)
    }
}

} // verus!
