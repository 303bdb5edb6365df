//! Forks: where their blocks are, and what those hold.

use std::collections::HashSet;
use vstd::arithmetic::div_mod::{lemma_div_is_ordered, lemma_div_pos_is_pos, lemma_fundamental_div_mod};
use vstd::arithmetic::mul::lemma_mul_is_commutative;
use vstd::prelude::*;
use vstd::string::*;

use crate::bmap::{
    block_room, btree_block_of, btree_root, btree_root_of, check_btree_block, finish, finished, first_past,
    inline_extents, inline_extents_of, is_fork_map, leaf_extents, leaf_extents_of, node_ptrs, node_ptrs_of,
    Extent,
};
use crate::bytes::{cut, overwrite, overwritten, zero_bytes, zeroes};
use crate::device::{settled, BlockDevice};
use crate::error::{around, lemma_prefixed, numbered, outcome, prefixed, Error, Fault, Result};
use crate::inode::{inode_error, inode_fault, Format, Inode, InodeView};
use crate::sb::Superblock;
use crate::text::{decimal, push_decimal};
use crate::volume::blocks::{blocks_of, buffer_len, too_large, too_large_error};
use crate::volume::Volume;

verus! {

/// B+tree block `fsb` of inode `ino`, which should be at level `want`: its
/// bytes and how many records it has.
pub open spec fn tree_block(sb: Superblock, img: Seq<u8>, ino: u64, fsb: u64, want: u16) -> core::result::Result<
    (Seq<u8>, usize),
    Fault,
> {
    match blocks_of(sb, img, fsb, 1) {
        Err(f) => Err(f),
        Ok(buf) => match btree_block_of(sb, buf, fsb, ino) {
            Err(f) => Err(f),
            Ok((level, n)) => if level != want {
                Err(
                    inode_fault(
                        ino,
                        ": bmap block "@ + decimal(fsb as nat) + " at level "@ + decimal(level as nat)
                            + ", expected "@ + decimal(want as nat),
                    ),
                )
            } else {
                Ok((buf, n))
            },
        },
    }
}

/// Block numbers, each with the level the block should be at.
pub open spec fn at_level(ptrs: Seq<u64>, level: u16) -> Seq<(u64, u16)> {
    Seq::new(ptrs.len(), |i: int| (ptrs[i], level))
}

/// The records of the leaves under the blocks `todo`, in order, the blocks
/// `seen` having been read on the way there. A tree has no block twice, and
/// no more blocks than the inode counts, give or take its root.
pub open spec fn leaves_under(
    sb: Superblock,
    img: Seq<u8>,
    ino: u64,
    nblocks: u64,
    todo: Seq<(u64, u16)>,
    seen: Seq<u64>,
) -> core::result::Result<Seq<Extent>, Fault>
    decreases nblocks + 1 - seen.len(),
{
    if todo.len() == 0 {
        Ok(Seq::empty())
    } else {
        let (fsb, level) = todo[0];
        if seen.contains(fsb) || seen.len() > nblocks {
            Err(inode_fault(ino, ": bmap B+tree loops"@))
        } else {
            match tree_block(sb, img, ino, fsb, level) {
                Err(f) => Err(f),
                Ok((buf, n)) => if level == 0 {
                    prefixed(
                        leaf_extents_of(sb, buf, n as nat),
                        leaves_under(sb, img, ino, nblocks, todo.skip(1), seen.push(fsb)),
                    )
                } else {
                    leaves_under(
                        sb,
                        img,
                        ino,
                        nblocks,
                        at_level(node_ptrs_of(sb, buf, n as nat), (level - 1) as u16) + todo.skip(1),
                        seen.push(fsb),
                    )
                },
            }
        }
    }
}

/// The records of the B+tree rooted in a fork.
pub open spec fn tree_extents(sb: Superblock, img: Seq<u8>, ino: u64, nblocks: u64, fork: Seq<u8>)
    -> core::result::Result<Seq<Extent>, Fault> {
    match btree_root_of(fork) {
        Err(f) => Err(f),
        Ok((level, ptrs)) => leaves_under(
            sb,
            img,
            ino,
            nblocks,
            at_level(ptrs, (level - 1) as u16),
            Seq::empty(),
        ),
    }
}

/// The extents of a fork kept as a B+tree, of which `recorded` are recorded
/// where the number is kept at all.
pub open spec fn tree_map(
    sb: Superblock,
    img: Seq<u8>,
    inode: InodeView,
    fork: Seq<u8>,
    recorded: Option<u64>,
) -> core::result::Result<Seq<Extent>, Fault> {
    match tree_extents(sb, img, inode.ino, inode.nblocks, fork) {
        Err(f) => Err(f),
        Ok(s) => match recorded {
            Some(n) if s.len() != n => Err(
                inode_fault(
                    inode.ino,
                    ": "@ + decimal(s.len()) + " extents in the B+tree, "@ + decimal(n as nat) + " recorded"@,
                ),
            ),
            _ => finished(s),
        },
    }
}

/// The format of an inode's data fork, or its attribute fork.
pub open spec fn fork_format(inode: InodeView, attr: bool) -> Option<Format> {
    if attr {
        inode.aformat
    } else {
        Some(inode.format)
    }
}

/// The bytes of an inode's data fork, or its attribute fork.
pub open spec fn fork_bytes(inode: InodeView, attr: bool) -> Seq<u8> {
    if attr {
        inode.attr_fork
    } else {
        inode.data_fork
    }
}

/// Whether a fork's extents are in blocks of their own. Others are read with
/// the inode, or are not there.
pub open spec fn has_tree_blocks(inode: InodeView, attr: bool) -> bool {
    fork_format(inode, attr) == Some(Format::Btree) && btree_root_of(fork_bytes(inode, attr)) is Ok
}

/// The extents of an inode's data fork, or its attribute fork.
pub open spec fn fork_map(sb: Superblock, img: Seq<u8>, inode: InodeView, attr: bool) -> core::result::Result<
    Seq<Extent>,
    Fault,
> {
    let fork = fork_bytes(inode, attr);
    let count = if attr {
        inode.anextents as u64
    } else {
        inode.nextents
    };
    match fork_format(inode, attr) {
        Some(Format::Extents) => match inline_extents_of(fork, count) {
            Err(f) => Err(f),
            Ok(s) => finished(s),
        },
        Some(Format::Btree) => tree_map(
            sb,
            img,
            inode,
            fork,
            if attr {
                None
            } else {
                Some(inode.nextents)
            },
        ),
        _ => Ok(Seq::empty()),
    }
}

/// The logical block where an extent's part of the blocks from `lblk` starts.
pub open spec fn part_from(e: Extent, lblk: u64) -> int {
    if e.offset < lblk {
        lblk as int
    } else {
        e.offset as int
    }
}

/// One past the logical block where an extent's part of the blocks up to
/// `end` ends.
pub open spec fn part_to(e: Extent, end: int) -> int {
    if e.spec_end() < end {
        e.spec_end()
    } else {
        end
    }
}

/// The bytes of the part of an extent that lies in the blocks from `lblk` to
/// `end`.
pub open spec fn part_of(sb: Superblock, img: Seq<u8>, e: Extent, lblk: u64, end: int) -> core::result::Result<
    Seq<u8>,
    Fault,
> {
    let from = part_from(e, lblk);
    let to = part_to(e, end);
    blocks_of(sb, img, (e.block + (from - e.offset)) as u64, (to - from) as u64)
}

/// Whether an extent says nothing of the blocks from `lblk` to `end`: it holds
/// none of them, or was never written.
pub open spec fn is_silent(e: Extent, lblk: u64, end: int) -> bool {
    e.unwritten || e.count == 0 || e.offset >= end || e.spec_end() <= lblk
}

/// Whether extents say nothing of the `count` blocks from `lblk`, which are
/// then all holes, or were never written.
pub open spec fn all_silent(extents: Seq<Extent>, lblk: u64, count: u64) -> bool {
    forall|i: int| 0 <= i < extents.len() ==> is_silent(#[trigger] extents[i], lblk, lblk + count)
}

/// `acc`, which holds the `count` logical blocks from `lblk`, with what the
/// extents from place `i` on say of them laid over it.
pub open spec fn laid_over(
    sb: Superblock,
    img: Seq<u8>,
    extents: Seq<Extent>,
    i: int,
    lblk: u64,
    count: u64,
    acc: Seq<u8>,
) -> core::result::Result<Seq<u8>, Fault>
    decreases extents.len() - i,
{
    let e = extents[i];
    let end = lblk + count;
    if i >= extents.len() {
        Ok(acc)
    } else if is_silent(e, lblk, end) {
        laid_over(sb, img, extents, i + 1, lblk, count, acc)
    } else {
        match part_of(sb, img, e, lblk, end) {
            Err(f) => Err(f),
            Ok(data) => laid_over(
                sb,
                img,
                extents,
                i + 1,
                lblk,
                count,
                overwritten(acc, (part_from(e, lblk) - lblk) * sb.block_size, data),
            ),
        }
    }
}

/// `count` logical blocks of a fork starting at `lblk`, with holes and
/// unwritten extents read as zeroes.
pub open spec fn mapped(sb: Superblock, img: Seq<u8>, extents: Seq<Extent>, lblk: u64, count: u64)
    -> core::result::Result<Seq<u8>, Fault> {
    let len = count * sb.block_size;
    if len > usize::MAX {
        Err(too_large(count))
    } else {
        laid_over(sb, img, extents, 0, lblk, count, zero_bytes(len as nat))
    }
}

/// The `len` bytes of an inode's contents from `offset`, clipped to its size.
pub open spec fn contents_of(
    sb: Superblock,
    img: Seq<u8>,
    inode: InodeView,
    extents: Seq<Extent>,
    offset: u64,
    len: u64,
) -> core::result::Result<Seq<u8>, Fault> {
    let bs = sb.block_size as int;
    let left = inode.size - offset;
    let n = if len < left {
        len as int
    } else {
        left
    };
    let first = offset as int / bs;
    let last = (offset + n - 1) / bs;
    let skip = offset - first * bs;
    if offset >= inode.size || len == 0 {
        Ok(Seq::empty())
    } else if inode.format == Format::Local {
        // Not written by Linux for regular files, but valid on disk.
        if offset + n > inode.data_fork.len() {
            Err(inode_fault(inode.ino, ": inline data past the fork"@))
        } else {
            Ok(inode.data_fork.subrange(offset as int, offset + n))
        }
    } else if inode.is_realtime() {
        Err(Fault::Unsupported(around("inode "@, inode.ino as nat, ": data on the realtime device"@)))
    } else {
        match mapped(sb, img, extents, first as u64, (last - first + 1) as u64) {
            Err(f) => Err(f),
            Ok(buf) => Ok(buf.subrange(skip, skip + n)),
        }
    }
}

/// Whether a read of an inode's contents reads blocks of the device: not where
/// there is nothing to read, nor inline data, nor holes.
pub open spec fn reads_blocks(sb: Superblock, inode: InodeView, extents: Seq<Extent>, offset: u64, len: u64) -> bool {
    let bs = sb.block_size as int;
    let n = clipped(inode.size, offset, len);
    let first = offset as int / bs;
    let last = (offset + n - 1) / bs;
    n > 0 && inode.format != Format::Local && !inode.is_realtime() && !all_silent(
        extents,
        first as u64,
        (last - first + 1) as u64,
    )
}

/// Put block numbers on a stack of work, the first on top.
fn stack_up(stack: &mut Vec<(u64, u16)>, ptrs: &Vec<u64>, level: u16)
    ensures
        final(stack)@.reverse() == at_level(ptrs@, level) + old(stack)@.reverse(),
{
    let mut i: usize = ptrs.len();
    let ghost before = stack@.reverse();
    let ghost all = at_level(ptrs@, level);
    assert(all.skip(i as int) + before =~= before);
    while i > 0
        invariant
            i <= ptrs@.len(),
            all == at_level(ptrs@, level),
            stack@.reverse() == all.skip(i as int) + before,
        decreases i,
    {
        i -= 1;
        let ghost was = stack@;
        stack.push((ptrs[i], level));
        assert(stack@.reverse() =~= seq![(ptrs@[i as int], level)] + was.reverse());
        assert(all.skip(i as int) =~= seq![all[i as int]] + all.skip(i + 1));
        assert(stack@.reverse() =~= all.skip(i as int) + before);
    }
    assert(all.skip(0) =~= all);
}

impl<D: BlockDevice> Volume<D> {
    /// B+tree block `fsb` of inode `ino`, which should be at level `want`.
    fn read_tree_block(&self, ino: u64, fsb: u64, want: u16) -> (r: Result<(Vec<u8>, usize)>)
        ensures
            settled(&self.dev(), outcome(r), tree_block(self.sb(), self.img(), ino, fsb, want)),
            r matches Ok((buf, n)) ==> buf@.len() == self.sb().block_size && n <= block_room(self.sb(), buf@.len()),
    {
        let sb = self.superblock();
        let buf = self.read_blocks(fsb, 1)?;
        let (level, n) = check_btree_block(sb, buf.as_slice(), fsb, ino)?;
        if level != want {
            let mut what = String::from_str(": bmap block ");
            push_decimal(&mut what, fsb);
            what.append(" at level ");
            push_decimal(&mut what, level as u64);
            what.append(", expected ");
            push_decimal(&mut what, want as u64);
            return Err(inode_error(ino, what.as_str()));
        }
        Ok((buf, n))
    }

    /// The records of the B+tree rooted in a fork.
    fn tree_extents(&self, ino: u64, nblocks: u64, fork: &[u8]) -> (r: Result<Vec<Extent>>)
        ensures
            settled(&self.dev(), outcome(r), tree_extents(self.sb(), self.img(), ino, nblocks, fork@)),
            btree_root_of(fork@) is Err ==> outcome(r) == tree_extents(self.sb(), self.img(), ino, nblocks, fork@),
            r matches Ok(v) ==> forall|i: int| 0 <= i < v@.len() ==> (#[trigger] v@[i]).is_packable(),
    {
        broadcast use vstd::std_specs::hash::group_hash_axioms;

        let sb = self.superblock();
        let (level, ptrs) = btree_root(fork)?;
        let mut out: Vec<Extent> = Vec::new();
        let mut seen: HashSet<u64> = HashSet::new();
        let mut stack: Vec<(u64, u16)> = Vec::new();
        stack_up(&mut stack, &ptrs, level - 1);
        let ghost mut path: Seq<u64> = Seq::empty();
        let ghost want = tree_extents(self.sb(), self.img(), ino, nblocks, fork@);
        proof {
            assert(stack@.reverse() =~= at_level(ptrs@, (level - 1) as u16));
            lemma_prefixed(
                out@,
                out@,
                leaves_under(self.sb(), self.img(), ino, nblocks, stack@.reverse(), path),
            );
        }
        while stack.len() > 0
            invariant
                *sb == self.sb(),
                sb.wf(),
                want == prefixed(
                    out@,
                    leaves_under(self.sb(), self.img(), ino, nblocks, stack@.reverse(), path),
                ),
                forall|i: int| 0 <= i < out@.len() ==> (#[trigger] out@[i]).is_packable(),
                forall|x: u64| seen@.contains(x) <==> path.contains(x),
                seen@.len() == path.len(),
                seen@.finite(),
                path.len() <= nblocks + 1,
                want == tree_extents(self.sb(), self.img(), ino, nblocks, fork@),
                btree_root_of(fork@) is Ok,
            decreases nblocks + 1 - path.len(),
        {
            let ghost todo = stack@.reverse();
            let ghost before = path;
            let (fsb, at): (u64, u16) = match stack.pop() {
                Some(top) => top,
                None => (0, 0),
            };
            proof {
                assert(todo[0] == (fsb, at));
                assert(stack@.reverse() =~= todo.skip(1));
            }
            let fresh: bool = seen.insert(fsb);
            if !fresh || seen.len() as u64 - 1 > nblocks {
                return Err(inode_error(ino, ": bmap B+tree loops"));
            }
            proof {
                path = path.push(fsb);
                assert forall|x: u64| seen@.contains(x) <==> path.contains(x) by {
                    if before.contains(x) {
                        let k = before.index_of(x);
                        assert(path[k] == x);
                    }
                    if x == fsb {
                        assert(path[before.len() as int] == x);
                    }
                }
            }
            let (buf, n) = self.read_tree_block(ino, fsb, at)?;
            if at == 0 {
                let mut leaf = leaf_extents(sb, buf.as_slice(), n);
                proof {
                    lemma_prefixed(
                        out@,
                        leaf@,
                        leaves_under(self.sb(), self.img(), ino, nblocks, todo.skip(1), path),
                    );
                }
                out.append(&mut leaf);
            } else {
                let ptrs = node_ptrs(sb, buf.as_slice(), n);
                stack_up(&mut stack, &ptrs, at - 1);
            }
        }
        proof {
            assert(stack@.reverse() =~= Seq::<(u64, u16)>::empty());
            assert(out@ + Seq::<Extent>::empty() =~= out@);
        }
        Ok(out)
    }

    /// The extents of an inode's data fork, or its attribute fork.
    pub fn extents(&self, inode: &Inode, attr: bool) -> (r: Result<Vec<Extent>>)
        ensures
            settled(&self.dev(), outcome(r), fork_map(self.sb(), self.img(), inode@, attr)),
            !has_tree_blocks(inode@, attr) ==> outcome(r) == fork_map(self.sb(), self.img(), inode@, attr),
            r matches Ok(v) ==> is_fork_map(v@),
    {
        let format: Format = if attr {
            match inode.aformat {
                None => return Ok(Vec::new()),
                Some(f) => f,
            }
        } else {
            inode.format
        };
        let fork: &Vec<u8> = if attr {
            &inode.attr_fork
        } else {
            &inode.data_fork
        };
        let count: u64 = if attr {
            inode.anextents as u64
        } else {
            inode.nextents
        };
        match format {
            Format::Extents => finish(inline_extents(fork.as_slice(), count)?),
            Format::Btree => {
                let out = self.tree_extents(inode.ino, inode.nblocks, fork.as_slice())?;
                let n: usize = out.len();
                if !attr && n as u64 != inode.nextents {
                    let mut what = String::from_str(": ");
                    push_decimal(&mut what, n as u64);
                    what.append(" extents in the B+tree, ");
                    push_decimal(&mut what, inode.nextents);
                    what.append(" recorded");
                    return Err(inode_error(inode.ino, what.as_str()));
                }
                finish(out)
            },
            Format::Local => Ok(Vec::new()),
            Format::Dev => Ok(Vec::new()),
        }
    }

    /// Lay what an extent says of the `count` blocks from `lblk` over `out`,
    /// which holds them.
    fn lay(&self, out: &mut Vec<u8>, e: Extent, lblk: u64, count: u64) -> (r: Result<()>)
        requires
            e.is_numbered(),
            1 <= count,
            lblk + count <= u64::MAX,
            !is_silent(e, lblk, lblk + count),
            old(out)@.len() == count * self.sb().block_size,
        ensures
            ({
                let part = part_of(self.sb(), self.img(), e, lblk, lblk + count);
                match r {
                    Ok(_) => {
                        &&& part is Ok
                        &&& final(out)@ == overwritten(
                            old(out)@,
                            (part_from(e, lblk) - lblk) * self.sb().block_size,
                            part->Ok_0,
                        )
                    },
                    Err(x) => self.dev().may_fail(x@) || part == Err::<Seq<u8>, Fault>(x@),
                }
            }),
    {
        let bs: usize = self.superblock().block_size as usize;
        let end: u64 = lblk + count;
        let from: u64 = if e.offset < lblk {
            lblk
        } else {
            e.offset
        };
        let to: u64 = if e.end() < end {
            e.end()
        } else {
            end
        };
        let data = self.read_blocks(e.block + (from - e.offset), to - from)?;
        proof {
            assert(out@.len() == out.len());
            assert((from - lblk) * bs + (to - from) * bs <= count * bs) by (nonlinear_arith)
                requires
                    from + (to - from) <= lblk + count,
                    bs >= 0,
            ;
            assert((from - lblk) * bs >= 0) by (nonlinear_arith)
                requires
                    from >= lblk,
                    bs >= 0,
            ;
            assert((to - from) * bs >= 0) by (nonlinear_arith)
                requires
                    to >= from,
                    bs >= 0,
            ;
            assert(from - lblk <= (from - lblk) * bs) by (nonlinear_arith)
                requires
                    from >= lblk,
                    bs >= 1,
            ;
        }
        overwrite(out, (from - lblk) as usize * bs, data.as_slice());
        Ok(())
    }

    /// `count` logical blocks starting at `lblk` of a fork whose extents are
    /// given in any order, with holes and unwritten extents read as zeroes.
    fn read_listed(&self, extents: &[Extent], lblk: u64, count: u64) -> (r: Result<Vec<u8>>)
        requires
            forall|i: int| 0 <= i < extents@.len() ==> (#[trigger] extents@[i]).is_numbered(),
            1 <= count,
            lblk + count <= u64::MAX,
        ensures
            settled(&self.dev(), outcome(r), mapped(self.sb(), self.img(), extents@, lblk, count)),
            all_silent(extents@, lblk, count) ==> outcome(r) == mapped(
                self.sb(),
                self.img(),
                extents@,
                lblk,
                count,
            ),
            r matches Ok(v) ==> v@.len() == count * self.sb().block_size,
    {
        let sb = self.superblock();
        let len: usize = match buffer_len(count, sb.block_size) {
            Some(len) => len,
            None => return Err(too_large_error(count)),
        };
        let mut out = zeroes(len);
        let end: u64 = lblk + count;
        let mut i: usize = 0;
        let ghost want = mapped(self.sb(), self.img(), extents@, lblk, count);
        while i < extents.len()
            invariant
                i <= extents@.len(),
                forall|j: int| 0 <= j < extents@.len() ==> (#[trigger] extents@[j]).is_numbered(),
                1 <= count,
                end == lblk + count,
                len == count * self.sb().block_size,
                out@.len() == len,
                want == laid_over(self.sb(), self.img(), extents@, i as int, lblk, count, out@),
                want == mapped(self.sb(), self.img(), extents@, lblk, count),
            decreases extents@.len() - i,
        {
            let e: Extent = extents[i];
            assert(e.is_numbered());
            if !e.unwritten && e.count > 0 && e.offset < end && e.end() > lblk {
                assert(!is_silent(extents@[i as int], lblk, lblk + count));
                self.lay(&mut out, e, lblk, count)?;
            }
            i += 1;
        }
        Ok(out)
    }

    /// `count` logical blocks of a fork starting at `lblk`, with holes and
    /// unwritten extents read as zeroes.
    pub(crate) fn read_mapped(&self, extents: &[Extent], lblk: u64, count: u64) -> (r: Result<Vec<u8>>)
        requires
            is_fork_map(extents@),
            1 <= count,
            lblk + count <= u64::MAX,
        ensures
            settled(&self.dev(), outcome(r), mapped(self.sb(), self.img(), extents@, lblk, count)),
            r matches Ok(v) ==> v@.len() == count * self.sb().block_size,
    {
        let sb = self.superblock();
        let len: usize = match buffer_len(count, sb.block_size) {
            Some(len) => len,
            None => return Err(too_large_error(count)),
        };
        let mut out = zeroes(len);
        let end: u64 = lblk + count;
        let mut i: usize = first_past(extents, lblk);
        let ghost want = mapped(self.sb(), self.img(), extents@, lblk, count);
        proof {
            lemma_laid_skips(self.sb(), self.img(), extents@, 0, i as int, lblk, count, out@);
        }
        while i < extents.len()
            invariant
                i <= extents@.len(),
                is_fork_map(extents@),
                1 <= count,
                end == lblk + count,
                len == count * self.sb().block_size,
                out@.len() == len,
                forall|j: int| i <= j < extents@.len() ==> (#[trigger] extents@[j]).spec_end() > lblk,
                want == laid_over(self.sb(), self.img(), extents@, i as int, lblk, count, out@),
                want == mapped(self.sb(), self.img(), extents@, lblk, count),
            ensures
                want == Ok::<Seq<u8>, Fault>(out@),
            decreases extents@.len() - i,
        {
            let e: Extent = extents[i];
            if e.offset >= end {
                proof {
                    assert forall|j: int| i <= j < extents@.len() implies (#[trigger] extents@[j]).offset >= end by {
                        if j > i {
                            assert(extents@[i as int].spec_end() <= extents@[j].offset);
                        }
                    }
                    lemma_laid_skips(
                        self.sb(),
                        self.img(),
                        extents@,
                        i as int,
                        extents@.len() as int,
                        lblk,
                        count,
                        out@,
                    );
                }
                break;
            }
            i += 1;
            if !e.unwritten {
                self.lay(&mut out, e, lblk, count)?;
            }
        }
        Ok(out)
    }

    /// `len` bytes of a regular file's contents from `offset`, clipped to
    /// its size.
    pub fn read_inode_range(&self, inode: &Inode, extents: &[Extent], offset: u64, len: u64) -> (r: Result<Vec<u8>>)
        requires
            forall|i: int| 0 <= i < extents@.len() ==> (#[trigger] extents@[i]).is_numbered(),
        ensures
            settled(
                &self.dev(),
                outcome(r),
                contents_of(self.sb(), self.img(), inode@, extents@, offset, len),
            ),
            !reads_blocks(self.sb(), inode@, extents@, offset, len) ==> outcome(r) == contents_of(
                self.sb(),
                self.img(),
                inode@,
                extents@,
                offset,
                len,
            ),
            r matches Ok(v) ==> v@.len() == clipped(inode@.size, offset, len),
    {
        if offset >= inode.size || len == 0 {
            return Ok(Vec::new());
        }
        let n: u64 = if len < inode.size - offset {
            len
        } else {
            inode.size - offset
        };
        if inode.format == Format::Local {
            if offset + n > inode.data_fork.len() as u64 {
                return Err(inode_error(inode.ino, ": inline data past the fork"));
            }
            return Ok(cut(inode.data_fork.as_slice(), offset as usize, (offset + n) as usize));
        }
        if inode.is_realtime() {
            return Err(Error::Unsupported(numbered("inode ", inode.ino, ": data on the realtime device")));
        }
        let sb = self.superblock();
        let bs: u64 = sb.block_size as u64;
        let first: u64 = offset / bs;
        let last: u64 = (offset + n - 1) / bs;
        proof {
            lemma_block_range(offset as int, n as int, bs as int);
        }
        let buf = self.read_listed(extents, first, last - first + 1)?;
        let skip: usize = (offset - first * bs) as usize;
        Ok(cut(buf.as_slice(), skip, skip + n as usize))
    }
}

/// How many bytes a read of `len` bytes at `offset` gives of `size`.
pub open spec fn clipped(size: u64, offset: u64, len: u64) -> int {
    if offset >= size {
        0
    } else if len < size - offset {
        len as int
    } else {
        size - offset
    }
}

/// The blocks that hold the bytes from `offset` on hold all `n` of them.
pub proof fn lemma_block_range(offset: int, n: int, bs: int)
    requires
        0 <= offset,
        1 <= n,
        512 <= bs,
        offset + n <= u64::MAX,
    ensures
        ({
            let first = offset / bs;
            let last = (offset + n - 1) / bs;
            &&& 0 <= first <= last
            &&& first <= offset
            &&& last + 1 <= u64::MAX
            &&& 0 <= offset - first * bs < bs
            &&& offset - first * bs + n <= (last - first + 1) * bs
            &&& 0 <= first * bs <= offset
        }),
{
    let first = offset / bs;
    let end = offset + n - 1;
    let last = end / bs;
    lemma_fundamental_div_mod(offset, bs);
    lemma_fundamental_div_mod(end, bs);
    lemma_div_is_ordered(offset, end, bs);
    lemma_div_pos_is_pos(offset, bs);
    lemma_mul_is_commutative(bs, first);
    lemma_mul_is_commutative(bs, last);
    assert((last - first + 1) * bs == last * bs - first * bs + bs) by (nonlinear_arith);
    assert(first * bs >= first * 512) by (nonlinear_arith)
        requires
            first >= 0,
            bs >= 512,
    ;
    assert(last * bs >= last * 512) by (nonlinear_arith)
        requires
            last >= 0,
            bs >= 512,
    ;
}

/// Extents that say nothing of the blocks asked for can be passed over.
proof fn lemma_laid_skips(
    sb: Superblock,
    img: Seq<u8>,
    extents: Seq<Extent>,
    i: int,
    j: int,
    lblk: u64,
    count: u64,
    acc: Seq<u8>,
)
    requires
        0 <= i <= j <= extents.len(),
        forall|k: int|
            i <= k < j ==> (#[trigger] extents[k]).unwritten || extents[k].offset >= lblk + count
                || extents[k].spec_end() <= lblk,
    ensures
        laid_over(sb, img, extents, i, lblk, count, acc) == laid_over(sb, img, extents, j, lblk, count, acc),
    decreases j - i,
{
    if i < j {
        lemma_laid_skips(sb, img, extents, i + 1, j, lblk, count, acc);
        assert(extents[i].unwritten || extents[i].offset >= lblk + count || extents[i].spec_end() <= lblk);
    }
}

/// Laying blocks over others changes no length.
pub proof fn lemma_laid_len(
    sb: Superblock,
    img: Seq<u8>,
    extents: Seq<Extent>,
    i: int,
    lblk: u64,
    count: u64,
    acc: Seq<u8>,
)
    ensures
        laid_over(sb, img, extents, i, lblk, count, acc) matches Ok(v) ==> v.len() == acc.len(),
    decreases extents.len() - i,
{
    if i < extents.len() {
        let e = extents[i];
        lemma_laid_len(sb, img, extents, i + 1, lblk, count, acc);
        if let Ok(data) = part_of(sb, img, e, lblk, lblk + count) {
            lemma_laid_len(
                sb,
                img,
                extents,
                i + 1,
                lblk,
                count,
                overwritten(acc, (part_from(e, lblk) - lblk) * sb.block_size, data),
            );
        }
    }
}

/// As many blocks are read as were asked for.
pub proof fn lemma_mapped_len(sb: Superblock, img: Seq<u8>, extents: Seq<Extent>, lblk: u64, count: u64)
    ensures
        mapped(sb, img, extents, lblk, count) matches Ok(v) ==> v.len() == count * sb.block_size,
{
    let len = count * sb.block_size;
    assert(len >= 0) by (nonlinear_arith)
        requires
            len == count * sb.block_size,
            count >= 0,
            sb.block_size >= 0,
    ;
    lemma_laid_len(sb, img, extents, 0, lblk, count, zero_bytes(len as nat));
}

/// A read gives as many bytes as were asked for and are there.
pub proof fn lemma_contents_len(
    sb: Superblock,
    img: Seq<u8>,
    inode: InodeView,
    extents: Seq<Extent>,
    offset: u64,
    len: u64,
)
    requires
        sb.wf(),
        contents_of(sb, img, inode, extents, offset, len) is Ok,
    ensures
        contents_of(sb, img, inode, extents, offset, len)->Ok_0.len() == clipped(inode.size, offset, len),
{
    let bs = sb.block_size as int;
    let n = clipped(inode.size, offset, len);
    if n > 0 && inode.format != Format::Local {
        let first = offset as int / bs;
        let last = (offset + n - 1) / bs;
        lemma_block_range(offset as int, n, bs);
        lemma_mapped_len(sb, img, extents, first as u64, (last - first + 1) as u64);
    }
}

} // verus!
