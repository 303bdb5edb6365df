//! Symbolic links.

use vstd::prelude::*;
use vstd::string::*;

use crate::bmap::{is_fork_map, Extent};
use crate::bytes::{be32, be32_at, be64, be64_at, cut, extend};
use crate::crc;
use crate::device::{settled, BlockDevice};
use crate::error::{around, numbered, outcome, Error, Fault, Result};
use crate::inode::{inode_error, inode_fault, mode, Format, Inode, InodeView};
use crate::sb::Superblock;
use crate::text::{decimal, push_decimal};
use crate::volume::blocks::blocks_of;
use crate::volume::map::{fork_map, mapped};
use crate::volume::Volume;

verus! {

/// The longest symlink target XFS stores.
pub const MAX_LINK: u64 = 1024;

/// A v5 remote symlink block's header length.
pub const SYMLINK_HDR: usize = 56;

/// A v5 remote symlink block's magic, `XSLM`.
pub const SYMLINK_MAGIC: u32 = 0x5853_4c4d;

/// Whether `buf` is a good run of symlink blocks of inode `ino`, holding the
/// target from byte `at` on.
pub open spec fn is_link_run(buf: Seq<u8>, ino: u64, at: nat) -> bool {
    &&& be32_at(buf, 0) == SYMLINK_MAGIC
    &&& crc::is_sealed(buf, 12)
    &&& be64_at(buf, 32) == ino
    &&& be32_at(buf, 4) == at
    &&& SYMLINK_HDR + be32_at(buf, 8) <= buf.len()
}

/// The target of a v5 symlink of `size` bytes whose blocks are `extents`, of
/// which those before place `i` gave `acc`.
///
/// There is one header per mapped extent, not per block: Linux writes each
/// mapping as one buffer, and its checksum covers the whole run.
pub open spec fn gathered(
    sb: Superblock,
    img: Seq<u8>,
    ino: u64,
    size: u64,
    extents: Seq<Extent>,
    i: int,
    acc: Seq<u8>,
) -> core::result::Result<Seq<u8>, Fault>
    decreases extents.len() - i,
{
    let e = extents[i];
    if i >= extents.len() || acc.len() >= size {
        if acc.len() != size {
            Err(
                inode_fault(
                    ino,
                    ": symlink blocks hold "@ + decimal(acc.len()) + " of "@ + decimal(size as nat) + " bytes"@,
                ),
            )
        } else {
            Ok(acc)
        }
    } else if e.unwritten {
        Err(inode_fault(ino, ": unwritten symlink block"@))
    } else {
        match blocks_of(sb, img, e.block, e.count) {
            Err(f) => Err(f),
            Ok(buf) => if !is_link_run(buf, ino, acc.len()) {
                Err(inode_fault(ino, ": remote symlink block "@ + decimal(e.offset as nat)))
            } else {
                gathered(
                    sb,
                    img,
                    ino,
                    size,
                    extents,
                    i + 1,
                    acc + buf.subrange(SYMLINK_HDR as int, SYMLINK_HDR + be32_at(buf, 8)),
                )
            },
        }
    }
}

/// A symlink's target.
pub open spec fn target_of(sb: Superblock, img: Seq<u8>, inode: InodeView) -> core::result::Result<Seq<u8>, Fault> {
    let size = inode.size;
    let bs = sb.block_size as int;
    if inode.file_type() != mode::IFLNK {
        Err(Fault::NotASymlink(around("inode "@, inode.ino as nat, ""@)))
    } else if size == 0 || size > MAX_LINK {
        Err(inode_fault(inode.ino, ": symlink of "@ + decimal(size as nat) + " bytes"@))
    } else if inode.format == Format::Local {
        if size > inode.data_fork.len() {
            Err(inode_fault(inode.ino, ": inline symlink past the fork"@))
        } else {
            Ok(inode.data_fork.subrange(0, size as int))
        }
    } else {
        match fork_map(sb, img, inode, false) {
            Err(f) => Err(f),
            Ok(extents) => if sb.spec_is_v5() {
                gathered(sb, img, inode.ino, size, extents, 0, Seq::empty())
            } else {
                match mapped(sb, img, extents, 0, ((size + bs - 1) / bs) as u64) {
                    Err(f) => Err(f),
                    Ok(buf) => Ok(buf.subrange(0, size as int)),
                }
            },
        }
    }
}

/// Whether an inode is a symlink whose target is in blocks of its own. Any
/// other's is read with the inode, or is not there.
pub open spec fn has_link_blocks(inode: InodeView) -> bool {
    inode.file_type() == mode::IFLNK && 1 <= inode.size <= MAX_LINK && inode.format != Format::Local
}

proof fn lemma_gathered_len(
    sb: Superblock,
    img: Seq<u8>,
    ino: u64,
    size: u64,
    extents: Seq<Extent>,
    i: int,
    acc: Seq<u8>,
)
    ensures
        gathered(sb, img, ino, size, extents, i, acc) matches Ok(v) ==> v.len() == size,
    decreases extents.len() - i,
{
    if i < extents.len() && acc.len() < size {
        let e = extents[i];
        if let Ok(buf) = blocks_of(sb, img, e.block, e.count) {
            lemma_gathered_len(
                sb,
                img,
                ino,
                size,
                extents,
                i + 1,
                acc + buf.subrange(SYMLINK_HDR as int, SYMLINK_HDR + be32_at(buf, 8)),
            );
        }
    }
}

/// `size` bytes lie in as many blocks as it takes to hold them.
proof fn lemma_blocks_hold(size: int, bs: int)
    requires
        1 <= size <= MAX_LINK,
        1 <= bs,
    ensures
        1 <= (size + bs - 1) / bs <= MAX_LINK,
        size <= (size + bs - 1) / bs * bs,
{
    let q = (size + bs - 1) / bs;
    assert(q >= 1) by (nonlinear_arith)
        requires
            q == (size + bs - 1) / bs,
            size >= 1,
            bs >= 1,
    ;
    assert(q <= size) by (nonlinear_arith)
        requires
            q == (size + bs - 1) / bs,
            size >= 1,
            bs >= 1,
    ;
    assert(size <= q * bs) by (nonlinear_arith)
        requires
            q == (size + bs - 1) / bs,
            bs >= 1,
    ;
}

/// A symlink's target is as long as its inode says, and neither empty nor
/// longer than XFS stores.
pub proof fn lemma_target_len(sb: Superblock, img: Seq<u8>, inode: InodeView)
    requires
        sb.wf(),
        target_of(sb, img, inode) is Ok,
    ensures
        target_of(sb, img, inode)->Ok_0.len() == inode.size,
        1 <= inode.size <= MAX_LINK,
{
    let bs = sb.block_size as int;
    let size = inode.size;
    if inode.format != Format::Local {
        let extents = fork_map(sb, img, inode, false)->Ok_0;
        if sb.spec_is_v5() {
            lemma_gathered_len(sb, img, inode.ino, size, extents, 0, Seq::empty());
        } else {
            lemma_blocks_hold(size as int, bs);
            let n = ((size + bs - 1) / bs) as u64;
            crate::volume::map::lemma_mapped_len(sb, img, extents, 0, n);
        }
    }
}

impl<D: BlockDevice> Volume<D> {
    /// The target of a v5 symlink of `size` bytes whose blocks are `extents`.
    fn gather(&self, ino: u64, size: u64, extents: &Vec<Extent>) -> (r: Result<Vec<u8>>)
        requires
            is_fork_map(extents@),
        ensures
            settled(
                &self.dev(),
                outcome(r),
                gathered(self.sb(), self.img(), ino, size, extents@, 0, Seq::empty()),
            ),
    {
        let sb = self.superblock();
        let mut out: Vec<u8> = Vec::new();
        let mut i: usize = 0;
        let ghost want = gathered(self.sb(), self.img(), ino, size, extents@, 0, Seq::empty());
        assert(out@ =~= Seq::<u8>::empty());
        while i < extents.len() && (out.len() as u64) < size
            invariant
                i <= extents@.len(),
                is_fork_map(extents@),
                *sb == self.sb(),
                sb.wf(),
                want == gathered(self.sb(), self.img(), ino, size, extents@, 0, Seq::empty()),
                want == gathered(self.sb(), self.img(), ino, size, extents@, i as int, out@),
            decreases extents@.len() - i,
        {
            let e: Extent = extents[i];
            if e.unwritten {
                return Err(inode_error(ino, ": unwritten symlink block"));
            }
            let run = self.read_blocks(e.block, e.count)?;
            let buf = run.as_slice();
            proof {
                let bs = sb.block_size as int;
                assert(e.count * bs >= bs) by (nonlinear_arith)
                    requires
                        e.count >= 1,
                        bs >= 0,
                ;
            }
            let bytes: u32 = be32(buf, 8);
            if be32(buf, 0) != SYMLINK_MAGIC || !crc::verify(buf, 12) || be64(buf, 32) != ino || be32(buf, 4) as u64
                != out.len() as u64 || bytes as u64 > (buf.len() - SYMLINK_HDR) as u64 {
                let mut what = String::from_str(": remote symlink block ");
                push_decimal(&mut what, e.offset);
                return Err(inode_error(ino, what.as_str()));
            }
            let part = cut(buf, SYMLINK_HDR, SYMLINK_HDR + bytes as usize);
            extend(&mut out, part.as_slice());
            i += 1;
        }
        if out.len() as u64 != size {
            let mut what = String::from_str(": symlink blocks hold ");
            push_decimal(&mut what, out.len() as u64);
            what.append(" of ");
            push_decimal(&mut what, size);
            what.append(" bytes");
            return Err(inode_error(ino, what.as_str()));
        }
        Ok(out)
    }

    /// A symlink inode's target, as stored.
    pub fn symlink_target(&self, inode: &Inode) -> (r: Result<Vec<u8>>)
        ensures
            settled(&self.dev(), outcome(r), target_of(self.sb(), self.img(), inode@)),
            !has_link_blocks(inode@) ==> outcome(r) == target_of(self.sb(), self.img(), inode@),
    {
        if inode.file_type() != mode::IFLNK {
            return Err(Error::NotASymlink(numbered("inode ", inode.ino, "")));
        }
        let size: u64 = inode.size;
        if size == 0 || size > MAX_LINK {
            let what = numbered(": symlink of ", size, " bytes");
            return Err(inode_error(inode.ino, what.as_str()));
        }
        if inode.format == Format::Local {
            if size as usize > inode.data_fork.len() {
                return Err(inode_error(inode.ino, ": inline symlink past the fork"));
            }
            return Ok(cut(inode.data_fork.as_slice(), 0, size as usize));
        }
        let sb = self.superblock();
        let extents = self.extents(inode, false)?;
        if !sb.is_v5() {
            let bs: u64 = sb.block_size as u64;
            proof {
                lemma_blocks_hold(size as int, bs as int);
            }
            let buf = self.read_mapped(extents.as_slice(), 0, (size + bs - 1) / bs)?;
            return Ok(cut(buf.as_slice(), 0, size as usize));
        }
        self.gather(inode.ino, size, &extents)
    }
}

} // verus!
