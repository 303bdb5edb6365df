//! Blocks and inodes, by number.

use vstd::arithmetic::div_mod::{lemma_fundamental_div_mod, lemma_mod_multiples_basic};
use vstd::arithmetic::power2::{lemma2_to64, lemma2_to64_rest, lemma_pow2_adds, pow2};
use vstd::prelude::*;
use vstd::slice::slice_subrange;
use vstd::string::*;

use crate::arith::{lemma_power_fits, power, wrapped, WRAP};
use crate::device::{read_bytes, read_of, settled, BlockDevice};
use crate::error::{around, numbered, outcome, Error, Fault, Result};
use crate::inode::{inode_of, Inode, InodeView};
use crate::sb::Superblock;
use crate::text::{decimal, push_decimal};
use crate::volume::Volume;

verus! {

/// The refusal to read `count` blocks at once, where no buffer could hold
/// them.
pub open spec fn too_large(count: u64) -> Fault {
    Fault::Unsupported(around("a read of "@, count as nat, " blocks, more than memory can hold"@))
}

/// The refusal to read `count` blocks at once.
pub fn too_large_error(count: u64) -> (r: Error)
    ensures
        r@ == too_large(count),
{
    Error::Unsupported(numbered("a read of ", count, " blocks, more than memory can hold"))
}

/// The allocation group that block `fsb` is in.
pub open spec fn group_of(sb: Superblock, fsb: u64) -> int {
    fsb as int / pow2(sb.agblk_log as nat) as int
}

/// The refusal of a run of blocks that leaves its allocation group.
pub open spec fn split_run(fsb: u64, last: u64) -> Fault {
    Fault::Corrupt(
        "blocks "@ + decimal(fsb as nat) + " to "@ + decimal(last as nat) + " are not in one allocation group"@,
    )
}

/// Where the run of `count` blocks that starts at block `fsb` is on the
/// device. It must stay inside one allocation group, which is what makes it
/// contiguous.
pub open spec fn run_byte(sb: Superblock, fsb: u64, count: u64) -> core::result::Result<u64, Fault> {
    let last = (fsb + count - 1) as u64;
    match sb.block_byte(fsb) {
        Err(f) => Err(f),
        Ok(at) => match sb.block_byte(last) {
            Err(f) => Err(f),
            Ok(_) => if group_of(sb, fsb) != group_of(sb, last) {
                Err(split_run(fsb, last))
            } else {
                Ok(at)
            },
        },
    }
}

/// The bytes of the run of `count` blocks that starts at block `fsb`.
pub open spec fn blocks_of(sb: Superblock, img: Seq<u8>, fsb: u64, count: u64) -> core::result::Result<
    Seq<u8>,
    Fault,
> {
    let len = count * sb.block_size;
    match run_byte(sb, fsb, count) {
        Err(f) => Err(f),
        Ok(at) => if len > usize::MAX {
            Err(too_large(count))
        } else {
            read_of(img, at as nat, len as nat)
        },
    }
}

/// Inode `ino`, read from the block that holds it.
#[verifier::opaque]
pub open spec fn inode_from(sb: Superblock, img: Seq<u8>, ino: u64) -> core::result::Result<InodeView, Fault> {
    let bs = sb.block_size as int;
    match sb.inode_byte(ino) {
        Err(f) => Err(f),
        Ok(at) => {
            let block_at = at as int / bs * bs;
            match read_of(img, block_at as nat, bs as nat) {
                Err(f) => Err(f),
                Ok(buf) => inode_of(sb, ino, buf.subrange(at - block_at, bs)),
            }
        },
    }
}

/// An inode that was read is the one asked for.
pub proof fn lemma_inode_from(sb: Superblock, img: Seq<u8>, ino: u64)
    ensures
        inode_from(sb, img, ino) matches Ok(inode) ==> inode.ino == ino,
{
    reveal(inode_from);
}

/// The number `n` of blocks of `bs` bytes as bytes, where a buffer could hold
/// them.
pub fn buffer_len(n: u64, bs: u32) -> (r: Option<usize>)
    ensures
        match r {
            Some(len) => len == n * bs,
            None => n * bs > usize::MAX,
        },
{
    match n.checked_mul(bs as u64) {
        Some(len) => if len <= usize::MAX as u64 {
            Some(len as usize)
        } else {
            None
        },
        None => None,
    }
}

/// A whole number of blocks, kept to 64 bits, is still a whole number of
/// blocks.
proof fn lemma_wrapped_blocks(sb: Superblock, n: int)
    requires
        sb.wf(),
        0 <= n,
    ensures
        wrapped(n * sb.block_size) as int % sb.block_size as int == 0,
{
    let bs = sb.block_size as int;
    let w = WRAP as int;
    let log = sb.block_log as nat;
    lemma2_to64();
    lemma2_to64_rest();
    lemma_pow2_adds(log, (64 - log) as nat);
    let c = pow2((64 - log) as nat) as int;
    assert(w == bs * c);
    lemma_fundamental_div_mod(n * bs, w);
    let q = n * bs / w;
    assert(n * bs % w == (n - c * q) * bs) by (nonlinear_arith)
        requires
            n * bs == w * q + n * bs % w,
            w == bs * c,
    ;
    lemma_mod_multiples_basic(n - c * q, bs);
}

/// Blocks are at block boundaries.
pub proof fn lemma_blocks_are_aligned(sb: Superblock, fsb: u64)
    requires
        sb.wf(),
    ensures
        sb.block_byte(fsb) matches Ok(at) ==> at as int % sb.block_size as int == 0,
{
    let span = pow2(sb.agblk_log as nat) as int;
    let agno = fsb as int / span;
    let agbno = fsb as int % span;
    lemma_power_fits(sb.agblk_log as nat);
    assert(0 <= agno && 0 <= agbno) by (nonlinear_arith)
        requires
            agno == fsb as int / span,
            agbno == fsb as int % span,
            span > 0,
            fsb >= 0,
    ;
    assert(0 <= agno * sb.ag_blocks) by (nonlinear_arith)
        requires
            0 <= agno,
            0 <= sb.ag_blocks,
    ;
    lemma_wrapped_blocks(sb, agno * sb.ag_blocks + agbno);
}

impl<D: BlockDevice> Volume<D> {
    /// Read whole blocks at a block boundary. Once the block size is known,
    /// every read of the device is one of these.
    fn read_whole_blocks(&self, offset: u64, len: usize) -> (r: Result<Vec<u8>>)
        requires
            offset as int % self.sb().block_size as int == 0,
            len as int % self.sb().block_size as int == 0,
        ensures
            settled(&self.dev(), outcome(r), read_of(self.img(), offset as nat, len as nat)),
    {
        proof {
            use_type_invariant(self);
        }
        read_bytes(self.device(), offset, len)
    }

    /// The run of `count` blocks that starts at block `fsb`. It must stay
    /// inside one allocation group, which is what makes it contiguous.
    pub(crate) fn read_blocks(&self, fsb: u64, count: u64) -> (r: Result<Vec<u8>>)
        requires
            1 <= count,
            fsb + count - 1 <= u64::MAX,
        ensures
            settled(&self.dev(), outcome(r), blocks_of(self.sb(), self.img(), fsb, count)),
            run_byte(self.sb(), fsb, count) is Err ==> outcome(r) == blocks_of(self.sb(), self.img(), fsb, count),
            r matches Ok(v) ==> v@.len() == count * self.sb().block_size,
    {
        let sb = self.superblock();
        let at: u64 = sb.fsb_to_byte(fsb)?;
        let last: u64 = fsb + (count - 1);
        sb.fsb_to_byte(last)?;
        let span: u64 = power(sb.agblk_log);
        if fsb / span != last / span {
            let mut what = String::from_str("blocks ");
            push_decimal(&mut what, fsb);
            what.append(" to ");
            push_decimal(&mut what, last);
            what.append(" are not in one allocation group");
            return Err(Error::Corrupt(what));
        }
        let len: usize = match buffer_len(count, sb.block_size) {
            Some(len) => len,
            None => return Err(too_large_error(count)),
        };
        proof {
            lemma_blocks_are_aligned(*sb, fsb);
            lemma_mod_multiples_basic(count as int, sb.block_size as int);
        }
        self.read_whole_blocks(at, len)
    }

    /// Read inode `ino`.
    pub fn inode(&self, ino: u64) -> (r: Result<Inode>)
        ensures
            settled(&self.dev(), outcome(r), inode_from(self.sb(), self.img(), ino)),
            self.sb().inode_byte(ino) is Err ==> outcome(r) == inode_from(self.sb(), self.img(), ino),
    {
        reveal(inode_from);
        let sb = self.superblock();
        let at: u64 = sb.ino_to_byte(ino)?;
        let bs: u64 = sb.block_size as u64;
        proof {
            assert(at as int / (bs as int) * (bs as int) <= at && at - at as int / (bs as int) * (bs as int) < bs)
                by (nonlinear_arith)
                requires
                    bs > 0,
            ;
        }
        let block_at: u64 = at / bs * bs;
        proof {
            lemma_mod_multiples_basic(at as int / bs as int, bs as int);
            lemma_mod_multiples_basic(1, bs as int);
        }
        let buf = self.read_whole_blocks(block_at, bs as usize)?;
        let off: usize = (at - block_at) as usize;
        Inode::parse(sb, ino, slice_subrange(buf.as_slice(), off, buf.len()))
    }
}

} // verus!
