//! What a fork's blocks hold, byte by byte.

use vstd::arithmetic::div_mod::{
    lemma_div_is_ordered, lemma_fundamental_div_mod, lemma_fundamental_div_mod_converse, lemma_small_mod,
};
use vstd::arithmetic::power2::pow2;
use vstd::prelude::*;

use crate::arith::{lemma_power_fits, WRAP};
use crate::bmap::{is_fork_map, is_map, Extent};
use crate::bytes::{overwritten, zero_bytes};

use crate::error::Fault;
use crate::export::pack::chunks_from;
use crate::export::CHUNK;
use crate::inode::{Format, InodeView};
use crate::sb::{lemma_blocks_run_on, Superblock};
use crate::volume::blocks::{blocks_of, run_byte};
use crate::volume::map::{
    clipped, contents_of, laid_over, lemma_block_range, lemma_contents_len, lemma_mapped_len, mapped,
    part_from, part_of, part_to,
};

verus! {

/// The byte at place `within` of logical block `b`, which extent `e` holds.
pub open spec fn byte_on_disk(sb: Superblock, img: Seq<u8>, e: Extent, b: int, within: int) -> u8 {
    img[sb.block_byte((e.block + (b - e.offset)) as u64)->Ok_0 + within]
}

/// The byte at place `within` of logical block `b` that the extents from place
/// `i` on say there is, if they say anything.
pub open spec fn said_from(sb: Superblock, img: Seq<u8>, extents: Seq<Extent>, i: int, b: int, within: int) -> Option<u8>
    decreases extents.len() - i,
{
    if i >= extents.len() {
        None
    } else if !extents[i].unwritten && extents[i].offset <= b < extents[i].spec_end() {
        Some(byte_on_disk(sb, img, extents[i], b, within))
    } else {
        said_from(sb, img, extents, i + 1, b, within)
    }
}

/// Byte `p` of a fork: what the extent that holds its block has there, or zero
/// in a hole or in an extent that was never written.
pub open spec fn byte_at(sb: Superblock, img: Seq<u8>, extents: Seq<Extent>, p: int) -> u8 {
    let bs = sb.block_size as int;
    match said_from(sb, img, extents, 0, p / bs, p % bs) {
        Some(b) => b,
        None => 0,
    }
}

/// An extent can be read from any of its blocks on, and what is read is what
/// is there.
proof fn lemma_run(sb: Superblock, img: Seq<u8>, e: Extent, d: int, n: int)
    requires
        sb.wf(),
        img.len() <= u64::MAX,
        e.is_packable(),
        0 <= d,
        1 <= n,
        d + n <= e.count,
        blocks_of(sb, img, (e.block + d) as u64, n as u64) is Ok,
    ensures
        ({
            let data = blocks_of(sb, img, (e.block + d) as u64, n as u64)->Ok_0;
            let bs = sb.block_size as int;
            &&& data.len() == n * bs
            &&& forall|k: int, within: int|
                0 <= k < n && 0 <= within < bs ==> data[k * bs + within] == #[trigger] byte_on_disk(
                    sb,
                    img,
                    e,
                    e.offset + d + k,
                    within,
                )
        }),
{
    let bs = sb.block_size as int;
    let first = (e.block + d) as u64;
    let data = blocks_of(sb, img, first, n as u64)->Ok_0;
    let at = sb.block_byte(first)->Ok_0 as int;
    assert(n * bs >= 0) by (nonlinear_arith)
        requires
            n >= 0,
            bs >= 0,
    ;
    assert forall|k: int, within: int| 0 <= k < n && 0 <= within < bs implies data[k * bs + within]
        == #[trigger] byte_on_disk(sb, img, e, e.offset + d + k, within) by {
        lemma_group_place(sb, first, n, k);
        lemma_blocks_run_on(sb, first, k as nat);
        assert(k * bs + within < n * bs) by (nonlinear_arith)
            requires
                k + 1 <= n,
                within < bs,
                bs > 0,
        ;
        assert(0 <= k * bs) by (nonlinear_arith)
            requires
                0 <= k,
                0 <= bs,
        ;
        lemma_small_mod((at + k * bs) as nat, WRAP as nat);
        assert(sb.block_byte((first + k) as u64)->Ok_0 == at + k * bs);
        assert((e.block + (e.offset + d + k - e.offset)) as u64 == (first + k) as u64);
        assert(data[k * bs + within] == img[at + k * bs + within]);
    }
}

/// Where in its allocation group the block `d` blocks into a run is.
proof fn lemma_group_place(sb: Superblock, first: u64, n: int, d: int)
    requires
        sb.wf(),
        1 <= n <= u64::MAX,
        first + n - 1 <= u64::MAX,
        run_byte(sb, first, n as u64) is Ok,
        0 <= d < n,
    ensures
        ({
            let span = pow2(sb.agblk_log as nat) as int;
            &&& first as int / span < sb.ag_count
            &&& first as int % span + n <= sb.ag_blocks
            &&& (first + d) / span == first as int / span
            &&& (first + d) % span == first as int % span + d
            &&& sb.block_byte((first + d) as u64) is Ok
        }),
{
    let span = pow2(sb.agblk_log as nat) as int;
    let last = first + n - 1;
    lemma_power_fits(sb.agblk_log as nat);
    lemma_fundamental_div_mod(first as int, span);
    lemma_fundamental_div_mod(last, span);
    lemma_fundamental_div_mod_converse(first + d, span, first as int / span, first as int % span + d);
}

/// A later extent of a map holds none of the blocks of an earlier one.
proof fn lemma_said_once(sb: Superblock, img: Seq<u8>, extents: Seq<Extent>, i: int, j: int, b: int, within: int)
    requires
        is_map(extents),
        0 <= i < j <= extents.len(),
        extents[i].offset <= b < extents[i].spec_end(),
    ensures
        said_from(sb, img, extents, j, b, within) is None,
    decreases extents.len() - j,
{
    if j < extents.len() {
        assert(extents[i].spec_end() <= extents[j].offset);
        lemma_said_once(sb, img, extents, i, j + 1, b, within);
    }
}

/// The byte that blocks laid over others have at `p`, counted from block
/// `lblk`.
spec fn laid_byte(
    sb: Superblock,
    img: Seq<u8>,
    extents: Seq<Extent>,
    i: int,
    lblk: u64,
    acc: Seq<u8>,
    p: int,
) -> u8 {
    let bs = sb.block_size as int;
    match said_from(sb, img, extents, i, lblk + p / bs, p % bs) {
        Some(b) => b,
        None => acc[p],
    }
}

/// One extent laid over: its own bytes where it has any, the old ones
/// elsewhere.
proof fn lemma_lay_one(
    sb: Superblock,
    img: Seq<u8>,
    extents: Seq<Extent>,
    i: int,
    lblk: u64,
    count: u64,
    acc: Seq<u8>,
    p: int,
)
    requires
        sb.wf(),
        img.len() <= u64::MAX,
        is_fork_map(extents),
        0 <= i < extents.len(),
        acc.len() == count * sb.block_size,
        lblk + count <= u64::MAX,
        !extents[i].unwritten,
        extents[i].offset < lblk + count,
        extents[i].spec_end() > lblk,
        part_of(sb, img, extents[i], lblk, lblk + count) is Ok,
        0 <= p < acc.len(),
    ensures
        ({
            let e = extents[i];
            let data = part_of(sb, img, e, lblk, lblk + count)->Ok_0;
            let over = overwritten(acc, (part_from(e, lblk) - lblk) * sb.block_size, data);
            laid_byte(sb, img, extents, i + 1, lblk, over, p) == laid_byte(sb, img, extents, i, lblk, acc, p)
        }),
{
    let bs = sb.block_size as int;
    let e = extents[i];
    let from = part_from(e, lblk);
    let to = part_to(e, lblk + count);
    let data = part_of(sb, img, e, lblk, lblk + count)->Ok_0;
    let start = (from - lblk) * bs;
    let over = overwritten(acc, start, data);
    let b = lblk + p / bs;
    let within = p % bs;
    lemma_fundamental_div_mod(p, bs);
    assert(0 <= within < bs && 0 <= p / bs) by (nonlinear_arith)
        requires
            within == p % bs,
            bs > 0,
            p >= 0,
    ;
    assert(p / bs < count) by (nonlinear_arith)
        requires
            p < count * bs,
            bs > 0,
            p >= 0,
    ;
    lemma_run(sb, img, e, from - e.offset, to - from);
    let k = b - from;
    assert(start + (k * bs + within) == p) by (nonlinear_arith)
        requires
            start == (from - lblk) * bs,
            k == lblk + p / bs - from,
            p == bs * (p / bs) + within,
    ;
    assert(data.len() == (to - from) * bs);
    if e.offset <= b < e.spec_end() {
        assert(0 <= k < to - from);
        assert(k * bs + within < (to - from) * bs) by (nonlinear_arith)
            requires
                k + 1 <= to - from,
                within < bs,
                bs > 0,
        ;
        assert(0 <= k * bs) by (nonlinear_arith)
            requires
                0 <= k,
                0 < bs,
        ;
        lemma_said_once(sb, img, extents, i, i + 1, b, within);
        assert(data[k * bs + within] == byte_on_disk(sb, img, e, e.offset + (from - e.offset) + k, within));
        assert(e.offset + (from - e.offset) + k == b);
        assert(over[p] == data[p - start]);
    } else {
        assert(over[p] == acc[p]) by {
            if b < e.offset {
                assert(k * bs + within < 0) by (nonlinear_arith)
                    requires
                        k <= -1,
                        within < bs,
                        bs > 0,
                ;
            } else {
                assert(k * bs + within >= (to - from) * bs) by (nonlinear_arith)
                    requires
                        k >= to - from,
                        within >= 0,
                        bs > 0,
                ;
            }
        }
    }
}

proof fn lemma_laid_bytes(
    sb: Superblock,
    img: Seq<u8>,
    extents: Seq<Extent>,
    i: int,
    lblk: u64,
    count: u64,
    acc: Seq<u8>,
    p: int,
)
    requires
        sb.wf(),
        img.len() <= u64::MAX,
        is_fork_map(extents),
        0 <= i <= extents.len(),
        acc.len() == count * sb.block_size,
        lblk + count <= u64::MAX,
        laid_over(sb, img, extents, i, lblk, count, acc) is Ok,
        0 <= p < acc.len(),
    ensures
        laid_over(sb, img, extents, i, lblk, count, acc)->Ok_0[p] == laid_byte(sb, img, extents, i, lblk, acc, p),
    decreases extents.len() - i,
{
    if i < extents.len() {
        let bs = sb.block_size as int;
        let e = extents[i];
        let end = lblk + count;
        if e.unwritten || e.offset >= end || e.spec_end() <= lblk {
            lemma_laid_bytes(sb, img, extents, i + 1, lblk, count, acc, p);
            assert(lblk <= lblk + p / bs < end) by {
                assert(0 <= p / bs < count) by (nonlinear_arith)
                    requires
                        0 <= p < count * bs,
                        bs > 0,
                ;
            }
        } else {
            let data = part_of(sb, img, e, lblk, end)->Ok_0;
            let over = overwritten(acc, (part_from(e, lblk) - lblk) * sb.block_size, data);
            lemma_lay_one(sb, img, extents, i, lblk, count, acc, p);
            lemma_laid_bytes(sb, img, extents, i + 1, lblk, count, over, p);
        }
    }
}

/// Every byte of the blocks read of a fork is the byte the fork has there.
pub proof fn lemma_mapped_bytes(sb: Superblock, img: Seq<u8>, extents: Seq<Extent>, lblk: u64, count: u64, p: int)
    requires
        sb.wf(),
        img.len() <= u64::MAX,
        is_fork_map(extents),
        lblk + count <= u64::MAX,
        mapped(sb, img, extents, lblk, count) is Ok,
        0 <= p < count * sb.block_size,
    ensures
        mapped(sb, img, extents, lblk, count)->Ok_0.len() == count * sb.block_size,
        mapped(sb, img, extents, lblk, count)->Ok_0[p] == byte_at(sb, img, extents, lblk * sb.block_size + p),
{
    let bs = sb.block_size as int;
    let zeros = zero_bytes((count * bs) as nat);
    lemma_mapped_len(sb, img, extents, lblk, count);
    lemma_laid_bytes(sb, img, extents, 0, lblk, count, zeros, p);
    lemma_fundamental_div_mod(p, bs);
    assert(0 <= p % bs < bs) by (nonlinear_arith)
        requires
            bs > 0,
    ;
    assert(lblk * bs + p == bs * (lblk + p / bs) + p % bs) by (nonlinear_arith)
        requires
            p == bs * (p / bs) + p % bs,
    ;
    assert((lblk + p / bs) * bs == bs * (lblk + p / bs)) by (nonlinear_arith);
    lemma_fundamental_div_mod_converse(lblk * bs + p, bs, lblk + p / bs, p % bs);
}

/// Every byte read of a file is the byte the file has there.
pub proof fn lemma_contents_bytes(
    sb: Superblock,
    img: Seq<u8>,
    inode: InodeView,
    extents: Seq<Extent>,
    offset: u64,
    len: u64,
    i: int,
)
    requires
        sb.wf(),
        img.len() <= u64::MAX,
        is_fork_map(extents),
        inode.format != Format::Local,
        contents_of(sb, img, inode, extents, offset, len) is Ok,
        0 <= i < clipped(inode.size, offset, len),
    ensures
        contents_of(sb, img, inode, extents, offset, len)->Ok_0.len() == clipped(inode.size, offset, len),
        contents_of(sb, img, inode, extents, offset, len)->Ok_0[i] == byte_at(sb, img, extents, offset + i),
{
    let bs = sb.block_size as int;
    let n = clipped(inode.size, offset, len);
    let first = offset as int / bs;
    let last = (offset + n - 1) / bs;
    lemma_block_range(offset as int, n, bs);
    lemma_contents_len(sb, img, inode, extents, offset, len);
    let skip = offset - first * bs;
    lemma_mapped_bytes(sb, img, extents, first as u64, (last - first + 1) as u64, skip + i);
    assert(first * bs + (skip + i) == offset + i);
}

/// What is part of a run that can be read can be read.
proof fn lemma_part_of_run(sb: Superblock, img: Seq<u8>, e: Extent, d: int, n: int, d2: int, n2: int)
    requires
        sb.wf(),
        img.len() <= u64::MAX,
        e.is_packable(),
        0 <= d <= d2,
        1 <= n2,
        d2 + n2 <= d + n <= e.count,
        blocks_of(sb, img, (e.block + d) as u64, n as u64) is Ok,
    ensures
        blocks_of(sb, img, (e.block + d2) as u64, n2 as u64) is Ok,
{
    let bs = sb.block_size as int;
    let first = (e.block + d) as u64;
    let at = sb.block_byte(first)->Ok_0 as int;
    let k = d2 - d;
    lemma_group_place(sb, first, n, k);
    lemma_group_place(sb, first, n, k + n2 - 1);
    lemma_blocks_run_on(sb, first, k as nat);
    assert((k + n2) * bs <= n * bs) by (nonlinear_arith)
        requires
            k + n2 <= n,
            bs >= 0,
    ;
    assert(k * bs + n2 * bs == (k + n2) * bs) by (nonlinear_arith);
    assert(0 <= k * bs) by (nonlinear_arith)
        requires
            0 <= k,
            0 <= bs,
    ;
    assert(0 <= n2 * bs) by (nonlinear_arith)
        requires
            0 <= n2,
            0 <= bs,
    ;
    lemma_small_mod((at + k * bs) as nat, WRAP as nat);
}

/// Where blocks can be read of a fork, fewer of them can be.
proof fn lemma_fewer_laid(
    sb: Superblock,
    img: Seq<u8>,
    extents: Seq<Extent>,
    i: int,
    lblk: u64,
    count: u64,
    acc: Seq<u8>,
    lblk2: u64,
    count2: u64,
    acc2: Seq<u8>,
)
    requires
        sb.wf(),
        img.len() <= u64::MAX,
        is_fork_map(extents),
        0 <= i <= extents.len(),
        lblk + count <= u64::MAX,
        lblk <= lblk2,
        1 <= count2,
        lblk2 + count2 <= lblk + count,
        laid_over(sb, img, extents, i, lblk, count, acc) is Ok,
    ensures
        laid_over(sb, img, extents, i, lblk2, count2, acc2) is Ok,
    decreases extents.len() - i,
{
    if i < extents.len() {
        let e = extents[i];
        let end = lblk + count;
        let end2 = lblk2 + count2;
            let next = if e.unwritten || e.offset >= end || e.spec_end() <= lblk {
            acc
        } else {
            overwritten(
                acc,
                (part_from(e, lblk) - lblk) * sb.block_size,
                part_of(sb, img, e, lblk, end)->Ok_0,
            )
        };
        if e.unwritten || e.offset >= end2 || e.spec_end() <= lblk2 {
            lemma_fewer_laid(sb, img, extents, i + 1, lblk, count, next, lblk2, count2, acc2);
        } else {
            let from = part_from(e, lblk);
            let from2 = part_from(e, lblk2);
            lemma_part_of_run(
                sb,
                img,
                e,
                from - e.offset,
                part_to(e, end) - from,
                from2 - e.offset,
                part_to(e, end2) - from2,
            );
            let over2 = overwritten(
                acc2,
                (from2 - lblk2) * sb.block_size,
                part_of(sb, img, e, lblk2, end2)->Ok_0,
            );
            lemma_fewer_laid(sb, img, extents, i + 1, lblk, count, next, lblk2, count2, over2);
        }
    }
}

/// Reading part of a file that can be read whole gives that part of it.
pub proof fn lemma_range_is_slice(
    sb: Superblock,
    img: Seq<u8>,
    inode: InodeView,
    extents: Seq<Extent>,
    offset: u64,
    len: u64,
)
    requires
        sb.wf(),
        img.len() <= u64::MAX,
        is_fork_map(extents),
        contents_of(sb, img, inode, extents, 0, inode.size) is Ok,
        offset <= inode.size,
    ensures
        contents_of(sb, img, inode, extents, offset, len) == Ok::<Seq<u8>, Fault>(
            contents_of(sb, img, inode, extents, 0, inode.size)->Ok_0.subrange(
                offset as int,
                offset + clipped(inode.size, offset, len),
            ),
        ),
{
    let bs = sb.block_size as int;
    let size = inode.size;
    let whole = contents_of(sb, img, inode, extents, 0, size)->Ok_0;
    let n = clipped(size, offset, len);
    let want = whole.subrange(offset as int, offset + n);
    lemma_contents_len(sb, img, inode, extents, 0, size);
    if n == 0 {
        assert(want =~= Seq::<u8>::empty());
    } else if inode.format == Format::Local {
        assert(want =~= inode.data_fork.subrange(offset as int, offset + n));
    } else {
        let all = ((size - 1) / bs + 1) as u64;
        let first = offset as int / bs;
        let last = (offset + n - 1) / bs;
        let count = last - first + 1;
        lemma_block_range(0, size as int, bs);
        lemma_block_range(offset as int, n, bs);
        lemma_div_is_ordered(offset + n - 1, size - 1, bs);
        assert(0int / bs == 0) by (nonlinear_arith)
            requires
                bs > 0,
        ;
        assert(count * bs <= all * bs) by (nonlinear_arith)
            requires
                count <= all,
                bs > 0,
        ;
        assert(0 <= count * bs) by (nonlinear_arith)
            requires
                count >= 0,
                bs > 0,
        ;
        assert(mapped(sb, img, extents, 0, all) is Ok);
        lemma_fewer_laid(
            sb,
            img,
            extents,
            0,
            0,
            all,
            zero_bytes((all * bs) as nat),
            first as u64,
            count as u64,
            zero_bytes((count * bs) as nat),
        );
        assert(mapped(sb, img, extents, first as u64, count as u64) is Ok);
        assert(contents_of(sb, img, inode, extents, offset, len) is Ok);
        let part = contents_of(sb, img, inode, extents, offset, len)->Ok_0;
        lemma_contents_len(sb, img, inode, extents, offset, len);
        assert forall|i: int| 0 <= i < n implies part[i] == want[i] by {
            lemma_contents_bytes(sb, img, inode, extents, offset, len, i);
            lemma_contents_bytes(sb, img, inode, extents, 0, size, offset + i);
        }
        assert(part =~= want);
    }
}

proof fn lemma_chunks_are_rest(sb: Superblock, img: Seq<u8>, inode: InodeView, extents: Seq<Extent>, off: int)
    requires
        sb.wf(),
        img.len() <= u64::MAX,
        is_fork_map(extents),
        contents_of(sb, img, inode, extents, 0, inode.size) is Ok,
        0 <= off <= inode.size,
    ensures
        chunks_from(sb, img, inode, extents, off) == Ok::<Seq<u8>, Fault>(
            contents_of(sb, img, inode, extents, 0, inode.size)->Ok_0.skip(off),
        ),
    decreases inode.size - off,
{
    let size = inode.size;
    let whole = contents_of(sb, img, inode, extents, 0, size)->Ok_0;
    lemma_contents_len(sb, img, inode, extents, 0, size);
    if off < size {
        lemma_range_is_slice(sb, img, inode, extents, off as u64, CHUNK);
        let n = clipped(size, off as u64, CHUNK);
        let chunk = whole.subrange(off, off + n);
        if off + CHUNK < size {
            lemma_chunks_are_rest(sb, img, inode, extents, off + CHUNK);
            assert(chunk + whole.skip(off + CHUNK) =~= whole.skip(off));
        } else {
            assert(chunks_from(sb, img, inode, extents, off + CHUNK) == Ok::<Seq<u8>, Fault>(Seq::empty()));
            assert(chunk + Seq::<u8>::empty() =~= whole.skip(off));
        }
    } else {
        assert(whole.skip(off) =~= Seq::<u8>::empty());
    }
}

/// A file read a chunk at a time is the file read whole.
pub proof fn lemma_chunks_are_whole(sb: Superblock, img: Seq<u8>, inode: InodeView, extents: Seq<Extent>)
    requires
        sb.wf(),
        img.len() <= u64::MAX,
        is_fork_map(extents),
        contents_of(sb, img, inode, extents, 0, inode.size) is Ok,
    ensures
        chunks_from(sb, img, inode, extents, 0) == contents_of(sb, img, inode, extents, 0, inode.size),
{
    let whole = contents_of(sb, img, inode, extents, 0, inode.size)->Ok_0;
    lemma_chunks_are_rest(sb, img, inode, extents, 0);
    assert(whole.skip(0) =~= whole);
}

proof fn lemma_said(sb: Superblock, img: Seq<u8>, extents: Seq<Extent>, i: int, k: int, b: int, within: int)
    requires
        is_map(extents),
        0 <= i <= k < extents.len(),
        extents[k].offset <= b < extents[k].offset + extents[k].count,
    ensures
        said_from(sb, img, extents, i, b, within) == if extents[k].unwritten {
            None
        } else {
            Some(byte_on_disk(sb, img, extents[k], b, within))
        },
    decreases k - i,
{
    if i < k {
        assert(extents[i].spec_end() <= extents[k].offset);
        lemma_said(sb, img, extents, i + 1, k, b, within);
    } else {
        lemma_nothing_said(sb, img, extents, i + 1, b, within);
    }
}

proof fn lemma_nothing_said(sb: Superblock, img: Seq<u8>, extents: Seq<Extent>, i: int, b: int, within: int)
    requires
        0 <= i,
        forall|j: int|
            i <= j < extents.len() ==> !((#[trigger] extents[j]).offset <= b < extents[j].offset + extents[j].count),
    ensures
        said_from(sb, img, extents, i, b, within) is None,
    decreases extents.len() - i,
{
    if i < extents.len() {
        lemma_nothing_said(sb, img, extents, i + 1, b, within);
    }
}

/// What a byte of a file is: where an extent that was written holds its block,
/// the byte on the device as far into the extent as it is into the file past
/// where the extent begins; where one was allocated and never written, zero.
pub proof fn lemma_byte_in_extent(sb: Superblock, img: Seq<u8>, extents: Seq<Extent>, k: int, p: int)
    requires
        is_map(extents),
        0 <= k < extents.len(),
        extents[k].offset <= p / sb.block_size as int,
        p / (sb.block_size as int) < extents[k].offset + extents[k].count,
    ensures
        byte_at(sb, img, extents, p) == if extents[k].unwritten {
            0
        } else {
            let b = p / sb.block_size as int;
            img[sb.block_byte((extents[k].block + b - extents[k].offset) as u64)->Ok_0 + p % sb.block_size as int]
        },
{
    let b = p / sb.block_size as int;
    lemma_said(sb, img, extents, 0, k, b, p % sb.block_size as int);
    assert(extents[k].block + (b - extents[k].offset) == extents[k].block + b - extents[k].offset);
}

/// What a byte of a file is that no extent holds: zero.
pub proof fn lemma_byte_in_hole(sb: Superblock, img: Seq<u8>, extents: Seq<Extent>, p: int)
    requires
        forall|j: int|
            0 <= j < extents.len() ==> !((#[trigger] extents[j]).offset <= p / sb.block_size as int && p / (
            sb.block_size as int) < extents[j].offset + extents[j].count),
    ensures
        byte_at(sb, img, extents, p) == 0,
{
    lemma_nothing_said(sb, img, extents, 0, p / sb.block_size as int, p % sb.block_size as int);
}

/// Data on the realtime device, which the first flag of an inode says there is,
/// is not read, and no other flag makes a difference.
pub proof fn lemma_realtime_data_is_refused(
    sb: Superblock,
    img: Seq<u8>,
    inode: InodeView,
    extents: Seq<Extent>,
    offset: u64,
    len: u64,
    flags: u16,
)
    requires
        inode.format != Format::Local,
        offset < inode.size,
        0 < len,
    ensures
        inode.flags as int % 2 == 1 ==> contents_of(sb, img, inode, extents, offset, len) matches Err(
            Fault::Unsupported(_),
        ),
        inode.flags as int % 2 == flags as int % 2 ==> contents_of(sb, img, inode, extents, offset, len)
            == contents_of(sb, img, (InodeView { flags, ..inode }), extents, offset, len),
{
    let f = inode.flags;
    assert((f & 1 != 0) == (f % 2 == 1)) by (bit_vector);
    assert((flags & 1 != 0) == (flags % 2 == 1)) by (bit_vector);
}

/// What a file holds that is kept in its inode is the first bytes of the fork,
/// as many as its size says and from as far on as is asked.
pub proof fn lemma_inline_contents(
    sb: Superblock,
    img: Seq<u8>,
    inode: InodeView,
    extents: Seq<Extent>,
    offset: u64,
    len: u64,
)
    requires
        inode.format == Format::Local,
        offset + len <= inode.size <= inode.data_fork.len(),
    ensures
        contents_of(sb, img, inode, extents, offset, len) == Ok::<Seq<u8>, Fault>(
            inode.data_fork.subrange(offset as int, offset + len),
        ),
{
    if len == 0 {
        assert(inode.data_fork.subrange(offset as int, offset + len) =~= Seq::<u8>::empty());
    }
}

} // verus!
