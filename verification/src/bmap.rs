//! Block maps: an inode fork's logical-to-physical mapping, whether it is a
//! list of extents in the inode or a B+tree rooted there.

use vstd::arithmetic::div_mod::{lemma_fundamental_div_mod, lemma_fundamental_div_mod_converse};
use vstd::prelude::*;
use vstd::slice::slice_subrange;
use vstd::string::*;

use crate::bytes::{be16, be16_at, be32, be32_at, be64, be64_at, lemma_fields_of_subrange};
use crate::crc;
use crate::error::{around, corrupt, numbered, outcome, Error, Fault, Result};
use crate::sb::Superblock;
use crate::sort::{arranged, in_order, lemma_arranged_is_in_order, lemma_rank_is_ranking, placed, rank, sorted, Ranked};
use crate::text::{decimal, push_decimal};

verus! {

/// One run of blocks.
#[derive(Debug, Clone, Copy, PartialEq, Eq, Structural)]
pub struct Extent {
    /// First logical block in the fork.
    pub offset: u64,
    /// First filesystem block on the device.
    pub block: u64,
    /// Blocks in the run.
    pub count: u64,
    /// Allocated but never written: reads as zeroes.
    pub unwritten: bool,
}

/// The packed 128-bit extent record at byte `o` of `b`: from the top bit down,
/// one bit of flag, 54 of offset, 52 of block and 21 of count.
pub open spec fn extent_at(b: Seq<u8>, o: int) -> Extent {
    let l0 = be64_at(b, o) as int;
    let l1 = be64_at(b, o + 8) as int;
    Extent {
        unwritten: l0 / 0x8000_0000_0000_0000 != 0,
        offset: (l0 % 0x8000_0000_0000_0000 / 0x200) as u64,
        block: (l0 % 0x200 * 0x800_0000_0000 + l1 / 0x20_0000) as u64,
        count: (l1 % 0x20_0000) as u64,
    }
}

/// The `n` extent records that start at byte `from` of `b`.
pub open spec fn extents_at(b: Seq<u8>, from: int, n: nat) -> Seq<Extent> {
    Seq::new(n, |i: int| extent_at(b, from + 16 * i))
}

/// The `n` block numbers that start at byte `from` of `b`.
pub open spec fn pointers_at(b: Seq<u8>, from: int, n: nat) -> Seq<u64> {
    Seq::new(n, |i: int| be64_at(b, from + 8 * i))
}

impl Extent {
    /// Whether the extent's end is a block number.
    pub open spec fn ends(self) -> bool {
        self.offset + self.count <= u64::MAX
    }

    /// Whether the extent's end is a block number, in the fork and on the
    /// device.
    pub open spec fn is_numbered(self) -> bool {
        self.ends() && self.block + self.count <= u64::MAX
    }

    /// One past the last logical block.
    pub open spec fn spec_end(self) -> int {
        self.offset + self.count
    }

    /// Whether the extent holds logical block `lblk`.
    pub open spec fn covers(self, lblk: u64) -> bool {
        self.offset <= lblk < self.spec_end()
    }

    /// Whether the fields are in the range an extent record can hold.
    pub open spec fn is_packable(self) -> bool {
        self.offset < 0x40_0000_0000_0000 && self.block < 0x10_0000_0000_0000 && self.count < 0x20_0000
    }

    /// Decode a packed 128-bit extent record.
    pub fn decode(rec: &[u8]) -> (r: Extent)
        requires
            16 <= rec@.len(),
        ensures
            r == extent_at(rec@, 0),
            r.is_packable(),
    {
        let l0: u64 = be64(rec, 0);
        let l1: u64 = be64(rec, 8);
        Extent {
            unwritten: l0 / 0x8000_0000_0000_0000 != 0,
            offset: l0 % 0x8000_0000_0000_0000 / 0x200,
            block: l0 % 0x200 * 0x800_0000_0000 + l1 / 0x20_0000,
            count: l1 % 0x20_0000,
        }
    }

    /// One past the last logical block.
    pub fn end(&self) -> (r: u64)
        requires
            self.ends(),
        ensures
            r == self.spec_end(),
    {
        self.offset + self.count
    }
}

/// A record made of an extent's fields decodes to that extent.
pub proof fn lemma_decode_reads_back(e: Extent, rec: Seq<u8>)
    requires
        e.is_packable(),
        be64_at(rec, 0) == (if e.unwritten {
            0x8000_0000_0000_0000int
        } else {
            0
        }) + e.offset * 0x200 + e.block as int / 0x800_0000_0000,
        be64_at(rec, 8) == e.block as int % 0x800_0000_0000 * 0x20_0000 + e.count,
    ensures
        extent_at(rec, 0) == e,
{
    let l0 = be64_at(rec, 0) as int;
    let l1 = be64_at(rec, 8) as int;
    let high = e.block as int / 0x800_0000_0000;
    let low = e.block as int % 0x800_0000_0000;
    let flag: int = if e.unwritten {
        1
    } else {
        0
    };
    let rest = e.offset * 0x200 + high;
    assert(0 <= high < 0x200);
    lemma_fundamental_div_mod_converse(l0, 0x8000_0000_0000_0000, flag, rest);
    lemma_fundamental_div_mod_converse(rest, 0x200, e.offset as int, high);
    lemma_fundamental_div_mod_converse(l0, 0x200, flag * 0x40_0000_0000_0000 + e.offset, high);
    lemma_fundamental_div_mod_converse(l1, 0x20_0000, low, e.count as int);
    lemma_fundamental_div_mod(e.block as int, 0x800_0000_0000);
}

/// `BMAP`: B+tree block magic, v4.
pub const BMAP_MAGIC: u32 = 0x424d_4150;

/// `BMA3`: B+tree block magic, v5.
pub const BMA3_MAGIC: u32 = 0x424d_4133;

/// The extents stored directly in a fork.
pub open spec fn inline_extents_of(fork: Seq<u8>, count: u64) -> core::result::Result<Seq<Extent>, Fault> {
    if count > usize::MAX {
        Err(Fault::Corrupt("extent count"@))
    } else if count * 16 > fork.len() {
        Err(Fault::Corrupt(around(""@, count as nat, " extents do not fit in the fork"@)))
    } else {
        Ok(extents_at(fork, 0, count as nat))
    }
}

/// Extents stored directly in a fork, `count` of them.
pub fn inline_extents(fork: &[u8], count: u64) -> (r: Result<Vec<Extent>>)
    ensures
        outcome(r) == inline_extents_of(fork@, count),
        r matches Ok(v) ==> forall|i: int| 0 <= i < v@.len() ==> (#[trigger] v@[i]).is_packable(),
{
    if count > usize::MAX as u64 {
        return Err(corrupt("extent count"));
    }
    let fits: bool = match (count as usize).checked_mul(16) {
        Some(n) => n <= fork.len(),
        None => false,
    };
    if !fits {
        assert(fork@.len() == fork.len());
        return Err(Error::Corrupt(numbered("", count, " extents do not fit in the fork")));
    }
    Ok(extents_from(fork, 0, count as usize))
}

/// The `n` extent records that start at byte `from` of `b`.
fn extents_from(b: &[u8], from: usize, n: usize) -> (r: Vec<Extent>)
    requires
        from + 16 * n <= b@.len(),
    ensures
        r@ == extents_at(b@, from as int, n as nat),
        forall|i: int| 0 <= i < r@.len() ==> (#[trigger] r@[i]).is_packable(),
{
    let mut r: Vec<Extent> = Vec::new();
    let mut i: usize = 0;
    let len: usize = b.len();
    while i < n
        invariant
            i <= n,
            len == b@.len(),
            from + 16 * n <= len,
            r@ == extents_at(b@, from as int, i as nat),
            forall|j: int| 0 <= j < r@.len() ==> (#[trigger] r@[j]).is_packable(),
        decreases n - i,
    {
        let at: usize = from + 16 * i;
        let e = Extent::decode(slice_subrange(b, at, at + 16));
        proof {
            lemma_fields_of_subrange(b@, at as int, at + 16, 0);
            lemma_fields_of_subrange(b@, at as int, at + 16, 8);
        }
        r.push(e);
        assert(r@ =~= extents_at(b@, from as int, (i + 1) as nat));
        i += 1;
    }
    r
}

/// The `n` block numbers that start at byte `from` of `b`.
fn pointers_from(b: &[u8], from: usize, n: usize) -> (r: Vec<u64>)
    requires
        from + 8 * n <= b@.len(),
    ensures
        r@ == pointers_at(b@, from as int, n as nat),
{
    let mut r: Vec<u64> = Vec::new();
    let mut i: usize = 0;
    let len: usize = b.len();
    while i < n
        invariant
            i <= n,
            len == b@.len(),
            from + 8 * n <= len,
            r@ == pointers_at(b@, from as int, i as nat),
        decreases n - i,
    {
        r.push(be64(b, from + 8 * i));
        assert(r@ =~= pointers_at(b@, from as int, (i + 1) as nat));
        i += 1;
    }
    r
}

/// The root of a B+tree held in a fork: its level and child block numbers.
///
/// Keys fill the first half of the space and pointers the second, each
/// sized for as many records as the fork could hold.
pub open spec fn btree_root_of(fork: Seq<u8>) -> core::result::Result<(u16, Seq<u64>), Fault> {
    let level = be16_at(fork, 0);
    let numrecs = be16_at(fork, 2);
    let maxrecs = (fork.len() - 4) / 16;
    if fork.len() < 4 {
        Err(Fault::Corrupt("B+tree root in a tiny fork"@))
    } else if level == 0 || numrecs == 0 || numrecs > maxrecs {
        Err(
            Fault::Corrupt(
                "B+tree root: level "@ + decimal(level as nat) + ", "@ + decimal(numrecs as nat) + " records"@,
            ),
        )
    } else {
        Ok((level, pointers_at(fork, 4 + maxrecs * 8, numrecs as nat)))
    }
}

/// The root of a B+tree held in a fork: its level and child block numbers.
pub fn btree_root(fork: &[u8]) -> (r: Result<(u16, Vec<u64>)>)
    ensures
        outcome(r) == btree_root_of(fork@),
{
    if fork.len() < 4 {
        return Err(corrupt("B+tree root in a tiny fork"));
    }
    let level: u16 = be16(fork, 0);
    let numrecs: usize = be16(fork, 2) as usize;
    let maxrecs: usize = (fork.len() - 4) / 16;
    if level == 0 || numrecs == 0 || numrecs > maxrecs {
        let mut what = String::from_str("B+tree root: level ");
        push_decimal(&mut what, level as u64);
        what.append(", ");
        push_decimal(&mut what, numrecs as u64);
        what.append(" records");
        return Err(Error::Corrupt(what));
    }
    let ptrs: usize = 4 + maxrecs * 8;
    Ok((level, pointers_from(fork, ptrs, numrecs)))
}

/// Header length of a long-format B+tree block.
pub open spec fn spec_long_block_header(sb: Superblock) -> int {
    if sb.spec_is_v5() {
        72
    } else {
        24
    }
}

/// Header length of a long-format B+tree block.
pub fn long_block_header(sb: &Superblock) -> (r: usize)
    ensures
        r == spec_long_block_header(*sb),
{
    if sb.is_v5() {
        72
    } else {
        24
    }
}

/// How many records a B+tree block in `len` bytes has room for.
pub open spec fn block_room(sb: Superblock, len: nat) -> int {
    (len - spec_long_block_header(sb)) / 16
}

/// The complaint that B+tree block `fsb` has something wrong with it.
pub open spec fn block_fault(fsb: u64, what: Seq<char>) -> Fault {
    Fault::Corrupt(around("bmap block "@, fsb as nat, what))
}

/// The level and record count of a B+tree block, if it is a good one.
pub open spec fn btree_block_of(sb: Superblock, buf: Seq<u8>, fsb: u64, owner: u64) -> core::result::Result<
    (u16, usize),
    Fault,
> {
    let numrecs = be16_at(buf, 6);
    if be32_at(buf, 0) != (if sb.spec_is_v5() {
        BMA3_MAGIC
    } else {
        BMAP_MAGIC
    }) {
        Err(block_fault(fsb, ": bad magic"@))
    } else if sb.spec_is_v5() && !crc::is_sealed(buf, 64) {
        Err(block_fault(fsb, ": checksum"@))
    } else if sb.spec_is_v5() && be64_at(buf, 56) != owner {
        Err(block_fault(fsb, ": owned by "@ + decimal(be64_at(buf, 56) as nat)))
    } else if numrecs > block_room(sb, buf.len()) {
        Err(block_fault(fsb, ": "@ + decimal(numrecs as nat) + " records"@))
    } else {
        Ok((be16_at(buf, 4), numrecs as usize))
    }
}

/// Whether a buffer is long enough for what its first bytes make it out to be.
pub open spec fn is_long_enough(sb: Superblock, buf: Seq<u8>, owner: u64) -> bool {
    &&& 4 <= buf.len()
    &&& be32_at(buf, 0) == (if sb.spec_is_v5() {
        BMA3_MAGIC
    } else {
        BMAP_MAGIC
    }) && (sb.spec_is_v5() ==> crc::is_sealed(buf, 64) && be64_at(buf, 56) == owner) ==> spec_long_block_header(sb)
        <= buf.len()
}

/// A complaint about B+tree block `fsb`.
fn block_error(fsb: u64, what: &str) -> (r: Error)
    ensures
        r@ == block_fault(fsb, what@),
{
    Error::Corrupt(numbered("bmap block ", fsb, what))
}

/// Check a B+tree block and return its level and record count.
pub fn check_btree_block(sb: &Superblock, buf: &[u8], fsb: u64, owner: u64) -> (r: Result<(u16, usize)>)
    requires
        is_long_enough(*sb, buf@, owner),
    ensures
        outcome(r) == btree_block_of(*sb, buf@, fsb, owner),
{
    let magic: u32 = be32(buf, 0);
    if sb.is_v5() {
        if magic != BMA3_MAGIC {
            return Err(block_error(fsb, ": bad magic"));
        }
        if !crc::verify(buf, 64) {
            return Err(block_error(fsb, ": checksum"));
        }
        if be64(buf, 56) != owner {
            let what = numbered(": owned by ", be64(buf, 56), "");
            proof {
                reveal_strlit("");
                assert(what@ =~= ": owned by "@ + decimal(be64_at(buf@, 56) as nat));
            }
            return Err(block_error(fsb, what.as_str()));
        }
    } else if magic != BMAP_MAGIC {
        return Err(block_error(fsb, ": bad magic"));
    }
    let level: u16 = be16(buf, 4);
    let numrecs: usize = be16(buf, 6) as usize;
    let hdr: usize = long_block_header(sb);
    let fit: usize = (buf.len() - hdr) / 16;
    if numrecs > fit {
        let what = numbered(": ", numrecs as u64, " records");
        return Err(block_error(fsb, what.as_str()));
    }
    Ok((level, numrecs))
}

/// The child pointers of an interior B+tree block.
pub open spec fn node_ptrs_of(sb: Superblock, buf: Seq<u8>, numrecs: nat) -> Seq<u64> {
    pointers_at(buf, spec_long_block_header(sb) + block_room(sb, buf.len()) * 8, numrecs)
}

/// Child pointers of an interior B+tree block.
pub fn node_ptrs(sb: &Superblock, buf: &[u8], numrecs: usize) -> (r: Vec<u64>)
    requires
        spec_long_block_header(*sb) <= buf@.len(),
        spec_long_block_header(*sb) + block_room(*sb, buf@.len()) * 8 + numrecs * 8 <= buf@.len(),
    ensures
        r@ == node_ptrs_of(*sb, buf@, numrecs as nat),
{
    let hdr: usize = long_block_header(sb);
    let maxrecs: usize = (buf.len() - hdr) / 16;
    let ptrs: usize = hdr + maxrecs * 8;
    pointers_from(buf, ptrs, numrecs)
}

/// The records of a leaf B+tree block.
pub open spec fn leaf_extents_of(sb: Superblock, buf: Seq<u8>, numrecs: nat) -> Seq<Extent> {
    extents_at(buf, spec_long_block_header(sb), numrecs)
}

/// Records of a leaf B+tree block.
pub fn leaf_extents(sb: &Superblock, buf: &[u8], numrecs: usize) -> (r: Vec<Extent>)
    requires
        numrecs == 0 || spec_long_block_header(*sb) + numrecs * 16 <= buf@.len(),
    ensures
        r@ == leaf_extents_of(*sb, buf@, numrecs as nat),
        forall|i: int| 0 <= i < r@.len() ==> (#[trigger] r@[i]).is_packable(),
{
    if numrecs == 0 {
        let none: Vec<Extent> = Vec::new();
        assert(none@ =~= leaf_extents_of(*sb, buf@, 0));
        return none;
    }
    let hdr: usize = long_block_header(sb);
    extents_from(buf, hdr, numrecs)
}

impl Ranked for Extent {
    open spec fn ranks_le(self, other: Self) -> bool {
        self.offset <= other.offset
    }

    proof fn lemma_total(a: Self, b: Self) {
    }

    proof fn lemma_chains(a: Self, b: Self, c: Self) {
    }

    fn not_after(&self, other: &Self) -> (r: bool) {
        self.offset <= other.offset
    }
}

/// The extents of `s` that hold any block.
pub open spec fn occupied(s: Seq<Extent>) -> Seq<Extent>
    decreases s.len(),
{
    if s.len() == 0 {
        s
    } else if s.last().count > 0 {
        occupied(s.drop_last()).push(s.last())
    } else {
        occupied(s.drop_last())
    }
}

/// The first place, from `i` on, where an extent reaches into the next.
pub open spec fn overlap_from(s: Seq<Extent>, i: int) -> Option<int>
    decreases s.len() - i,
{
    if i + 1 >= s.len() {
        None
    } else if s[i].spec_end() > s[i + 1].offset {
        Some(i)
    } else {
        overlap_from(s, i + 1)
    }
}

/// A fork's extents in order, those that hold nothing left out, if they do
/// not overlap.
pub open spec fn finished(extents: Seq<Extent>) -> core::result::Result<Seq<Extent>, Fault> {
    let s = arranged(occupied(extents), rank::<Extent>());
    match overlap_from(s, 0) {
        Some(i) => Err(
            Fault::Corrupt(
                "overlapping extents at logical blocks "@ + decimal(s[i].offset as nat) + " and "@ + decimal(
                    s[i + 1].offset as nat,
                ),
            ),
        ),
        None => Ok(s),
    }
}

/// Whether extents are in order and do not overlap.
pub open spec fn is_map(s: Seq<Extent>) -> bool {
    &&& forall|i: int| 0 <= i < s.len() ==> (#[trigger] s[i]).ends()
    &&& forall|i: int, j: int| 0 <= i < j < s.len() ==> (#[trigger] s[i]).spec_end() <= (#[trigger] s[j]).offset
}

/// Whether extents are what a fork's map is made of: records in order that
/// do not overlap and each hold some block.
pub open spec fn is_fork_map(s: Seq<Extent>) -> bool {
    &&& is_map(s)
    &&& forall|i: int| 0 <= i < s.len() ==> (#[trigger] s[i]).is_packable() && s[i].count > 0
}

proof fn lemma_occupied(s: Seq<Extent>)
    ensures
        forall|i: int| 0 <= i < occupied(s).len() ==> (#[trigger] occupied(s)[i]).count > 0 && s.contains(occupied(s)[i]),
    decreases s.len(),
{
    if s.len() > 0 {
        lemma_occupied(s.drop_last());
        let r = occupied(s.drop_last());
        assert forall|i: int| 0 <= i < occupied(s).len() implies (#[trigger] occupied(s)[i]).count > 0 && s.contains(
            occupied(s)[i],
        ) by {
            if i < r.len() {
                assert(s.drop_last().contains(r[i]));
                let k = choose|k: int| 0 <= k < s.drop_last().len() && s.drop_last()[k] == r[i];
                assert(s[k] == r[i]);
            } else {
                assert(s[s.len() - 1] == occupied(s)[i]);
            }
        }
    }
}

proof fn lemma_arranged_members(s: Seq<Extent>)
    ensures
        in_order(arranged(occupied(s), rank::<Extent>()), rank::<Extent>()),
        forall|i: int|
            0 <= i < arranged(occupied(s), rank::<Extent>()).len() ==> (#[trigger] arranged(
                occupied(s),
                rank::<Extent>(),
            )[i]).count > 0 && s.contains(arranged(occupied(s), rank::<Extent>())[i]),
{
    broadcast use vstd::seq_lib::group_to_multiset_ensures;

    let kept = occupied(s);
    let r = arranged(kept, rank::<Extent>());
    lemma_rank_is_ranking::<Extent>();
    lemma_arranged_is_in_order(kept, rank::<Extent>());
    lemma_occupied(s);
    assert forall|i: int| 0 <= i < r.len() implies (#[trigger] r[i]).count > 0 && s.contains(r[i]) by {
        assert(r.contains(r[i]));
        assert(r.to_multiset().count(r[i]) > 0);
        assert(kept.contains(r[i]));
        let k = choose|k: int| 0 <= k < kept.len() && kept[k] == r[i];
        assert(kept[k].count > 0);
    }
}

proof fn lemma_no_overlap(s: Seq<Extent>, from: int)
    requires
        0 <= from,
        in_order(s, rank::<Extent>()),
        overlap_from(s, from) is None,
        forall|i: int| 0 <= i < s.len() ==> (#[trigger] s[i]).count > 0,
    ensures
        forall|i: int, j: int|
            from <= i < j < s.len() ==> (#[trigger] s[i]).spec_end() <= (#[trigger] s[j]).offset,
    decreases s.len() - from,
{
    if from + 1 < s.len() {
        lemma_no_overlap(s, from + 1);
        assert forall|i: int, j: int| from <= i < j < s.len() implies (#[trigger] s[i]).spec_end() <= (
        #[trigger] s[j]).offset by {
            if i == from && j > from + 1 {
                assert(s[from + 1].spec_end() <= s[j].offset);
            }
        }
    }
}

/// The extents of a finished map are in order, do not overlap, each hold
/// some block, and are all of those given that do.
pub proof fn lemma_finished_is_map(extents: Seq<Extent>)
    requires
        finished(extents) is Ok,
        forall|i: int| 0 <= i < extents.len() ==> (#[trigger] extents[i]).ends(),
    ensures
        is_map(finished(extents)->Ok_0),
        forall|i: int| 0 <= i < finished(extents)->Ok_0.len() ==> (#[trigger] finished(extents)->Ok_0[i]).count > 0,
        finished(extents)->Ok_0.to_multiset() == occupied(extents).to_multiset(),
        forall|i: int|
            0 <= i < finished(extents)->Ok_0.len() ==> extents.contains(#[trigger] finished(extents)->Ok_0[i]),
{
    let s = finished(extents)->Ok_0;
    lemma_arranged_members(extents);
    lemma_rank_is_ranking::<Extent>();
    lemma_arranged_is_in_order(occupied(extents), rank::<Extent>());
    lemma_no_overlap(s, 0);
    assert forall|i: int| 0 <= i < s.len() implies (#[trigger] s[i]).ends() by {
        let k = choose|k: int| 0 <= k < extents.len() && extents[k] == s[i];
        assert(extents[k].ends());
    }
}

/// Sort a fork's extents and check they do not overlap.
///
/// An extent that reaches past the last block number overlaps any after it.
pub fn finish(extents: Vec<Extent>) -> (r: Result<Vec<Extent>>)
    ensures
        outcome(r) == finished(extents@),
        (forall|i: int| 0 <= i < extents@.len() ==> (#[trigger] extents@[i]).ends()) ==> (r matches Ok(v) ==> is_map(
            v@,
        )),
        (forall|i: int| 0 <= i < extents@.len() ==> (#[trigger] extents@[i]).is_packable()) ==> (r matches Ok(v)
            ==> is_fork_map(v@)),
{
    let mut kept: Vec<Extent> = Vec::new();
    let mut i: usize = 0;
    assert(occupied(extents@.subrange(0, 0)) =~= Seq::<Extent>::empty());
    while i < extents.len()
        invariant
            i <= extents@.len(),
            kept@ == occupied(extents@.subrange(0, i as int)),
        decreases extents@.len() - i,
    {
        let e: Extent = extents[i];
        assert(extents@.subrange(0, i + 1).drop_last() =~= extents@.subrange(0, i as int));
        if e.count > 0 {
            kept.push(e);
        }
        i += 1;
    }
    assert(extents@.subrange(0, i as int) =~= extents@);
    let s = sorted(kept);
    proof {
        lemma_arranged_members(extents@);
    }
    let mut k: usize = 0;
    while s.len() - k > 1
        invariant
            k <= s.len(),
            s@ == arranged(occupied(extents@), rank::<Extent>()),
            overlap_from(s@, 0) == overlap_from(s@, k as int),
        decreases s@.len() - k,
    {
        if s[k].offset as u128 + s[k].count as u128 > s[k + 1].offset as u128 {
            let mut what = String::from_str("overlapping extents at logical blocks ");
            push_decimal(&mut what, s[k].offset);
            what.append(" and ");
            push_decimal(&mut what, s[k + 1].offset);
            return Err(Error::Corrupt(what));
        }
        k += 1;
    }
    proof {
        if forall|i: int| 0 <= i < extents@.len() ==> (#[trigger] extents@[i]).ends() {
            lemma_finished_is_map(extents@);
        }
        if forall|i: int| 0 <= i < extents@.len() ==> (#[trigger] extents@[i]).is_packable() {
            assert forall|i: int| 0 <= i < extents@.len() implies (#[trigger] extents@[i]).ends() by {
                assert(extents@[i].is_packable());
            }
            lemma_finished_is_map(extents@);
            assert forall|i: int| 0 <= i < s@.len() implies (#[trigger] s@[i]).is_packable() by {
                let j = choose|j: int| 0 <= j < extents@.len() && extents@[j] == s@[i];
                assert(extents@[j].is_packable());
            }
        }
    }
    Ok(s)
}

/// The first extent that does not end at or before `lblk`, by its place.
pub fn first_past(extents: &[Extent], lblk: u64) -> (r: usize)
    requires
        is_map(extents@),
    ensures
        r <= extents@.len(),
        forall|i: int| 0 <= i < r ==> (#[trigger] extents@[i]).spec_end() <= lblk,
        forall|i: int| r <= i < extents@.len() ==> (#[trigger] extents@[i]).spec_end() > lblk,
{
    let mut lo: usize = 0;
    let mut hi: usize = extents.len();
    while lo < hi
        invariant
            lo <= hi <= extents@.len(),
            is_map(extents@),
            forall|i: int| 0 <= i < lo ==> (#[trigger] extents@[i]).spec_end() <= lblk,
            forall|i: int| hi <= i < extents@.len() ==> (#[trigger] extents@[i]).spec_end() > lblk,
        decreases hi - lo,
    {
        let mid: usize = lo + (hi - lo) / 2;
        if extents[mid].end() <= lblk {
            assert forall|i: int| 0 <= i < mid + 1 implies (#[trigger] extents@[i]).spec_end() <= lblk by {
                if i < mid {
                    assert(extents@[i].spec_end() <= extents@[mid as int].offset);
                }
            }
            lo = mid + 1;
        } else {
            assert forall|i: int| mid <= i < extents@.len() implies (#[trigger] extents@[i]).spec_end() > lblk by {
                if i > mid {
                    assert(extents@[mid as int].spec_end() <= extents@[i].offset);
                }
            }
            hi = mid;
        }
    }
    lo
}

/// The extent covering logical block `lblk`, if any.
pub fn find(extents: &[Extent], lblk: u64) -> (r: Option<&Extent>)
    requires
        is_map(extents@),
    ensures
        match r {
            Some(e) => extents@.contains(*e) && e.covers(lblk),
            None => forall|i: int| 0 <= i < extents@.len() ==> !(#[trigger] extents@[i]).covers(lblk),
        },
{
    let i: usize = first_past(extents, lblk);
    if i < extents.len() {
        let e: &Extent = &extents[i];
        if e.offset <= lblk {
            assert(extents@[i as int] == *e);
            return Some(e);
        }
        assert forall|j: int| 0 <= j < extents@.len() implies !(#[trigger] extents@[j]).covers(lblk) by {
            if j > i {
                assert(extents@[i as int].spec_end() <= extents@[j].offset);
            }
        }
    }
    None
}

/// At most one extent of a map covers a block, so what [`find`] finds is
/// settled.
pub proof fn lemma_covered_once(s: Seq<Extent>, i: int, j: int, lblk: u64)
    requires
        is_map(s),
        0 <= i < s.len(),
        0 <= j < s.len(),
        s[i].covers(lblk),
        s[j].covers(lblk),
    ensures
        i == j,
{
    if i < j {
        assert(s[i].spec_end() <= s[j].offset);
    } else if j < i {
        assert(s[j].spec_end() <= s[i].offset);
    }
}

proof fn lemma_occupied_is_complete(s: Seq<Extent>, k: int)
    requires
        0 <= k < s.len(),
        s[k].count > 0,
    ensures
        occupied(s).contains(s[k]),
    decreases s.len(),
{
    let front = s.drop_last();
    if k == s.len() - 1 {
        assert(occupied(s).last() == s[k]);
    } else {
        lemma_occupied_is_complete(front, k);
        let i = choose|i: int| 0 <= i < occupied(front).len() && occupied(front)[i] == front[k];
        assert(occupied(s)[i] == s[k]);
    }
}

/// Every extent that holds a block is in the finished map.
pub proof fn lemma_every_extent_is_kept(extents: Seq<Extent>, k: int)
    requires
        finished(extents) is Ok,
        0 <= k < extents.len(),
        extents[k].count > 0,
    ensures
        finished(extents)->Ok_0.contains(extents[k]),
{
    broadcast use vstd::seq_lib::group_to_multiset_ensures;

    lemma_rank_is_ranking::<Extent>();
    lemma_arranged_is_in_order(occupied(extents), rank::<Extent>());
    lemma_occupied_is_complete(extents, k);
    assert(occupied(extents).to_multiset().count(extents[k]) > 0);
}

/// Whether two extents have no logical block in common.
pub open spec fn are_apart(a: Extent, b: Extent) -> bool {
    a.offset + a.count <= b.offset || b.offset + b.count <= a.offset
}

/// Whether no two of `s` have a logical block in common.
pub open spec fn all_apart(s: Seq<Extent>) -> bool {
    forall|i: int, j: int| 0 <= i < j < s.len() ==> are_apart(#[trigger] s[i], #[trigger] s[j])
}

proof fn lemma_placed_apart(s: Seq<Extent>, x: Extent)
    requires
        all_apart(s),
        forall|i: int| 0 <= i < s.len() ==> are_apart(#[trigger] s[i], x),
    ensures
        all_apart(placed(s, x, rank::<Extent>())),
        forall|y: Extent| placed(s, x, rank::<Extent>()).contains(y) ==> y == x || #[trigger] s.contains(y),
    decreases s.len(),
{
    let le = rank::<Extent>();
    let p = placed(s, x, le);
    if s.len() == 0 || le(s.last(), x) {
        assert forall|y: Extent| p.contains(y) implies y == x || #[trigger] s.contains(y) by {
            let k = choose|k: int| 0 <= k < p.len() && p[k] == y;
            if k < s.len() {
                assert(s[k] == y);
            }
        }
    } else {
        let front = s.drop_last();
        let q = placed(front, x, le);
        lemma_placed_apart(front, x);
        assert forall|i: int, j: int| 0 <= i < j < p.len() implies are_apart(#[trigger] p[i], #[trigger] p[j]) by {
            if j == p.len() - 1 {
                assert(q.contains(q[i]));
                if q[i] != x {
                    assert(front.contains(q[i]));
                    let k = choose|k: int| 0 <= k < front.len() && front[k] == q[i];
                    assert(s[k] == q[i]);
                    assert(are_apart(s[k], s[s.len() - 1]));
                } else {
                    assert(are_apart(s[s.len() - 1], x));
                }
            } else {
                assert(are_apart(q[i], q[j]));
            }
        }
        assert forall|y: Extent| p.contains(y) implies y == x || #[trigger] s.contains(y) by {
            let k = choose|k: int| 0 <= k < p.len() && p[k] == y;
            if k < q.len() {
                assert(q.contains(q[k]));
                if y != x {
                    assert(front.contains(y));
                    let m = choose|m: int| 0 <= m < front.len() && front[m] == y;
                    assert(s[m] == y);
                }
            } else {
                assert(s[s.len() - 1] == y);
            }
        }
    }
}

proof fn lemma_arranged_apart(s: Seq<Extent>)
    requires
        all_apart(s),
    ensures
        all_apart(arranged(s, rank::<Extent>())),
        forall|y: Extent| arranged(s, rank::<Extent>()).contains(y) ==> #[trigger] s.contains(y),
    decreases s.len(),
{
    if s.len() > 0 {
        let front = s.drop_last();
        let r = arranged(front, rank::<Extent>());
        assert forall|i: int, j: int| 0 <= i < j < front.len() implies are_apart(
            #[trigger] front[i],
            #[trigger] front[j],
        ) by {
            assert(are_apart(s[i], s[j]));
        }
        lemma_arranged_apart(front);
        assert forall|i: int| 0 <= i < r.len() implies are_apart(#[trigger] r[i], s.last()) by {
            assert(r.contains(r[i]));
            assert(front.contains(r[i]));
            let k = choose|k: int| 0 <= k < front.len() && front[k] == r[i];
            assert(are_apart(s[k], s[s.len() - 1]));
        }
        lemma_placed_apart(r, s.last());
        let p = arranged(s, rank::<Extent>());
        assert forall|y: Extent| p.contains(y) implies #[trigger] s.contains(y) by {
            if y == s.last() {
                assert(s[s.len() - 1] == y);
            } else {
                assert(r.contains(y));
                assert(front.contains(y));
                let k = choose|k: int| 0 <= k < front.len() && front[k] == y;
                assert(s[k] == y);
            }
        }
    }
}

proof fn lemma_occupied_apart(s: Seq<Extent>)
    requires
        forall|i: int, j: int|
            0 <= i < j < s.len() && (#[trigger] s[i]).count > 0 && (#[trigger] s[j]).count > 0 ==> are_apart(s[i], s[j]),
    ensures
        all_apart(occupied(s)),
    decreases s.len(),
{
    if s.len() > 0 {
        let front = s.drop_last();
        assert forall|i: int, j: int|
            0 <= i < j < front.len() && (#[trigger] front[i]).count > 0 && (#[trigger] front[j]).count > 0 implies are_apart(
            front[i],
            front[j],
        ) by {
            assert(are_apart(s[i], s[j]));
        }
        lemma_occupied_apart(front);
        lemma_occupied(front);
        let q = occupied(front);
        let p = occupied(s);
        assert forall|i: int, j: int| 0 <= i < j < p.len() implies are_apart(#[trigger] p[i], #[trigger] p[j]) by {
            if j < q.len() {
                assert(are_apart(q[i], q[j]));
            } else {
                assert(front.contains(q[i]) && q[i].count > 0);
                let k = choose|k: int| 0 <= k < front.len() && front[k] == q[i];
                assert(are_apart(s[k], s[s.len() - 1]));
            }
        }
    }
}

proof fn lemma_apart_do_not_overlap(s: Seq<Extent>, from: int)
    requires
        0 <= from,
        in_order(s, rank::<Extent>()),
        all_apart(s),
        forall|i: int| 0 <= i < s.len() ==> (#[trigger] s[i]).count > 0,
    ensures
        overlap_from(s, from) is None,
    decreases s.len() - from,
{
    if from + 1 < s.len() {
        lemma_apart_do_not_overlap(s, from + 1);
        let le = rank::<Extent>();
        assert(le(s[from], s[from + 1]));
        assert(are_apart(s[from], s[from + 1]));
    }
}

/// Extents that have no block in common make a map, whatever order they come
/// in: only such as overlap are refused.
pub proof fn lemma_apart_extents_are_taken(extents: Seq<Extent>)
    requires
        forall|i: int, j: int|
            0 <= i < j < extents.len() && (#[trigger] extents[i]).count > 0 && (#[trigger] extents[j]).count > 0
                ==> are_apart(extents[i], extents[j]),
    ensures
        finished(extents) is Ok,
{
    lemma_occupied_apart(extents);
    lemma_arranged_apart(occupied(extents));
    lemma_arranged_members(extents);
    lemma_apart_do_not_overlap(arranged(occupied(extents), rank::<Extent>()), 0);
}

} // verus!
