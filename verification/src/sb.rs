//! The superblock: the geometry every other structure is located by.

pub mod incompat;

use vstd::arithmetic::div_mod::lemma_fundamental_div_mod;
use vstd::arithmetic::power2::{lemma2_to64, lemma_pow2_adds, lemma_pow2_strictly_increases, pow2};
use vstd::prelude::*;
use vstd::slice::slice_subrange;
use vstd::string::*;

use crate::arith::{lemma_power_fits, lemma_wrapped_sum, mul_add, power, wrapped};
use crate::bytes::{be16, be16_at, be32, be32_at, be64, be64_at};
use crate::crc;
use crate::error::{around, numbered, Error, Fault, Result};
use crate::text::{lossy, lossy_text, numeral, push_numeral};

verus! {

/// `XFSB`.
pub const MAGIC: u32 = 0x5846_5342;

// Version 4 feature bits, in `versionnum`.
pub const VERSION_DIRV2: u16 = 0x2000;

pub const VERSION_MOREBITS: u16 = 0x8000;

// Version 4 `features2` bits.
pub const FEATURES2_FTYPE: u32 = 0x200;

pub const FEATURES2_CRC: u32 = 0x100;

/// The parts of the primary superblock a reader needs.
#[derive(Debug, Clone)]
pub struct Superblock {
    /// Filesystem block size in bytes.
    pub block_size: u32,
    /// Blocks on the data device.
    pub data_blocks: u64,
    /// Filesystem UUID.
    pub uuid: [u8; 16],
    /// The root directory's inode.
    pub root_ino: u64,
    /// Blocks in each allocation group.
    pub ag_blocks: u32,
    /// Allocation groups.
    pub ag_count: u32,
    /// Format version: 4 or 5.
    pub version: u8,
    /// Sector size in bytes.
    pub sector_size: u16,
    /// Inode size in bytes.
    pub inode_size: u16,
    /// Inodes per block.
    pub inodes_per_block: u16,
    /// Volume label.
    pub label: String,
    /// log2 of the block size.
    pub block_log: u8,
    /// log2 of inodes per block.
    pub inopb_log: u8,
    /// log2 of blocks per AG, rounded up.
    pub agblk_log: u8,
    /// Inodes allocated.
    pub icount: u64,
    /// Inodes free.
    pub ifree: u64,
    /// Data blocks free.
    pub free_blocks: u64,
    /// log2 of directory blocks per directory block.
    pub dirblk_log: u8,
    /// Version 4 `features2`.
    pub features2: u32,
    /// Compatible features (v5).
    pub features_compat: u32,
    /// Read-only-compatible features (v5).
    pub features_ro_compat: u32,
    /// Incompatible features (v5).
    pub features_incompat: u32,
}

/// `b` without the zero bytes at its end.
pub open spec fn trimmed(b: Seq<u8>) -> Seq<u8>
    decreases b.len(),
{
    if b.len() > 0 && b.last() == 0 {
        trimmed(b.drop_last())
    } else {
        b
    }
}

/// The format version a superblock records.
pub open spec fn version_at(buf: Seq<u8>) -> u8 {
    (be16_at(buf, 100) & 0xf) as u8
}

/// The version 4 feature word a superblock records.
pub open spec fn features2_at(buf: Seq<u8>) -> u32 {
    if be16_at(buf, 100) & VERSION_MOREBITS != 0 {
        be32_at(buf, 200)
    } else {
        0
    }
}

/// Whether a geometry is one that blocks and inodes can be located by.
pub open spec fn geometry_is_sound(
    block_size: u32,
    block_log: u8,
    inode_size: u16,
    inodes_per_block: u16,
    inopb_log: u8,
    ag_count: u32,
    ag_blocks: u32,
    agblk_log: u8,
    dirblk_log: u8,
) -> bool {
    &&& 512 <= block_size <= 65536
    &&& block_log < 32
    &&& block_size == pow2(block_log as nat)
    &&& 256 <= inode_size <= 2048
    &&& inodes_per_block * inode_size == block_size
    &&& inopb_log < 32
    &&& inodes_per_block == pow2(inopb_log as nat)
    &&& ag_count > 0
    &&& ag_blocks > 0
    &&& agblk_log <= 31
    &&& ag_blocks <= pow2(agblk_log as nat)
    &&& dir_blocks_fit(block_size, dirblk_log)
}

/// Whether directory blocks are at most 64 KiB.
#[verifier::opaque]
pub open spec fn dir_blocks_fit(block_size: u32, dirblk_log: u8) -> bool {
    block_size * pow2(dirblk_log as nat) <= 65536
}

/// Why the version, features and checksum of a superblock are refused, if
/// they are.
pub open spec fn version_refusal(buf: Seq<u8>) -> Option<Fault> {
    if version_at(buf) == 4 {
        if be16_at(buf, 100) & VERSION_DIRV2 == 0 {
            Some(Fault::Unsupported("version 1 directories"@))
        } else if features2_at(buf) & FEATURES2_CRC != 0 {
            Some(Fault::Corrupt("v4 superblock with the CRC feature"@))
        } else {
            None
        }
    } else if version_at(buf) == 5 {
        let sect = be16_at(buf, 102) as int;
        let features = be32_at(buf, 216);
        if buf.len() < sect {
            Some(Fault::Corrupt("superblock buffer shorter than a sector"@))
        } else if !crc::is_sealed(buf.subrange(0, sect), 224) {
            Some(Fault::Corrupt("superblock checksum"@))
        } else if features & !incompat::KNOWN != 0 {
            Some(
                Fault::Unsupported(
                    "incompatible features 0x"@ + numeral((features & !incompat::KNOWN) as nat, 16),
                ),
            )
        } else if features & incompat::NEEDSREPAIR != 0 {
            Some(Fault::Unsupported("the filesystem needs xfs_repair"@))
        } else {
            None
        }
    } else {
        Some(Fault::Unsupported(around("superblock version "@, version_at(buf) as nat, ""@)))
    }
}

/// Why the bytes at the start of a device are refused as a superblock, if
/// they are.
pub open spec fn refusal(buf: Seq<u8>) -> Option<Fault> {
    if buf.len() < 512 {
        Some(Fault::NotXfs("fewer than 512 bytes"@))
    } else if be32_at(buf, 0) != MAGIC {
        Some(Fault::NotXfs("no XFSB magic at byte 0"@))
    } else if version_refusal(buf) is Some {
        version_refusal(buf)
    } else if !geometry_is_sound(
        be32_at(buf, 4),
        buf[120],
        be16_at(buf, 104),
        be16_at(buf, 106),
        buf[123],
        be32_at(buf, 88),
        be32_at(buf, 84),
        buf[124],
        buf[192],
    ) {
        Some(Fault::Corrupt("superblock geometry"@))
    } else {
        None
    }
}

/// `b` without the zero bytes at its end.
fn trim(b: &[u8]) -> (r: &[u8])
    ensures
        r@ == trimmed(b@),
{
    let mut n: usize = b.len();
    assert(b@.subrange(0, n as int) =~= b@);
    while n > 0 && b[n - 1] == 0
        invariant
            n <= b@.len(),
            trimmed(b@) == trimmed(b@.subrange(0, n as int)),
        decreases n,
    {
        assert(b@.subrange(0, n as int).drop_last() =~= b@.subrange(0, n - 1));
        n -= 1;
    }
    slice_subrange(b, 0, n)
}

impl Superblock {
    /// Whether the geometry is one that blocks and inodes can be located by.
    pub open spec fn wf(self) -> bool {
        &&& self.version == 4 || self.version == 5
        &&& geometry_is_sound(
            self.block_size,
            self.block_log,
            self.inode_size,
            self.inodes_per_block,
            self.inopb_log,
            self.ag_count,
            self.ag_blocks,
            self.agblk_log,
            self.dirblk_log,
        )
    }

    /// Whether this is what the superblock in `buf` records.
    pub open spec fn records(self, buf: Seq<u8>) -> bool {
        &&& self.block_size == be32_at(buf, 4)
        &&& self.data_blocks == be64_at(buf, 8)
        &&& self.uuid@ == buf.subrange(32, 48)
        &&& self.root_ino == be64_at(buf, 56)
        &&& self.ag_blocks == be32_at(buf, 84)
        &&& self.ag_count == be32_at(buf, 88)
        &&& self.version == version_at(buf)
        &&& self.sector_size == be16_at(buf, 102)
        &&& self.inode_size == be16_at(buf, 104)
        &&& self.inodes_per_block == be16_at(buf, 106)
        &&& self.label@ == lossy_text(trimmed(buf.subrange(108, 120)))
        &&& self.block_log == buf[120]
        &&& self.inopb_log == buf[123]
        &&& self.agblk_log == buf[124]
        &&& self.icount == be64_at(buf, 128)
        &&& self.ifree == be64_at(buf, 136)
        &&& self.free_blocks == be64_at(buf, 144)
        &&& self.dirblk_log == buf[192]
        &&& self.features2 == features2_at(buf)
        &&& self.features_compat == if self.version == 5 {
            be32_at(buf, 208)
        } else {
            0
        }
        &&& self.features_ro_compat == if self.version == 5 {
            be32_at(buf, 212)
        } else {
            0
        }
        &&& self.features_incompat == if self.version == 5 {
            be32_at(buf, 216)
        } else {
            0
        }
    }

    /// The parts of the superblock in `buf`, none of them checked.
    fn fields(buf: &[u8]) -> (sb: Superblock)
        requires
            512 <= buf@.len(),
        ensures
            sb.records(buf@),
    {
        let versionnum: u16 = be16(buf, 100);
        let version: u8 = (versionnum & 0xf) as u8;
        let name = slice_subrange(buf, 108, 120);
        let uuid: [u8; 16] = [
            buf[32], buf[33], buf[34], buf[35], buf[36], buf[37], buf[38], buf[39], buf[40], buf[41],
            buf[42], buf[43], buf[44], buf[45], buf[46], buf[47],
        ];
        assert(uuid@ =~= buf@.subrange(32, 48));
        Superblock {
            block_size: be32(buf, 4),
            data_blocks: be64(buf, 8),
            uuid,
            root_ino: be64(buf, 56),
            ag_blocks: be32(buf, 84),
            ag_count: be32(buf, 88),
            version,
            sector_size: be16(buf, 102),
            inode_size: be16(buf, 104),
            inodes_per_block: be16(buf, 106),
            label: lossy(trim(name)),
            block_log: buf[120],
            inopb_log: buf[123],
            agblk_log: buf[124],
            icount: be64(buf, 128),
            ifree: be64(buf, 136),
            free_blocks: be64(buf, 144),
            dirblk_log: buf[192],
            features2: if versionnum & VERSION_MOREBITS != 0 {
                be32(buf, 200)
            } else {
                0
            },
            features_compat: if version == 5 {
                be32(buf, 208)
            } else {
                0
            },
            features_ro_compat: if version == 5 {
                be32(buf, 212)
            } else {
                0
            },
            features_incompat: if version == 5 {
                be32(buf, 216)
            } else {
                0
            },
        }
    }

    /// Whether the geometry is one that blocks and inodes can be located by.
    fn check_geometry(&self) -> (r: bool)
        ensures
            r == geometry_is_sound(
                self.block_size,
                self.block_log,
                self.inode_size,
                self.inodes_per_block,
                self.inopb_log,
                self.ag_count,
                self.ag_blocks,
                self.agblk_log,
                self.dirblk_log,
            ),
    {
        let bs: u32 = self.block_size;
        if bs < 512 || bs > 65536 || self.block_log >= 32 || power(self.block_log) != bs as u64 {
            return false;
        }
        if self.inode_size < 256 || self.inode_size > 2048 {
            return false;
        }
        assert(self.inodes_per_block * self.inode_size <= 0xffff * 2048) by (nonlinear_arith)
            requires
                self.inodes_per_block <= 0xffff,
                self.inode_size <= 2048,
        ;
        if self.inodes_per_block as u32 * self.inode_size as u32 != bs {
            return false;
        }
        if self.inopb_log >= 32 || power(self.inopb_log) != self.inodes_per_block as u64 {
            return false;
        }
        if self.ag_count == 0 || self.ag_blocks == 0 || self.agblk_log > 31 {
            return false;
        }
        if self.ag_blocks as u64 > power(self.agblk_log) {
            return false;
        }
        proof {
            reveal(dir_blocks_fit);
            lemma_dir_block_log(bs, self.dirblk_log);
        }
        if self.dirblk_log > MAX_DIRBLK_LOG {
            return false;
        }
        bs as u64 * power(self.dirblk_log) <= 65536
    }

    /// Parse and check the primary superblock from the start of a device.
    ///
    /// `buf` must hold at least one sector (512 bytes); the checksum of a v5
    /// superblock covers its whole sector, so a v5 check needs that many.
    pub fn parse(buf: &[u8]) -> (r: Result<Self>)
        ensures
            match r {
                Ok(sb) => refusal(buf@) is None && sb.records(buf@) && sb.wf(),
                Err(e) => refusal(buf@) == Some(e@),
            },
    {
        if buf.len() < 512 {
            return Err(Error::NotXfs(String::from_str("fewer than 512 bytes")));
        }
        if be32(buf, 0) != MAGIC {
            return Err(Error::NotXfs(String::from_str("no XFSB magic at byte 0")));
        }
        let versionnum: u16 = be16(buf, 100);
        let sb = Superblock::fields(buf);
        if sb.version == 4 {
            if versionnum & VERSION_DIRV2 == 0 {
                return Err(Error::Unsupported(String::from_str("version 1 directories")));
            }
            if sb.features2 & FEATURES2_CRC != 0 {
                return Err(Error::Corrupt(String::from_str("v4 superblock with the CRC feature")));
            }
        } else if sb.version == 5 {
            let sect: usize = sb.sector_size as usize;
            if buf.len() < sect {
                return Err(Error::Corrupt(String::from_str("superblock buffer shorter than a sector")));
            }
            if !crc::verify(slice_subrange(buf, 0, sect), 224) {
                return Err(Error::Corrupt(String::from_str("superblock checksum")));
            }
            let unknown: u32 = sb.features_incompat & !incompat::KNOWN;
            if unknown != 0 {
                let mut what = String::from_str("incompatible features 0x");
                push_numeral(&mut what, unknown as u128, 16);
                return Err(Error::Unsupported(what));
            }
            if sb.features_incompat & incompat::NEEDSREPAIR != 0 {
                return Err(Error::Unsupported(String::from_str("the filesystem needs xfs_repair")));
            }
        } else {
            return Err(Error::Unsupported(numbered("superblock version ", sb.version as u64, "")));
        }
        if !sb.check_geometry() {
            return Err(Error::Corrupt(String::from_str("superblock geometry")));
        }
        Ok(sb)
    }

    /// Whether this is a v5 (CRC) filesystem.
    pub open spec fn spec_is_v5(self) -> bool {
        self.version == 5
    }

    /// Whether this is a v5 (CRC) filesystem.
    pub fn is_v5(&self) -> (r: bool)
        ensures
            r == self.spec_is_v5(),
    {
        self.version == 5
    }

    /// Whether directory entries carry the file type.
    pub open spec fn spec_has_ftype(self) -> bool {
        if self.spec_is_v5() {
            self.features_incompat & incompat::FTYPE != 0
        } else {
            self.features2 & FEATURES2_FTYPE != 0
        }
    }

    /// Whether directory entries carry the file type.
    pub fn has_ftype(&self) -> (r: bool)
        ensures
            r == self.spec_has_ftype(),
    {
        if self.is_v5() {
            self.features_incompat & incompat::FTYPE != 0
        } else {
            self.features2 & FEATURES2_FTYPE != 0
        }
    }

    /// Whether directories carry parent pointers as attributes.
    pub fn has_parent(&self) -> (r: bool)
        ensures
            r == (self.features_incompat & incompat::PARENT != 0),
    {
        self.features_incompat & incompat::PARENT != 0
    }

    /// Whether extent counters may be 64 bits wide.
    pub fn has_nrext64(&self) -> (r: bool)
        ensures
            r == (self.features_incompat & incompat::NREXT64 != 0),
    {
        self.features_incompat & incompat::NREXT64 != 0
    }

    /// Directory block size in bytes.
    pub fn dir_block_size(&self) -> (r: u32)
        requires
            self.dirblk_log < 32,
        ensures
            r == self.block_size << self.dirblk_log,
            self.wf() ==> r == self.block_size * pow2(self.dirblk_log as nat) && self.block_size <= r <= 65536,
    {
        proof {
            if self.wf() {
                self.lemma_dir_block_size();
                vstd::bits::lemma_u32_shl_is_mul(self.block_size, self.dirblk_log as u32);
            }
        }
        self.block_size << self.dirblk_log
    }

    /// A directory block is at least a block and at most 64 KiB.
    pub proof fn lemma_dir_block_size(self)
        requires
            self.wf(),
        ensures
            self.dirblk_log <= MAX_DIRBLK_LOG,
            self.block_size <= self.block_size * pow2(self.dirblk_log as nat) <= 65536,
    {
        reveal(dir_blocks_fit);
        let bs = self.block_size;
        let p = pow2(self.dirblk_log as nat);
        lemma_dir_block_log(bs, self.dirblk_log);
        lemma_power_fits(self.dirblk_log as nat);
        assert(bs <= bs * p) by (nonlinear_arith)
            requires
                1 <= p,
        ;
    }

    /// Where block `fsbno` is on the device.
    ///
    /// XFS block numbers are not linear: the AG number sits above bit
    /// `agblk_log`, and an AG is `ag_blocks` long, not `1 << agblk_log`.
    pub open spec fn block_byte(self, fsbno: u64) -> core::result::Result<u64, Fault> {
        let ag_span = pow2(self.agblk_log as nat) as int;
        let agno = fsbno as int / ag_span;
        let agbno = fsbno as int % ag_span;
        if agno >= self.ag_count || agbno >= self.ag_blocks {
            Err(Fault::Corrupt(around("block "@, fsbno as nat, " outside the filesystem"@)))
        } else {
            Ok(wrapped((agno * self.ag_blocks + agbno) * pow2(self.block_log as nat)))
        }
    }

    /// Byte offset on the device of filesystem block `fsbno`.
    pub fn fsb_to_byte(&self, fsbno: u64) -> (r: Result<u64>)
        requires
            self.agblk_log < 64,
            self.block_log < 64,
        ensures
            crate::error::outcome(r) == self.block_byte(fsbno),
    {
        let ag_span: u64 = power(self.agblk_log);
        let agno: u64 = fsbno / ag_span;
        let agbno: u64 = fsbno % ag_span;
        if agno >= self.ag_count as u64 || agbno >= self.ag_blocks as u64 {
            return Err(Error::Corrupt(numbered("block ", fsbno, " outside the filesystem")));
        }
        let ag_blocks: u64 = self.ag_blocks as u64;
        proof {
            lemma_block_counts(agno, ag_blocks);
        }
        Ok(mul_add(agno * ag_blocks + agbno, power(self.block_log), 0))
    }

    /// Where inode `ino` is on the device: an AG number, the block in the AG
    /// and the place in the block, packed from the top bit down.
    pub open spec fn inode_byte(self, ino: u64) -> core::result::Result<u64, Fault> {
        let per_block = pow2(self.inopb_log as nat) as int;
        let ag_span = pow2(self.agblk_log as nat) as int;
        let agno = ino as int / per_block / ag_span;
        let agbno = ino as int / per_block % ag_span;
        let index = ino as int % per_block;
        if ino == 0 || agno >= self.ag_count || agbno >= self.ag_blocks {
            Err(Fault::Corrupt(around("inode "@, ino as nat, " outside the filesystem"@)))
        } else {
            Ok(wrapped((agno * self.ag_blocks + agbno) * pow2(self.block_log as nat) + index * self.inode_size))
        }
    }

    /// Byte offset on the device of inode `ino`.
    pub fn ino_to_byte(&self, ino: u64) -> (r: Result<u64>)
        requires
            self.agblk_log + self.inopb_log < 64,
            self.block_log < 64,
        ensures
            crate::error::outcome(r) == self.inode_byte(ino),
    {
        let per_block: u64 = power(self.inopb_log);
        let ag_span: u64 = power(self.agblk_log);
        let agno: u64 = ino / per_block / ag_span;
        let agbno: u64 = ino / per_block % ag_span;
        let index: u64 = ino % per_block;
        if ino == 0 || agno >= self.ag_count as u64 || agbno >= self.ag_blocks as u64 {
            return Err(Error::Corrupt(numbered("inode ", ino, " outside the filesystem")));
        }
        let ag_blocks: u64 = self.ag_blocks as u64;
        let size: u64 = self.inode_size as u64;
        proof {
            lemma_block_counts(agno, ag_blocks);
        }
        let block: u64 = mul_add(agno * ag_blocks + agbno, power(self.block_log), 0);
        proof {
            let whole = (agno * ag_blocks + agbno) * pow2(self.block_log as nat);
            assert(0 <= whole && 0 <= index * size) by (nonlinear_arith)
                requires
                    whole == (agno * ag_blocks + agbno) * pow2(self.block_log as nat),
                    0 <= agno * ag_blocks + agbno,
                    0 <= pow2(self.block_log as nat),
                    0 <= index,
                    0 <= size,
            ;
            lemma_wrapped_sum(whole, index * size);
        }
        Ok(mul_add(index, size, block))
    }
}

/// The largest directory block log that the smallest block leaves room for.
pub const MAX_DIRBLK_LOG: u8 = 7;

/// A directory block of at most 64 KiB is no more blocks of at least 512 bytes
/// than its log can say in few bits.
proof fn lemma_dir_block_log(block_size: u32, dirblk_log: u8)
    requires
        512 <= block_size <= 65536,
    ensures
        dirblk_log > MAX_DIRBLK_LOG ==> block_size * pow2(dirblk_log as nat) > 65536,
        dirblk_log <= MAX_DIRBLK_LOG ==> block_size * pow2(dirblk_log as nat) <= 65536 * 128,
{
    let bs = block_size as int;
    let p = pow2(dirblk_log as nat) as int;
    lemma2_to64();
    if dirblk_log > MAX_DIRBLK_LOG {
        if dirblk_log > 8 {
            lemma_pow2_strictly_increases(8, dirblk_log as nat);
        }
        assert(bs * p > 65536) by (nonlinear_arith)
            requires
                bs >= 512,
                p >= 256,
        ;
    } else {
        if dirblk_log < MAX_DIRBLK_LOG {
            lemma_pow2_strictly_increases(dirblk_log as nat, 7);
        }
        assert(bs * p <= 65536 * 128) by (nonlinear_arith)
            requires
                0 <= bs <= 65536,
                0 <= p <= 128,
        ;
    }
}

/// Blocks in allocation groups, counted from the start of the filesystem, are
/// few enough for 64 bits.
proof fn lemma_block_counts(agno: u64, ag_blocks: u64)
    requires
        agno <= 0xffff_ffff,
        ag_blocks <= 0xffff_ffff,
    ensures
        0 <= agno * ag_blocks <= 0xffff_ffff * 0xffff_ffff,
{
    assert(0 <= agno * ag_blocks <= 0xffff_ffff * 0xffff_ffff) by (nonlinear_arith)
        requires
            0 <= agno <= 0xffff_ffff,
            0 <= ag_blocks <= 0xffff_ffff,
    ;
}

/// The bytes of an inode are a power of two many.
pub proof fn lemma_inode_size_is_power(sb: Superblock)
    requires
        sb.wf(),
    ensures
        sb.inopb_log <= sb.block_log,
        sb.inode_size == pow2((sb.block_log - sb.inopb_log) as nat),
{
    let n = sb.inodes_per_block as int;
    let size = sb.inode_size as int;
    if sb.inopb_log > sb.block_log {
        lemma_pow2_strictly_increases(sb.block_log as nat, sb.inopb_log as nat);
        assert(n * size >= n) by (nonlinear_arith)
            requires
                n >= 0,
                size >= 1,
        ;
    }
    let p = pow2((sb.block_log - sb.inopb_log) as nat) as int;
    lemma_power_fits(sb.inopb_log as nat);
    lemma_pow2_adds(sb.inopb_log as nat, (sb.block_log - sb.inopb_log) as nat);
    assert(size == p) by (nonlinear_arith)
        requires
            n * size == n * p,
            n > 0,
    ;
}

/// Blocks that follow each other in an allocation group follow each other on
/// the device.
pub proof fn lemma_blocks_run_on(sb: Superblock, fsbno: u64, k: nat)
    requires
        sb.wf(),
        fsbno as int / (pow2(sb.agblk_log as nat) as int) < sb.ag_count,
        fsbno as int % (pow2(sb.agblk_log as nat) as int) + k < sb.ag_blocks,
        fsbno + k <= u64::MAX,
    ensures
        sb.block_byte(fsbno) is Ok,
        sb.block_byte((fsbno + k) as u64) is Ok,
        sb.block_byte((fsbno + k) as u64)->Ok_0 == wrapped(sb.block_byte(fsbno)->Ok_0 + k * sb.block_size),
{
    let span = pow2(sb.agblk_log as nat) as int;
    let agno = fsbno as int / span;
    let agbno = fsbno as int % span;
    lemma_power_fits(sb.agblk_log as nat);
    lemma_fundamental_div_mod(fsbno as int, span);
    vstd::arithmetic::div_mod::lemma_fundamental_div_mod_converse(
        fsbno + k,
        span,
        agno,
        agbno + k,
    );
    let n = agno * sb.ag_blocks + agbno;
    let bs = sb.block_size as int;
    let w = crate::arith::WRAP as int;
    assert((n + k) * bs == n * bs + k * bs) by (nonlinear_arith);
    assert(agno * sb.ag_blocks + (agbno + k) == n + k);
    assert(0 <= agno) by (nonlinear_arith)
        requires
            agno == fsbno as int / span,
            span > 0,
            fsbno >= 0,
    ;
    assert(0 <= n * bs) by (nonlinear_arith)
        requires
            n == agno * sb.ag_blocks + agbno,
            agno >= 0,
            agbno >= 0,
            bs >= 0,
            sb.ag_blocks >= 0,
    ;
    vstd::arithmetic::div_mod::lemma_add_mod_noop(n * bs, k * bs, w);
    vstd::arithmetic::div_mod::lemma_add_mod_noop(n * bs % w, k * bs, w);
    vstd::arithmetic::div_mod::lemma_mod_twice(n * bs, w);
    assert(k * bs >= 0) by (nonlinear_arith)
        requires
            k >= 0,
            bs >= 0,
    ;
}

/// On a filesystem whose bytes 64 bits can count, no two blocks share a place
/// on the device.
pub proof fn lemma_blocks_do_not_collide(sb: Superblock, a: u64, b: u64)
    requires
        sb.wf(),
        sb.ag_count * sb.ag_blocks * sb.block_size <= crate::arith::WRAP,
        sb.block_byte(a) is Ok,
        sb.block_byte(b) == sb.block_byte(a),
    ensures
        a == b,
{
    let span = pow2(sb.agblk_log as nat) as int;
    let bs = sb.block_size as int;
    let per = sb.ag_blocks as int;
    lemma_power_fits(sb.agblk_log as nat);
    let (ag_a, in_a) = (a as int / span, a as int % span);
    let (ag_b, in_b) = (b as int / span, b as int % span);
    lemma_fundamental_div_mod(a as int, span);
    lemma_fundamental_div_mod(b as int, span);
    let na = ag_a * per + in_a;
    let nb = ag_b * per + in_b;
    lemma_block_is_inside(sb, ag_a, in_a);
    lemma_block_is_inside(sb, ag_b, in_b);
    vstd::arithmetic::div_mod::lemma_small_mod((na * bs) as nat, crate::arith::WRAP as nat);
    vstd::arithmetic::div_mod::lemma_small_mod((nb * bs) as nat, crate::arith::WRAP as nat);
    assert(na == nb) by (nonlinear_arith)
        requires
            na * bs == nb * bs,
            bs > 0,
    ;
    vstd::arithmetic::div_mod::lemma_fundamental_div_mod_converse(na, per, ag_a, in_a);
    vstd::arithmetic::div_mod::lemma_fundamental_div_mod_converse(nb, per, ag_b, in_b);
}

proof fn lemma_block_is_inside(sb: Superblock, agno: int, agbno: int)
    requires
        sb.wf(),
        0 <= agbno < sb.ag_blocks,
        agno < sb.ag_count,
        sb.ag_count * sb.ag_blocks * sb.block_size <= crate::arith::WRAP,
        0 <= agno,
    ensures
        0 <= (agno * sb.ag_blocks + agbno) * sb.block_size < crate::arith::WRAP,
{
    let per = sb.ag_blocks as int;
    let bs = sb.block_size as int;
    let count = sb.ag_count as int;
    assert(agno * per + agbno < count * per) by (nonlinear_arith)
        requires
            agno + 1 <= count,
            agbno < per,
            per > 0,
    ;
    assert(0 <= agno * per + agbno) by (nonlinear_arith)
        requires
            0 <= agno,
            0 <= agbno,
            0 <= per,
    ;
    assert(0 <= (agno * per + agbno) * bs < count * per * bs) by (nonlinear_arith)
        requires
            0 <= agno * per + agbno < count * per,
            bs > 0,
    ;
}

} // verus!
