//! Inodes as written: what each field's bytes are, and which inodes are good.

use vstd::prelude::*;

use crate::bytes::{be16_at, be32_at, be64_at};
use crate::crc;
use crate::error::Fault;
use crate::inode::{
    core_len, format_of, inode_fields, inode_of, inode_refusal, time_at, Format, InodeView, Timestamp,
    DIFLAG2_BIGTIME, DIFLAG2_NREXT64,
};
use crate::layout::{be16_bytes, be32_bytes, be64_bytes, lemma_be16, lemma_be16_read, lemma_be32, lemma_be32_read, lemma_be64, lemma_be64_read};
use crate::sb::Superblock;

verus! {

/// The byte a format is written as.
pub open spec fn format_byte(f: Format) -> u8 {
    match f {
        Format::Dev => 0,
        Format::Local => 1,
        Format::Extents => 2,
        Format::Btree => 3,
    }
}

/// Whether an inode's times count nanoseconds, which its fourth flag says.
pub open spec fn has_bigtime(v: InodeView) -> bool {
    v.flags2 as int / 8 % 2 == 1
}

/// Whether an inode's extent counters are wide, which its fifth flag says.
pub open spec fn has_wide_counters(v: InodeView) -> bool {
    v.flags2 as int / 16 % 2 == 1
}

/// Whether eight bytes hold a time: nanoseconds since 2^31 seconds before the
/// epoch, or else seconds and nanoseconds, the seconds in two's complement.
pub open spec fn holds_time(b: Seq<u8>, t: Timestamp, bigtime: bool) -> bool {
    if bigtime {
        let count = (t.secs + 0x8000_0000) * 1_000_000_000 + t.nsecs;
        &&& t.nsecs < 1_000_000_000
        &&& 0 <= count <= u64::MAX
        &&& b == be64_bytes(count as u64)
    } else {
        &&& -0x8000_0000 <= t.secs < 0x8000_0000
        &&& b == be32_bytes((t.secs as int % 0x1_0000_0000) as u32) + be32_bytes(t.nsecs)
    }
}

/// Whether `b`, the bytes of an inode, hold the fields that every inode has.
pub open spec fn holds_core(b: Seq<u8>, v: InodeView) -> bool {
    &&& b.subrange(0, 2) == seq![0x49u8, 0x4eu8]
    &&& b.subrange(2, 4) == be16_bytes(v.mode)
    &&& b[4] == v.version
    &&& b[5] == format_byte(v.format)
    &&& v.version == 1 ==> v.nlink < 0x1_0000 && b.subrange(6, 8) == be16_bytes(v.nlink as u16) && v.projid == 0
    &&& b.subrange(8, 12) == be32_bytes(v.uid)
    &&& b.subrange(12, 16) == be32_bytes(v.gid)
    &&& v.version != 1 ==> b.subrange(16, 20) == be32_bytes(v.nlink)
    &&& v.version != 1 ==> b.subrange(20, 22) == be16_bytes((v.projid % 0x1_0000) as u16)
    &&& v.version != 1 ==> b.subrange(22, 24) == be16_bytes((v.projid / 0x1_0000) as u16)
    &&& b.subrange(56, 64) == be64_bytes(v.size)
    &&& b.subrange(64, 72) == be64_bytes(v.nblocks)
    &&& b.subrange(90, 92) == be16_bytes(v.flags)
    &&& b.subrange(92, 96) == be32_bytes(v.generation)
}

/// Whether `b` holds the times of an inode's last access, last change of
/// content and last change of any kind.
pub open spec fn holds_times(b: Seq<u8>, v: InodeView) -> bool {
    &&& holds_time(b.subrange(32, 40), v.atime, has_bigtime(v))
    &&& holds_time(b.subrange(40, 48), v.mtime, has_bigtime(v))
    &&& holds_time(b.subrange(48, 56), v.ctime, has_bigtime(v))
}

/// Whether `b` holds an inode's extent counters: narrow ones at their own
/// places, wide ones in room that narrow ones leave.
pub open spec fn holds_counters(b: Seq<u8>, v: InodeView) -> bool {
    if has_wide_counters(v) {
        &&& b.subrange(24, 32) == be64_bytes(v.nextents)
        &&& b.subrange(76, 80) == be32_bytes(v.anextents)
    } else {
        &&& v.nextents <= u32::MAX
        &&& b.subrange(76, 80) == be32_bytes(v.nextents as u32)
        &&& v.anextents <= u16::MAX
        &&& b.subrange(80, 82) == be16_bytes(v.anextents as u16)
    }
}

/// Whether `b` holds the fields that only version 3 inodes have. Others have
/// no second flags and no time of creation.
pub open spec fn holds_extras(b: Seq<u8>, v: InodeView) -> bool {
    if v.version == 3 {
        &&& crc::is_sealed(b, 100)
        &&& b.subrange(120, 128) == be64_bytes(v.flags2)
        &&& v.crtime is Some
        &&& holds_time(b.subrange(144, 152), v.crtime->Some_0, has_bigtime(v))
        &&& b.subrange(152, 160) == be64_bytes(v.ino)
    } else {
        v.flags2 == 0 && v.crtime is None
    }
}

/// Whether `b` holds an inode's forks: both of them after the core, the data
/// fork first, with its length in eights and the other's format where there
/// is another.
pub open spec fn holds_forks(b: Seq<u8>, v: InodeView) -> bool {
    let core: int = if v.version == 3 {
        176
    } else {
        100
    };
    &&& b.subrange(core, b.len() as int) == v.data_fork + v.attr_fork
    &&& match v.aformat {
        None => b[82] == 0 && v.attr_fork.len() == 0,
        Some(f) => {
            &&& b[82] > 0
            &&& b[82] * 8 == v.data_fork.len()
            &&& b[83] == format_byte(f)
            &&& v.attr_fork.len() > 0
        },
    }
}

/// Whether `b` is the inode `v`, written.
pub open spec fn holds_inode(b: Seq<u8>, v: InodeView) -> bool {
    holds_core(b, v) && holds_times(b, v) && holds_counters(b, v) && holds_extras(b, v) && holds_forks(b, v)
}

proof fn lemma_flags(flags2: u64)
    ensures
        (flags2 & DIFLAG2_BIGTIME != 0) == (flags2 as int / 8 % 2 == 1),
        (flags2 & DIFLAG2_NREXT64 != 0) == (flags2 as int / 16 % 2 == 1),
{
    assert((flags2 & 0x8 != 0) == (flags2 / 8 % 2 == 1)) by (bit_vector);
    assert((flags2 & 0x10 != 0) == (flags2 / 16 % 2 == 1)) by (bit_vector);
}

/// A time that is read is the bytes it is written as, and the only one that is.
proof fn lemma_time(b: Seq<u8>, o: int, bigtime: bool)
    requires
        0 <= o,
        o + 8 <= b.len(),
    ensures
        holds_time(b.subrange(o, o + 8), time_at(b, o, bigtime), bigtime),
        forall|t: Timestamp| #[trigger] holds_time(b.subrange(o, o + 8), t, bigtime) ==> time_at(b, o, bigtime) == t,
{
    let s = b.subrange(o, o + 8);
    lemma_be64(b, o);
    lemma_be32(b, o);
    lemma_be32(b, o + 4);
    assert(s =~= b.subrange(o, o + 4) + b.subrange(o + 4, o + 8));
    let at = time_at(b, o, bigtime);
    if bigtime {
        assert((at.secs + 0x8000_0000) * 1_000_000_000 + at.nsecs == be64_at(b, o));
    } else {
        assert((at.secs as int % 0x1_0000_0000) as u32 == be32_at(b, o));
    }
    assert(holds_time(s, at, bigtime));
    assert forall|t: Timestamp| #[trigger] holds_time(s, t, bigtime) implies time_at(b, o, bigtime) == t by {
        if bigtime {
            let count = (t.secs + 0x8000_0000) * 1_000_000_000 + t.nsecs;
            assert(be64_at(b, o) == count as u64);
        } else {
            let secs = (t.secs as int % 0x1_0000_0000) as u32;
            let w = be32_bytes(secs) + be32_bytes(t.nsecs);
            assert(b.subrange(o, o + 4) =~= w.subrange(0, 4));
            assert(b.subrange(o + 4, o + 8) =~= w.subrange(4, 8));
            assert(w.subrange(0, 4) =~= be32_bytes(secs));
            assert(w.subrange(4, 8) =~= be32_bytes(t.nsecs));
        }
    }
}

/// What is read of an inode is what is written there: putting every field back
/// at its place gives the inode's bytes.
pub proof fn lemma_inode_is_as_written(sb: Superblock, ino: u64, buf: Seq<u8>)
    requires
        256 <= sb.inode_size,
        inode_of(sb, ino, buf) is Ok,
    ensures
        holds_inode(buf.subrange(0, sb.inode_size as int), inode_of(sb, ino, buf)->Ok_0),
        inode_of(sb, ino, buf)->Ok_0.ino == ino,
        sb.version == 5 <==> inode_of(sb, ino, buf)->Ok_0.version == 3,
        1 <= inode_of(sb, ino, buf)->Ok_0.version <= 3,
{
    let b = buf.subrange(0, sb.inode_size as int);
    lemma_core(sb, ino, b);
    lemma_times(sb, ino, b);
    lemma_counters(sb, ino, b);
    lemma_extras(sb, ino, b);
    let v = inode_fields(sb, ino, b);
    let core = core_len(sb, v.version);
    assert(b.subrange(core, b.len() as int) =~= v.data_fork + v.attr_fork);
}

#[verifier::rlimit(40)]
proof fn lemma_core(sb: Superblock, ino: u64, b: Seq<u8>)
    requires
        256 <= b.len(),
        inode_refusal(sb, ino, b) is None,
    ensures
        holds_core(b, inode_fields(sb, ino, b)),
{
    let v = inode_fields(sb, ino, b);
    lemma_start(b);
    lemma_project(b);
    lemma_be16_read(b, 6);
    lemma_be32_read(b, 16);
    assert(b[5] == format_byte(v.format));
    lemma_owner_and_size(b);
    assert(v.version != 1 ==> v.projid == (be16_at(b, 22) * 0x1_0000 + be16_at(b, 20)) as u32);
}

proof fn lemma_start(b: Seq<u8>)
    requires
        256 <= b.len(),
        be16_at(b, 0) == 0x494e,
    ensures
        b.subrange(0, 2) == seq![0x49u8, 0x4eu8],
        b.subrange(2, 4) == be16_bytes(be16_at(b, 2)),
{
    assert(b.subrange(0, 2) =~= seq![0x49u8, 0x4eu8]);
    lemma_be16_read(b, 2);
}

proof fn lemma_project(b: Seq<u8>)
    requires
        256 <= b.len(),
    ensures
        ({
            let id = (be16_at(b, 22) * 0x1_0000 + be16_at(b, 20)) as u32;
            &&& b.subrange(20, 22) == be16_bytes((id % 0x1_0000) as u16)
            &&& b.subrange(22, 24) == be16_bytes((id / 0x1_0000) as u16)
        }),
{
    lemma_be16_read(b, 20);
    lemma_be16_read(b, 22);
    let (hi, lo) = (be16_at(b, 22), be16_at(b, 20));
    let id = (hi * 0x1_0000 + lo) as u32;
    assert(id % 0x1_0000 == lo && id / 0x1_0000 == hi);
}

proof fn lemma_owner_and_size(b: Seq<u8>)
    requires
        256 <= b.len(),
    ensures
        b.subrange(8, 12) == be32_bytes(be32_at(b, 8)),
        b.subrange(12, 16) == be32_bytes(be32_at(b, 12)),
        b.subrange(56, 64) == be64_bytes(be64_at(b, 56)),
        b.subrange(64, 72) == be64_bytes(be64_at(b, 64)),
        b.subrange(90, 92) == be16_bytes(be16_at(b, 90)),
        b.subrange(92, 96) == be32_bytes(be32_at(b, 92)),
{
    lemma_be32_read(b, 8);
    lemma_be32_read(b, 12);
    lemma_be64_read(b, 56);
    lemma_be64_read(b, 64);
    lemma_be16_read(b, 90);
    lemma_be32_read(b, 92);
}

proof fn lemma_times(sb: Superblock, ino: u64, b: Seq<u8>)
    requires
        256 <= b.len(),
    ensures
        holds_times(b, inode_fields(sb, ino, b)),
{
    let v = inode_fields(sb, ino, b);
    lemma_flags(v.flags2);
    lemma_time(b, 32, has_bigtime(v));
    lemma_time(b, 40, has_bigtime(v));
    lemma_time(b, 48, has_bigtime(v));
}

proof fn lemma_counters(sb: Superblock, ino: u64, b: Seq<u8>)
    requires
        256 <= b.len(),
    ensures
        holds_counters(b, inode_fields(sb, ino, b)),
{
    lemma_flags(inode_fields(sb, ino, b).flags2);
    lemma_be64_read(b, 24);
    lemma_be32_read(b, 76);
    lemma_be16_read(b, 80);
}

proof fn lemma_extras(sb: Superblock, ino: u64, b: Seq<u8>)
    requires
        256 <= b.len(),
        inode_refusal(sb, ino, b) is None,
    ensures
        holds_extras(b, inode_fields(sb, ino, b)),
{
    let v = inode_fields(sb, ino, b);
    lemma_flags(v.flags2);
    lemma_be64_read(b, 120);
    lemma_be64_read(b, 152);
    lemma_time(b, 144, has_bigtime(v));
}

/// Every inode of a version that the filesystem has, written, reads back.
#[verifier::rlimit(60)]
pub proof fn lemma_written_inode_reads_back(sb: Superblock, buf: Seq<u8>, v: InodeView)
    requires
        256 <= sb.inode_size <= buf.len(),
        holds_inode(buf.subrange(0, sb.inode_size as int), v),
        if sb.version == 5 {
            v.version == 3
        } else {
            v.version == 1 || v.version == 2
        },
    ensures
        inode_of(sb, v.ino, buf) == Ok::<InodeView, Fault>(v),
{
    let b = buf.subrange(0, sb.inode_size as int);
    let core = core_len(sb, v.version);
    lemma_be16(b, 0);
    assert(be16_bytes(0x494e) =~= seq![0x49u8, 0x4eu8]) by {
        reveal(be16_bytes);
    }
    lemma_be64(b, 152);
    lemma_be64(b, 120);
    lemma_flags(v.flags2);
    assert(format_of(b[5], "data"@) == Ok::<Format, Fault>(v.format));
    assert(v.data_fork.len() + v.attr_fork.len() == b.len() - core) by {
        assert((v.data_fork + v.attr_fork).len() == b.len() - core);
    }
    assert(inode_refusal(sb, v.ino, b) is None);
    let got = inode_fields(sb, v.ino, b);
    assert(got.flags2 == v.flags2);
    lemma_be16(b, 2);
    lemma_be16(b, 6);
    lemma_be32(b, 8);
    lemma_be32(b, 12);
    lemma_be32(b, 16);
    lemma_be16(b, 20);
    lemma_be16(b, 22);
    lemma_be64(b, 24);
    lemma_time(b, 32, has_bigtime(v));
    lemma_time(b, 40, has_bigtime(v));
    lemma_time(b, 48, has_bigtime(v));
    lemma_time(b, 144, has_bigtime(v));
    lemma_be64(b, 56);
    lemma_be64(b, 64);
    lemma_be32(b, 76);
    lemma_be16(b, 80);
    lemma_be16(b, 90);
    lemma_be32(b, 92);
    let whole = v.data_fork + v.attr_fork;
    assert(got.data_fork =~= v.data_fork) by {
        assert(forall|i: int| 0 <= i < v.data_fork.len() ==> whole[i] == v.data_fork[i]);
        assert(forall|i: int| 0 <= i < whole.len() ==> whole[i] == b[core + i]);
    }
    assert(got.attr_fork =~= v.attr_fork) by {
        assert(forall|i: int| 0 <= i < v.attr_fork.len() ==> whole[v.data_fork.len() + i] == v.attr_fork[i]);
        assert(forall|i: int| 0 <= i < whole.len() ==> whole[i] == b[core + i]);
    }
    assert(got =~= v);
}

/// A device number, written as its major above 18 bits of minor, reads back.
pub proof fn lemma_device_reads_back(v: InodeView, major: u32, minor: u32)
    requires
        v.format == Format::Dev,
        major < 0x4000,
        minor < 0x4_0000,
        v.data_fork.len() >= 4,
        v.data_fork.subrange(0, 4) == be32_bytes((major * 0x4_0000 + minor) as u32),
    ensures
        v.device() == (major, minor),
{
    lemma_be32(v.data_fork, 0);
}

} // verus!
