//! On-disk inodes: the core, and where its two forks sit.

pub mod mode;

use vstd::prelude::*;
use vstd::slice::slice_subrange;
use vstd::string::*;

use crate::bytes::{be16, be16_at, be32, be32_at, be64, be64_at, cut};
use crate::crc;
use crate::error::{around, numbered, outcome, verdict, Error, Fault, Result};
use crate::sb::Superblock;
use crate::text::{decimal, push_decimal};

verus! {

/// `IN`.
pub const MAGIC: u16 = 0x494e;

/// How a fork's contents are stored.
#[derive(Debug, Clone, Copy, PartialEq, Eq, Structural)]
pub enum Format {
    /// A device number, for device nodes.
    Dev,
    /// Inline in the inode (short-form directories, short symlinks, small
    /// attribute sets).
    Local,
    /// A list of extents in the inode.
    Extents,
    /// A B+tree of extents, rooted in the inode.
    Btree,
}

/// The format the byte `v` stands for, in the fork called `what`.
pub open spec fn format_of(v: u8, what: Seq<char>) -> core::result::Result<Format, Fault> {
    if v == 0 {
        Ok(Format::Dev)
    } else if v == 1 {
        Ok(Format::Local)
    } else if v == 2 {
        Ok(Format::Extents)
    } else if v == 3 {
        Ok(Format::Btree)
    } else {
        Err(Fault::Corrupt(what + " fork format "@ + decimal(v as nat)))
    }
}

impl Format {
    fn from_u8(v: u8, what: &str) -> (r: Result<Self>)
        ensures
            verdict(r) == format_of(v, what@),
    {
        match v {
            0 => Ok(Format::Dev),
            1 => Ok(Format::Local),
            2 => Ok(Format::Extents),
            3 => Ok(Format::Btree),
            _ => {
                let mut s = String::from_str(what);
                s.append(" fork format ");
                push_decimal(&mut s, v as u64);
                Err(Error::Corrupt(s))
            },
        }
    }
}

/// A point in time.
#[derive(Debug, Clone, Copy, PartialEq, Eq, PartialOrd, Ord, Structural, Default)]
pub struct Timestamp {
    /// Seconds since the Unix epoch; negative before it.
    pub secs: i64,
    /// Nanoseconds within the second.
    pub nsecs: u32,
}

// `di_flags`.
pub const DIFLAG_REALTIME: u16 = 0x1;

// `di_flags2`.
pub const DIFLAG2_BIGTIME: u64 = 0x8;

pub const DIFLAG2_NREXT64: u64 = 0x10;

/// Seconds between the bigtime epoch (the lowest 32-bit time) and the Unix one.
pub const BIGTIME_EPOCH_OFFSET: i64 = 0x8000_0000;

/// The time at byte `o` of an inode: nanoseconds from the bigtime epoch, or
/// else signed seconds and nanoseconds of 32 bits each.
pub open spec fn time_at(buf: Seq<u8>, o: int, bigtime: bool) -> Timestamp {
    if bigtime {
        let raw = be64_at(buf, o) as int;
        Timestamp {
            secs: (raw / 1_000_000_000 - BIGTIME_EPOCH_OFFSET) as i64,
            nsecs: (raw % 1_000_000_000) as u32,
        }
    } else {
        let secs = be32_at(buf, o) as int;
        Timestamp {
            secs: (if secs < 0x8000_0000 {
                secs
            } else {
                secs - 0x1_0000_0000
            }) as i64,
            nsecs: be32_at(buf, o + 4),
        }
    }
}

/// The time at byte `o` of an inode.
fn time(buf: &[u8], o: usize, bigtime: bool) -> (r: Timestamp)
    requires
        o + 8 <= buf@.len(),
    ensures
        r == time_at(buf@, o as int, bigtime),
{
    assert(buf@.len() == buf.len());
    if bigtime {
        let raw: u64 = be64(buf, o);
        Timestamp {
            secs: (raw / 1_000_000_000) as i64 - BIGTIME_EPOCH_OFFSET,
            nsecs: (raw % 1_000_000_000) as u32,
        }
    } else {
        let secs: i64 = be32(buf, o) as i64;
        Timestamp {
            secs: if secs < 0x8000_0000 {
                secs
            } else {
                secs - 0x1_0000_0000
            },
            nsecs: be32(buf, o + 4),
        }
    }
}

/// A parsed inode, with both forks' raw bytes.
#[derive(Debug, Clone)]
pub struct Inode {
    /// Its number.
    pub ino: u64,
    /// Mode, including the file type bits.
    pub mode: u16,
    /// Inode version: 1, 2 or 3.
    pub version: u8,
    /// Data fork format.
    pub format: Format,
    /// Owner.
    pub uid: u32,
    /// Group.
    pub gid: u32,
    /// Hard links.
    pub nlink: u32,
    /// Project ID.
    pub projid: u32,
    /// Last access.
    pub atime: Timestamp,
    /// Last modification of the contents.
    pub mtime: Timestamp,
    /// Last change of the inode.
    pub ctime: Timestamp,
    /// Creation, on v3 inodes.
    pub crtime: Option<Timestamp>,
    /// Size in bytes.
    pub size: u64,
    /// Blocks allocated, in filesystem blocks, both forks.
    pub nblocks: u64,
    /// Data fork extents.
    pub nextents: u64,
    /// Attribute fork extents.
    pub anextents: u32,
    /// Attribute fork format, when there is an attribute fork.
    pub aformat: Option<Format>,
    /// `di_flags`.
    pub flags: u16,
    /// `di_flags2`, on v3 inodes.
    pub flags2: u64,
    /// Generation number.
    pub generation: u32,
    /// The data fork's bytes.
    pub data_fork: Vec<u8>,
    /// The attribute fork's bytes; empty when there is none.
    pub attr_fork: Vec<u8>,
}

/// An [`Inode`] as contracts speak of it.
#[verifier::ext_equal]
pub struct InodeView {
    pub ino: u64,
    pub mode: u16,
    pub version: u8,
    pub format: Format,
    pub uid: u32,
    pub gid: u32,
    pub nlink: u32,
    pub projid: u32,
    pub atime: Timestamp,
    pub mtime: Timestamp,
    pub ctime: Timestamp,
    pub crtime: Option<Timestamp>,
    pub size: u64,
    pub nblocks: u64,
    pub nextents: u64,
    pub anextents: u32,
    pub aformat: Option<Format>,
    pub flags: u16,
    pub flags2: u64,
    pub generation: u32,
    pub data_fork: Seq<u8>,
    pub attr_fork: Seq<u8>,
}

impl View for Inode {
    type V = InodeView;

    open spec fn view(&self) -> InodeView {
        InodeView {
            ino: self.ino,
            mode: self.mode,
            version: self.version,
            format: self.format,
            uid: self.uid,
            gid: self.gid,
            nlink: self.nlink,
            projid: self.projid,
            atime: self.atime,
            mtime: self.mtime,
            ctime: self.ctime,
            crtime: self.crtime,
            size: self.size,
            nblocks: self.nblocks,
            nextents: self.nextents,
            anextents: self.anextents,
            aformat: self.aformat,
            flags: self.flags,
            flags2: self.flags2,
            generation: self.generation,
            data_fork: self.data_fork@,
            attr_fork: self.attr_fork@,
        }
    }
}

impl InodeView {
    /// The file type bits of `mode`.
    pub open spec fn file_type(self) -> u16 {
        self.mode & mode::IFMT
    }

    /// Whether this is a directory.
    pub open spec fn is_dir(self) -> bool {
        self.file_type() == mode::IFDIR
    }

    /// Whether the data lives on a realtime device.
    pub open spec fn is_realtime(self) -> bool {
        self.flags & DIFLAG_REALTIME != 0
    }

    /// A device node's number as `(major, minor)`.
    pub open spec fn device(self) -> (u32, u32) {
        if self.format != Format::Dev || self.data_fork.len() < 4 {
            (0, 0)
        } else {
            let dev = be32_at(self.data_fork, 0);
            (dev / 0x4_0000, dev % 0x4_0000)
        }
    }
}

/// The complaint that inode `ino` has something wrong with it.
pub open spec fn inode_fault(ino: u64, what: Seq<char>) -> Fault {
    Fault::Corrupt(around("inode "@, ino as nat, what))
}

/// A complaint about inode `ino`.
pub fn inode_error(ino: u64, what: &str) -> (r: Error)
    ensures
        r@ == inode_fault(ino, what@),
{
    Error::Corrupt(numbered("inode ", ino, what))
}

/// How long the core of the inode in `buf` is, before its forks; zero if it
/// is of no version the filesystem can hold.
pub open spec fn core_len(sb: Superblock, version: u8) -> int {
    if (version == 1 || version == 2) && !sb.spec_is_v5() {
        100
    } else if version == 3 && sb.spec_is_v5() {
        176
    } else {
        0
    }
}

/// Where the attribute fork of the inode in `buf` starts, counted from the
/// end of the core; zero if there is none.
pub open spec fn fork_offset(buf: Seq<u8>) -> int {
    buf[82] * 8
}

/// Why the `inode_size` bytes of inode `ino` are refused, if they are.
pub open spec fn inode_refusal(sb: Superblock, ino: u64, buf: Seq<u8>) -> Option<Fault> {
    let version = buf[4];
    if be16_at(buf, 0) != MAGIC {
        Some(inode_fault(ino, ": bad magic"@))
    } else if core_len(sb, version) == 0 {
        Some(inode_fault(ino, ": version "@ + decimal(version as nat)))
    } else if version == 3 && !crc::is_sealed(buf, 100) {
        Some(inode_fault(ino, ": checksum"@))
    } else if version == 3 && be64_at(buf, 152) != ino {
        Some(inode_fault(ino, ": records itself as "@ + decimal(be64_at(buf, 152) as nat)))
    } else if format_of(buf[5], "data"@) is Err {
        Some(format_of(buf[5], "data"@)->Err_0)
    } else if fork_offset(buf) >= buf.len() - core_len(sb, version) {
        Some(inode_fault(ino, ": fork offset "@ + decimal(fork_offset(buf) as nat)))
    } else if fork_offset(buf) != 0 && format_of(buf[83], "attribute"@) is Err {
        Some(format_of(buf[83], "attribute"@)->Err_0)
    } else {
        None
    }
}

/// The second flag word of the inode in `buf`.
pub open spec fn flags2_at(buf: Seq<u8>) -> u64 {
    if buf[4] == 3 {
        be64_at(buf, 120)
    } else {
        0
    }
}

/// What the `inode_size` bytes of inode `ino` record.
pub open spec fn inode_fields(sb: Superblock, ino: u64, buf: Seq<u8>) -> InodeView {
    let version = buf[4];
    let core = core_len(sb, version);
    let split = core + fork_offset(buf);
    let flags2 = flags2_at(buf);
    let bigtime = flags2 & DIFLAG2_BIGTIME != 0;
    let wide = flags2 & DIFLAG2_NREXT64 != 0;
    InodeView {
        ino,
        mode: be16_at(buf, 2),
        version,
        format: format_of(buf[5], "data"@)->Ok_0,
        uid: be32_at(buf, 8),
        gid: be32_at(buf, 12),
        nlink: if version == 1 {
            be16_at(buf, 6) as u32
        } else {
            be32_at(buf, 16)
        },
        projid: if version == 1 {
            0
        } else {
            (be16_at(buf, 22) * 0x1_0000 + be16_at(buf, 20)) as u32
        },
        atime: time_at(buf, 32, bigtime),
        mtime: time_at(buf, 40, bigtime),
        ctime: time_at(buf, 48, bigtime),
        crtime: if version == 3 {
            Some(time_at(buf, 144, bigtime))
        } else {
            None
        },
        size: be64_at(buf, 56),
        nblocks: be64_at(buf, 64),
        nextents: if wide {
            be64_at(buf, 24)
        } else {
            be32_at(buf, 76) as u64
        },
        anextents: if wide {
            be32_at(buf, 76)
        } else {
            be16_at(buf, 80) as u32
        },
        aformat: if fork_offset(buf) == 0 {
            None
        } else {
            Some(format_of(buf[83], "attribute"@)->Ok_0)
        },
        flags: be16_at(buf, 90),
        flags2,
        generation: be32_at(buf, 92),
        data_fork: if fork_offset(buf) == 0 {
            buf.subrange(core, buf.len() as int)
        } else {
            buf.subrange(core, split)
        },
        attr_fork: if fork_offset(buf) == 0 {
            Seq::empty()
        } else {
            buf.subrange(split, buf.len() as int)
        },
    }
}

/// What parsing inode `ino` from `buf` comes to.
pub open spec fn inode_of(sb: Superblock, ino: u64, buf: Seq<u8>) -> core::result::Result<InodeView, Fault> {
    let isize = sb.inode_size as int;
    if buf.len() < isize {
        Err(inode_fault(ino, ": short buffer"@))
    } else if inode_refusal(sb, ino, buf.subrange(0, isize)) is Some {
        Err(inode_refusal(sb, ino, buf.subrange(0, isize))->Some_0)
    } else {
        Ok(inode_fields(sb, ino, buf.subrange(0, isize)))
    }
}

impl Inode {
    /// Check the version, checksum and number of the inode in `buf`, and
    /// return how long its core is.
    fn check_core(sb: &Superblock, ino: u64, buf: &[u8]) -> (r: Result<usize>)
        requires
            256 <= buf@.len(),
        ensures
            match r {
                Ok(core) => core == core_len(*sb, buf@[4]) && core > 0 && be16_at(buf@, 0) == MAGIC && (buf@[4] == 3
                    ==> crc::is_sealed(buf@, 100) && be64_at(buf@, 152) == ino),
                Err(e) => inode_refusal(*sb, ino, buf@) == Some(e@),
            },
    {
        proof {
            reveal_strlit("");
        }
        if be16(buf, 0) != MAGIC {
            return Err(inode_error(ino, ": bad magic"));
        }
        let version: u8 = buf[4];
        let core: usize = if (version == 1 || version == 2) && !sb.is_v5() {
            100
        } else if version == 3 && sb.is_v5() {
            176
        } else {
            let what = numbered(": version ", version as u64, "");
            assert(what@ =~= ": version "@ + decimal(version as nat));
            return Err(inode_error(ino, what.as_str()));
        };
        if version == 3 {
            if !crc::verify(buf, 100) {
                return Err(inode_error(ino, ": checksum"));
            }
            let own: u64 = be64(buf, 152);
            if own != ino {
                let what = numbered(": records itself as ", own, "");
                assert(what@ =~= ": records itself as "@ + decimal(own as nat));
                return Err(inode_error(ino, what.as_str()));
            }
        }
        Ok(core)
    }

    /// Parse the inode `ino` from its `inode_size` bytes.
    pub fn parse(sb: &Superblock, ino: u64, buf: &[u8]) -> (r: Result<Self>)
        requires
            256 <= sb.inode_size,
        ensures
            outcome(r) == inode_of(*sb, ino, buf@),
    {
        let isize: usize = sb.inode_size as usize;
        if buf.len() < isize {
            return Err(inode_error(ino, ": short buffer"));
        }
        let buf = slice_subrange(buf, 0, isize);
        let core: usize = Inode::check_core(sb, ino, buf)?;
        let version: u8 = buf[4];
        let flags2: u64 = if version == 3 {
            be64(buf, 120)
        } else {
            0
        };
        let bigtime: bool = flags2 & DIFLAG2_BIGTIME != 0;
        let wide: bool = flags2 & DIFLAG2_NREXT64 != 0;
        let format = Format::from_u8(buf[5], "data")?;
        let forkoff: usize = buf[82] as usize * 8;
        let literal: usize = isize - core;
        if forkoff >= literal {
            let what = numbered(": fork offset ", forkoff as u64, "");
            proof {
                reveal_strlit("");
                assert(what@ =~= ": fork offset "@ + decimal(forkoff as nat));
            }
            return Err(inode_error(ino, what.as_str()));
        }
        let (data_fork, attr_fork, aformat): (Vec<u8>, Vec<u8>, Option<Format>) = if forkoff == 0 {
            (cut(buf, core, isize), Vec::new(), None)
        } else {
            let aformat = Format::from_u8(buf[83], "attribute")?;
            (cut(buf, core, core + forkoff), cut(buf, core + forkoff, isize), Some(aformat))
        };
        let r = Inode {
            ino,
            mode: be16(buf, 2),
            version,
            format,
            uid: be32(buf, 8),
            gid: be32(buf, 12),
            nlink: if version == 1 {
                be16(buf, 6) as u32
            } else {
                be32(buf, 16)
            },
            projid: if version == 1 {
                0
            } else {
                be16(buf, 22) as u32 * 0x1_0000 + be16(buf, 20) as u32
            },
            atime: time(buf, 32, bigtime),
            mtime: time(buf, 40, bigtime),
            ctime: time(buf, 48, bigtime),
            crtime: if version == 3 {
                Some(time(buf, 144, bigtime))
            } else {
                None
            },
            size: be64(buf, 56),
            nblocks: be64(buf, 64),
            nextents: if wide {
                be64(buf, 24)
            } else {
                be32(buf, 76) as u64
            },
            anextents: if wide {
                be32(buf, 76)
            } else {
                be16(buf, 80) as u32
            },
            aformat,
            flags: be16(buf, 90),
            flags2,
            generation: be32(buf, 92),
            data_fork,
            attr_fork,
        };
        assert(r@ =~= inode_fields(*sb, ino, buf@));
        Ok(r)
    }

    /// The file type bits of `mode`.
    pub fn file_type(&self) -> (r: u16)
        ensures
            r == self@.file_type(),
    {
        self.mode & mode::IFMT
    }

    /// Whether this is a directory.
    pub fn is_dir(&self) -> (r: bool)
        ensures
            r == self@.is_dir(),
    {
        self.file_type() == mode::IFDIR
    }

    /// Whether the data lives on a realtime device rather than the data one.
    pub fn is_realtime(&self) -> (r: bool)
        ensures
            r == self@.is_realtime(),
    {
        self.flags & DIFLAG_REALTIME != 0
    }

    /// A device node's number as `(major, minor)`.
    ///
    /// XFS keeps it as one 32-bit word, the minor in the low 18 bits.
    pub fn device(&self) -> (r: (u32, u32))
        ensures
            r == self@.device(),
    {
        if self.format != Format::Dev || self.data_fork.len() < 4 {
            return (0, 0);
        }
        let dev: u32 = be32(self.data_fork.as_slice(), 0);
        (dev / 0x4_0000, dev % 0x4_0000)
    }
}

/// A parsed inode's forks lie in the inode after its core, the data fork
/// first, and there is an attribute fork just when it has a format.
pub proof fn lemma_forks(sb: Superblock, ino: u64, buf: Seq<u8>)
    requires
        256 <= sb.inode_size,
        inode_of(sb, ino, buf) is Ok,
    ensures
        ({
            let v = inode_of(sb, ino, buf)->Ok_0;
            let core = core_len(sb, v.version);
            &&& v.ino == ino
            &&& v.data_fork.len() > 0
            &&& v.data_fork + v.attr_fork == buf.subrange(core, sb.inode_size as int)
            &&& v.aformat is Some <==> v.attr_fork.len() > 0
        }),
{
    let whole = buf.subrange(0, sb.inode_size as int);
    let v = inode_fields(sb, ino, whole);
    let core = core_len(sb, v.version);
    assert(v.data_fork + v.attr_fork =~= buf.subrange(core, sb.inode_size as int));
}

} // verus!
