//! The public API: an open filesystem, read by path.

pub mod agreement;
pub mod answers;
pub mod blocks;
pub mod bytewise;
pub mod following;
pub mod links;
pub mod map;
pub mod names;
pub mod paths;
pub mod recorded;
pub mod trees;
pub mod walk;
pub mod xattrs;

use vstd::prelude::*;
use vstd::string::*;

use crate::arith::{mul_add, wrapped};
use crate::bytes::{be16, be16_at, be32, be32_at, be64_at, cut, lemma_fields_of_subrange};
use crate::device::{read_bytes, BlockDevice};
use crate::dir::{type_of_mode, FileType};
use crate::error::{Error, Fault, Result};
use crate::inode::{mode, Inode, InodeView, Timestamp};
use crate::sb::{refusal, Superblock};
use crate::text::{decimal, push_decimal};

verus! {

/// What a directory listing tells you about one name.
#[derive(Debug, Clone, PartialEq, Eq)]
pub struct Entry {
    /// The name. Non-UTF-8 bytes are replaced; `raw_name` has them as stored.
    pub name: String,
    /// The name exactly as stored.
    pub raw_name: Vec<u8>,
    /// The inode it refers to.
    pub inode: u64,
    /// What it is.
    pub kind: FileType,
    /// Whether it is a directory.
    pub is_dir: bool,
}

/// An [`Entry`] as contracts speak of it.
#[verifier::ext_equal]
pub struct EntryView {
    pub name: Seq<char>,
    pub raw_name: Seq<u8>,
    pub inode: u64,
    pub kind: FileType,
    pub is_dir: bool,
}

impl View for Entry {
    type V = EntryView;

    open spec fn view(&self) -> EntryView {
        EntryView {
            name: self.name@,
            raw_name: self.raw_name@,
            inode: self.inode,
            kind: self.kind,
            is_dir: self.is_dir,
        }
    }
}

/// What `stat` tells you about a file.
#[derive(Debug, Clone, Copy, PartialEq, Eq)]
pub struct Stat {
    /// Inode number.
    pub inode: u64,
    /// Size in bytes.
    pub size: u64,
    /// Mode, including the file type bits.
    pub mode: u16,
    /// Hard links.
    pub links: u32,
    /// Owner.
    pub uid: u32,
    /// Group.
    pub gid: u32,
    /// Blocks of 512 bytes allocated, both forks.
    pub blocks: u64,
    /// Last access.
    pub atime: Timestamp,
    /// Last modification of the contents.
    pub mtime: Timestamp,
    /// Last change of the inode.
    pub ctime: Timestamp,
    /// Creation, on v5 filesystems.
    pub crtime: Option<Timestamp>,
    /// A device node's `(major, minor)`; `(0, 0)` for anything else.
    pub rdev: (u32, u32),
}

impl Stat {
    /// Whether this is a directory.
    pub open spec fn spec_is_dir(self) -> bool {
        self.mode & mode::IFMT == mode::IFDIR
    }

    /// Whether this is a directory.
    pub fn is_dir(&self) -> (r: bool)
        ensures
            r == self.spec_is_dir(),
    {
        self.mode & mode::IFMT == mode::IFDIR
    }

    /// Whether this is a regular file.
    pub fn is_file(&self) -> (r: bool)
        ensures
            r == (self.mode & mode::IFMT == mode::IFREG),
    {
        self.mode & mode::IFMT == mode::IFREG
    }

    /// Whether this is a symbolic link.
    pub fn is_symlink(&self) -> (r: bool)
        ensures
            r == (self.mode & mode::IFMT == mode::IFLNK),
    {
        self.mode & mode::IFMT == mode::IFLNK
    }

    /// What it is.
    pub fn kind(&self) -> (r: FileType)
        ensures
            r == type_of_mode(self.mode),
    {
        FileType::from_mode(self.mode)
    }
}

/// One name found by [`Volume::walk`].
#[derive(Debug, Clone)]
pub struct WalkEntry {
    /// Path relative to the root walked, `/`-separated. Non-UTF-8 bytes are
    /// replaced; `raw_path` has them as stored.
    pub path: String,
    /// The path exactly as stored.
    pub raw_path: Vec<u8>,
    /// What `stat` says about it.
    pub stat: Stat,
}

/// A [`WalkEntry`] as contracts speak of it.
#[verifier::ext_equal]
pub struct WalkView {
    pub path: Seq<char>,
    pub raw_path: Seq<u8>,
    pub stat: Stat,
}

impl View for WalkEntry {
    type V = WalkView;

    open spec fn view(&self) -> WalkView {
        WalkView { path: self.path@, raw_path: self.raw_path@, stat: self.stat }
    }
}

/// What `stat` says about an inode.
pub open spec fn stat_of(sb: Superblock, inode: InodeView) -> Stat {
    Stat {
        inode: inode.ino,
        size: inode.size,
        mode: inode.mode,
        links: inode.nlink,
        uid: inode.uid,
        gid: inode.gid,
        blocks: wrapped(inode.nblocks * (sb.block_size / 512)),
        atime: inode.atime,
        mtime: inode.mtime,
        ctime: inode.ctime,
        crtime: inode.crtime,
        rdev: if inode.file_type() == mode::IFCHR || inode.file_type() == mode::IFBLK {
            inode.device()
        } else {
            (0, 0)
        },
    }
}

/// An open XFS filesystem.
///
/// Reading only, for now: the filesystem is expected to be cleanly
/// unmounted, since nothing here replays the log.
pub struct Volume<D: BlockDevice> {
    dev: D,
    sb: Superblock,
}

/// The bytes read of a device before its block size is known.
pub const FIRST_READ: u64 = 4096;

/// The bytes at the start of a device that its superblock is read from. A v5
/// superblock's checksum covers its whole sector.
pub open spec fn superblock_bytes(img: Seq<u8>) -> Seq<u8> {
    let sect = be16_at(img, 102);
    if 512 < sect <= 32768 && sect <= img.len() {
        img.subrange(0, sect as int)
    } else {
        img.subrange(0, 512)
    }
}

/// Why a device holding `img` is refused, if it is.
pub open spec fn open_refusal(img: Seq<u8>) -> Option<Fault> {
    let data_blocks = be64_at(img, 8) as nat;
    let block_size = be32_at(img, 4) as nat;
    if img.len() < 512 {
        Some(Fault::NotXfs("device smaller than a sector"@))
    } else if refusal(superblock_bytes(img)) is Some {
        refusal(superblock_bytes(img))
    } else if data_blocks * block_size > img.len() {
        Some(
            Fault::Corrupt(
                "the filesystem is "@ + decimal(data_blocks) + " blocks of "@ + decimal(block_size)
                    + " bytes, the device "@ + decimal(img.len()) + " bytes"@,
            ),
        )
    } else {
        None
    }
}

/// How many bytes the blocks of `bs` bytes have that hold the first `want`
/// bytes of a device.
pub open spec fn whole_len(want: int, bs: u32) -> int {
    (want + bs - 1) / (bs as int) * bs
}

/// Whether the first `want` bytes of a device of `size` bytes are in blocks of
/// `bs` bytes: that is a block size, and the device has those blocks.
pub open spec fn blocks_hold(want: int, bs: u32, size: int) -> bool {
    512 <= bs <= 65536 && whole_len(want, bs) <= size
}

/// How much to read at the start of a device of `size` bytes for its first
/// `want`: the blocks that hold them, or else no more than them.
pub open spec fn whole_or_bare(want: int, bs: u32, size: int) -> int {
    if blocks_hold(want, bs, size) {
        whole_len(want, bs)
    } else {
        want
    }
}

/// Whether a device takes reads of whole blocks of `block_size` bytes at block
/// boundaries.
pub open spec fn takes_blocks<D: BlockDevice>(dev: &D, block_size: u32) -> bool {
    forall|offset: nat, len: nat|
        offset as int % block_size as int == 0 && len as int % block_size as int == 0 ==> #[trigger] dev.admits(
            offset,
            len,
        )
}

/// Whether a device that holds `img` may be asked for `len` bytes at `offset`:
/// its first 4 KiB, before the block size is known; whole blocks at a block
/// boundary; or, where a large first sector is in no whole blocks that the
/// device has, that sector.
pub open spec fn is_asked_for(img: Seq<u8>, offset: nat, len: nat) -> bool {
    let block_size = be32_at(img, 4);
    let sector = be16_at(img, 102) as int;
    ||| offset == 0 && len == first_read(img.len())
    ||| 512 <= block_size <= 65536 && offset as int % block_size as int == 0 && len as int % block_size as int == 0
    ||| offset == 0 && len == sector && sector > FIRST_READ && !blocks_hold(sector, block_size, img.len() as int)
}

/// How many bytes of a device of `size` are read first.
pub open spec fn first_read(size: nat) -> nat {
    if size < FIRST_READ {
        size
    } else {
        FIRST_READ as nat
    }
}

/// How much to read at the start of a device of `size` bytes for its first
/// `want`: as many blocks of `bs` bytes as hold them, where that is a block
/// size and the device has them.
fn blocks_that_hold(want: usize, bs: u32, size: u64) -> (r: usize)
    requires
        want <= size,
        want <= 32768,
    ensures
        want <= r <= size,
        r == whole_or_bare(want as int, bs, size as int),
        blocks_hold(want as int, bs, size as int) ==> r as int % bs as int == 0,
{
    if bs < 512 || bs > 65536 {
        return want;
    }
    let bs: usize = bs as usize;
    let n: usize = (want + bs - 1) / bs;
    proof {
        assert(want <= n * bs && n * bs < want + bs) by (nonlinear_arith)
            requires
                n as int == (want + bs - 1) / (bs as int),
                bs > 0,
        ;
        vstd::arithmetic::div_mod::lemma_mod_multiples_basic(n as int, bs as int);
    }
    let whole: usize = n * bs;
    if whole as u64 <= size {
        whole
    } else {
        want
    }
}

impl<D: BlockDevice> Volume<D> {
    /// The superblock.
    pub closed spec fn sb(&self) -> Superblock {
        self.sb
    }

    /// The device underneath.
    pub closed spec fn dev(&self) -> D {
        self.dev
    }

    /// The bytes on the device underneath.
    pub open spec fn img(&self) -> Seq<u8> {
        self.dev().contents()
    }

    #[verifier::type_invariant]
    closed spec fn inv(&self) -> bool {
        self.sb.wf() && takes_blocks(&self.dev, self.sb.block_size)
    }

    /// Open the filesystem on `device`, checking its superblock.
    ///
    /// The device is asked for its first 4 KiB, and after that for whole
    /// filesystem blocks at block boundaries alone.
    #[verifier::rlimit(40)]
    pub fn open(device: D) -> (r: Result<Self>)
        requires
            forall|offset: nat, len: nat|
                is_asked_for(device.contents(), offset, len) ==> #[trigger] device.admits(offset, len),
        ensures
            match r {
                Ok(vol) => {
                    &&& open_refusal(device.contents()) is None
                    &&& vol.dev() == device
                    &&& vol.sb().records(superblock_bytes(device.contents()))
                    &&& vol.sb().wf()
                },
                Err(e) => device.may_fail(e@) || open_refusal(device.contents()) == Some(e@),
            },
            device.contents().len() < 512 ==> r is Err && Some(r->Err_0@) == open_refusal(device.contents()),
    {
        let ghost img = device.contents();
        let size: u64 = device.size();
        if size < 512 {
            return Err(Error::NotXfs(String::from_str("device smaller than a sector")));
        }
        let n: usize = if size < FIRST_READ {
            size as usize
        } else {
            FIRST_READ as usize
        };
        let first = read_bytes(&device, 0, n)?;
        let sect: usize = be16(first.as_slice(), 102) as usize;
        proof {
            lemma_fields_of_subrange(img, 0, n as int, 102);
        }
        let want: usize = if sect > 512 && sect <= 32768 && sect as u64 <= size {
            sect
        } else {
            512
        };
        let buf: Vec<u8> = if want <= n {
            cut(first.as_slice(), 0, want)
        } else {
            let bs: u32 = be32(first.as_slice(), 4);
            proof {
                lemma_fields_of_subrange(img, 0, n as int, 4);
            }
            let whole = read_bytes(&device, 0, blocks_that_hold(want, bs, size))?;
            cut(whole.as_slice(), 0, want)
        };
        assert(buf@ =~= superblock_bytes(img));
        let sb = Superblock::parse(buf.as_slice())?;
        proof {
            lemma_fields_of_subrange(img, 0, buf@.len() as int, 4);
            lemma_fields_of_subrange(img, 0, buf@.len() as int, 8);
        }
        let fits: bool = match sb.data_blocks.checked_mul(sb.block_size as u64) {
            Some(end) => end <= size,
            None => false,
        };
        if !fits {
            let mut what = String::from_str("the filesystem is ");
            push_decimal(&mut what, sb.data_blocks);
            what.append(" blocks of ");
            push_decimal(&mut what, sb.block_size as u64);
            what.append(" bytes, the device ");
            push_decimal(&mut what, size);
            what.append(" bytes");
            return Err(Error::Corrupt(what));
        }
        Ok(Volume { dev: device, sb })
    }

    /// The superblock.
    pub fn superblock(&self) -> (r: &Superblock)
        ensures
            *r == self.sb(),
            r.wf(),
    {
        proof {
            use_type_invariant(self);
        }
        &self.sb
    }

    /// The device underneath.
    pub fn device(&self) -> (r: &D)
        ensures
            *r == self.dev(),
    {
        &self.dev
    }

    /// What `stat` says about an inode already read.
    pub fn stat_inode(&self, inode: &Inode) -> (r: Stat)
        ensures
            r == stat_of(self.sb(), inode@),
    {
        let t: u16 = inode.file_type();
        Stat {
            inode: inode.ino,
            size: inode.size,
            mode: inode.mode,
            links: inode.nlink,
            uid: inode.uid,
            gid: inode.gid,
            blocks: mul_add(inode.nblocks, (self.sb.block_size / 512) as u64, 0),
            atime: inode.atime,
            mtime: inode.mtime,
            ctime: inode.ctime,
            crtime: inode.crtime,
            rdev: if t == mode::IFCHR || t == mode::IFBLK {
                inode.device()
            } else {
                (0, 0)
            },
        }
    }

    /// Give the device back.
    pub fn into_device(self) -> (r: D)
        ensures
            r == self.dev(),
    {
        self.dev
    }
}

} // verus!
