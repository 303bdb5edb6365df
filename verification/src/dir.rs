//! Directories, in all four of their forms.
//!
//! Short-form directories live in the inode. Block, leaf and node directories
//! differ only in how names are *indexed*; the names themselves are always in
//! data blocks in the first 32 GiB of the directory's logical space, so
//! listing any of them is a walk of those data blocks. The leaf and node
//! blocks above that are hash indexes, needed to find a name quickly and not
//! needed to find every name.

use vstd::prelude::*;
use vstd::slice::slice_subrange;
use vstd::string::*;

use crate::bytes::{be16, be16_at, be32, be32_at, be64, be64_at, cut, lemma_views_push, views};
use crate::crc;
use crate::error::{around, corrupt, lemma_prefixed, numbered, prefixed, verdict, Error, Fault, Result};
use crate::inode::mode::{IFBLK, IFCHR, IFDIR, IFIFO, IFLNK, IFMT, IFREG, IFSOCK};
use crate::sb::Superblock;
use crate::text::{decimal, numeral, push_numeral};

verus! {

/// Byte offset in a directory's logical space where the leaf (index)
/// blocks begin; data blocks lie below it.
pub const LEAF_OFFSET: u64 = 0x8_0000_0000;

/// Magic of a v4 single-block directory.
pub const XD2B: u32 = 0x5844_3242;

/// Magic of a v4 directory data block.
pub const XD2D: u32 = 0x5844_3244;

/// Magic of a v5 single-block directory.
pub const XDB3: u32 = 0x5844_4233;

/// Magic of a v5 directory data block.
pub const XDD3: u32 = 0x5844_4433;

/// The type of a name, as recorded in a directory entry.
#[derive(Debug, Clone, Copy, PartialEq, Eq, Structural)]
pub enum FileType {
    /// Not recorded (a filesystem without `ftype`).
    Unknown,
    /// Regular file.
    File,
    /// Directory.
    Directory,
    /// Character device.
    CharDevice,
    /// Block device.
    BlockDevice,
    /// FIFO.
    Fifo,
    /// Socket.
    Socket,
    /// Symbolic link.
    Symlink,
}

/// The type a directory entry's type byte stands for.
pub open spec fn type_of_byte(v: u8) -> FileType {
    if v == 1 {
        FileType::File
    } else if v == 2 {
        FileType::Directory
    } else if v == 3 {
        FileType::CharDevice
    } else if v == 4 {
        FileType::BlockDevice
    } else if v == 5 {
        FileType::Fifo
    } else if v == 6 {
        FileType::Socket
    } else if v == 7 {
        FileType::Symlink
    } else {
        FileType::Unknown
    }
}

/// The type named by an inode's mode.
pub open spec fn type_of_mode(mode: u16) -> FileType {
    let t = mode & IFMT;
    if t == IFREG {
        FileType::File
    } else if t == IFDIR {
        FileType::Directory
    } else if t == IFCHR {
        FileType::CharDevice
    } else if t == IFBLK {
        FileType::BlockDevice
    } else if t == IFIFO {
        FileType::Fifo
    } else if t == IFSOCK {
        FileType::Socket
    } else if t == IFLNK {
        FileType::Symlink
    } else {
        FileType::Unknown
    }
}

impl FileType {
    fn from_ftype(v: u8) -> (r: Self)
        ensures
            r == type_of_byte(v),
    {
        match v {
            1 => FileType::File,
            2 => FileType::Directory,
            3 => FileType::CharDevice,
            4 => FileType::BlockDevice,
            5 => FileType::Fifo,
            6 => FileType::Socket,
            7 => FileType::Symlink,
            _ => FileType::Unknown,
        }
    }

    /// The type named by an inode's mode.
    pub fn from_mode(mode: u16) -> (r: Self)
        ensures
            r == type_of_mode(mode),
    {
        let t: u16 = mode & IFMT;
        if t == IFREG {
            FileType::File
        } else if t == IFDIR {
            FileType::Directory
        } else if t == IFCHR {
            FileType::CharDevice
        } else if t == IFBLK {
            FileType::BlockDevice
        } else if t == IFIFO {
            FileType::Fifo
        } else if t == IFSOCK {
            FileType::Socket
        } else if t == IFLNK {
            FileType::Symlink
        } else {
            FileType::Unknown
        }
    }
}

/// The letter that stands for a type in a listing.
pub open spec fn letter_of(k: FileType) -> char {
    match k {
        FileType::Directory => 'd',
        FileType::Symlink => 'l',
        FileType::CharDevice => 'c',
        FileType::BlockDevice => 'b',
        FileType::Fifo => 'p',
        FileType::Socket => 's',
        FileType::File => '-',
        FileType::Unknown => '?',
    }
}

/// The letter that stands for a type in a listing.
pub fn kind_char(k: FileType) -> (c: char)
    ensures
        c == letter_of(k),
{
    match k {
        FileType::Directory => 'd',
        FileType::Symlink => 'l',
        FileType::CharDevice => 'c',
        FileType::BlockDevice => 'b',
        FileType::Fifo => 'p',
        FileType::Socket => 's',
        FileType::File => '-',
        FileType::Unknown => '?',
    }
}

/// One name in a directory, as stored.
#[derive(Debug, Clone, PartialEq, Eq)]
pub struct RawEntry {
    /// The name's bytes.
    pub name: Vec<u8>,
    /// Its inode.
    pub ino: u64,
    /// Its type, when the filesystem records one.
    pub ftype: FileType,
}

/// A [`RawEntry`] as contracts speak of it.
#[verifier::ext_equal]
pub struct RawName {
    pub name: Seq<u8>,
    pub ino: u64,
    pub ftype: FileType,
}

impl View for RawEntry {
    type V = RawName;

    open spec fn view(&self) -> RawName {
        RawName { name: self.name@, ino: self.ino, ftype: self.ftype }
    }
}

/// The bytes a type takes in an entry: one, or none where none is recorded.
pub open spec fn type_len(sb: Superblock) -> int {
    if sb.spec_has_ftype() {
        1
    } else {
        0
    }
}

/// The type at byte `o` of an entry, where types are recorded.
pub open spec fn type_at(sb: Superblock, buf: Seq<u8>, o: int) -> FileType {
    if sb.spec_has_ftype() {
        type_of_byte(buf[o])
    } else {
        FileType::Unknown
    }
}

/// The inode number of `isz` bytes at byte `o` of a short-form directory.
pub open spec fn short_ino(buf: Seq<u8>, o: int, isz: int) -> core::result::Result<u64, Fault> {
    if o + isz > buf.len() {
        Err(Fault::Corrupt("short-form directory entry runs off the end"@))
    } else if isz == 8 {
        Ok(be64_at(buf, o))
    } else {
        Ok(be32_at(buf, o) as u64)
    }
}

/// The entry at byte `p` of a short-form directory: the length of the name,
/// two bytes that only order a listing, the name, its type and its inode.
pub open spec fn short_entry(sb: Superblock, buf: Seq<u8>, p: int, isz: int) -> core::result::Result<
    RawName,
    Fault,
> {
    let after = p + 3 + buf[p];
    if p + 3 > buf.len() {
        Err(Fault::Corrupt("short-form directory entry runs off the end"@))
    } else if buf[p] == 0 || after + type_len(sb) > buf.len() {
        Err(Fault::Corrupt("short-form directory name runs off the end"@))
    } else {
        match short_ino(buf, after + type_len(sb), isz) {
            Ok(ino) => Ok(
                RawName { name: buf.subrange(p + 3, after), ino, ftype: type_at(sb, buf, after) },
            ),
            Err(f) => Err(f),
        }
    }
}

/// The `n` entries that start at byte `p` of a short-form directory.
pub open spec fn short_entries(sb: Superblock, buf: Seq<u8>, p: int, isz: int, n: nat) -> core::result::Result<
    Seq<RawName>,
    Fault,
>
    decreases n,
{
    if n == 0 {
        Ok(Seq::empty())
    } else {
        match short_entry(sb, buf, p, isz) {
            Ok(e) => prefixed(
                seq![e],
                short_entries(sb, buf, p + 3 + buf[p] + type_len(sb) + isz, isz, (n - 1) as nat),
            ),
            Err(f) => Err(f),
        }
    }
}

/// The parent and the entries of a short-form directory of `size` bytes.
pub open spec fn shortform_of(sb: Superblock, fork: Seq<u8>, size: u64) -> core::result::Result<
    (u64, Seq<RawName>),
    Fault,
> {
    if size < 6 || size > fork.len() {
        Err(Fault::Corrupt(around("short-form directory of "@, size as nat, " bytes"@)))
    } else {
        let buf = fork.subrange(0, size as int);
        let isz: int = if buf[1] > 0 {
            8
        } else {
            4
        };
        match short_ino(buf, 2, isz) {
            Ok(parent) => match short_entries(sb, buf, 2 + isz, isz, buf[0] as nat) {
                Ok(entries) => Ok((parent, entries)),
                Err(f) => Err(f),
            },
            Err(f) => Err(f),
        }
    }
}

/// The inode number of `isz` bytes at byte `o` of a short-form directory.
fn read_short_ino(buf: &[u8], o: usize, isz: usize) -> (r: Result<u64>)
    requires
        isz == 4 || isz == 8,
        o <= buf.len(),
    ensures
        verdict(r) == short_ino(buf@, o as int, isz as int),
{
    if isz > buf.len() - o {
        return Err(corrupt("short-form directory entry runs off the end"));
    }
    Ok(
        if isz == 8 {
            be64(buf, o)
        } else {
            be32(buf, o) as u64
        },
    )
}

/// Parse a short-form directory. Returns the parent and the entries; `.`
/// and `..` are not stored in this form.
pub fn parse_shortform(sb: &Superblock, fork: &[u8], size: u64) -> (r: Result<(u64, Vec<RawEntry>)>)
    ensures
        match r {
            Ok((parent, entries)) => shortform_of(*sb, fork@, size) == Ok::<(u64, Seq<RawName>), Fault>(
                (parent, views(entries@)),
            ),
            Err(e) => shortform_of(*sb, fork@, size) == Err::<(u64, Seq<RawName>), Fault>(e@),
        },
{
    if size < 6 || size > fork.len() as u64 {
        return Err(Error::Corrupt(numbered("short-form directory of ", size, " bytes")));
    }
    let buf = slice_subrange(fork, 0, size as usize);
    let count: usize = buf[0] as usize;
    let isz: usize = if buf[1] > 0 {
        8
    } else {
        4
    };
    let parent: u64 = read_short_ino(buf, 2, isz)?;
    let ftype: usize = if sb.has_ftype() {
        1
    } else {
        0
    };
    let mut p: usize = 2 + isz;
    let mut out: Vec<RawEntry> = Vec::new();
    let mut i: usize = 0;
    let len: usize = buf.len();
    proof {
        assert(views(out@) =~= Seq::<RawName>::empty());
        lemma_prefixed(views(out@), views(out@), short_entries(*sb, buf@, p as int, isz as int, count as nat));
    }
    while i < count
        invariant
            i <= count,
            len == buf@.len(),
            p <= len,
            isz == 4 || isz == 8,
            ftype == type_len(*sb),
            short_entries(*sb, buf@, 2 + isz, isz as int, count as nat) == prefixed(
                views(out@),
                short_entries(*sb, buf@, p as int, isz as int, (count - i) as nat),
            ),
            shortform_of(*sb, fork@, size) == match short_entries(*sb, buf@, 2 + isz, isz as int, count as nat) {
                Ok(entries) => Ok((parent, entries)),
                Err(f) => Err(f),
            },
        decreases count - i,
    {
        if len - p < 3 {
            return Err(corrupt("short-form directory entry runs off the end"));
        }
        let namelen: usize = buf[p] as usize;
        let name_at: usize = p + 3;
        if namelen == 0 || namelen + ftype > len - name_at {
            return Err(corrupt("short-form directory name runs off the end"));
        }
        let after: usize = name_at + namelen;
        let t: FileType = if ftype == 1 {
            FileType::from_ftype(buf[after])
        } else {
            FileType::Unknown
        };
        let ino: u64 = read_short_ino(buf, after + ftype, isz)?;
        let e = RawEntry { name: cut(buf, name_at, after), ino, ftype: t };
        proof {
            lemma_views_push(out@, e);
            assert(views(out@).push(e@) =~= views(out@) + seq![e@]);
            lemma_prefixed(
                views(out@),
                seq![e@],
                short_entries(*sb, buf@, after + ftype + isz, isz as int, (count - i - 1) as nat),
            );
        }
        out.push(e);
        p = after + ftype + isz;
        i += 1;
    }
    proof {
        assert(views(out@) + Seq::<RawName>::empty() =~= views(out@));
    }
    Ok((parent, out))
}

/// Header length of a directory data block.
pub open spec fn data_header(sb: Superblock) -> int {
    if sb.spec_is_v5() {
        64
    } else {
        16
    }
}

/// The bytes an entry with a name of `namelen` takes: an inode, the length,
/// the name, its type and a tag, rounded up to eight.
pub open spec fn entry_len(sb: Superblock, namelen: int) -> int {
    (8 + 1 + namelen + type_len(sb) + 2 + 7) / 8 * 8
}

/// The complaint that directory `ino` has something wrong with it.
pub open spec fn directory_fault(ino: u64, what: Seq<char>) -> Fault {
    Fault::Corrupt(around("directory "@, ino as nat, what))
}

/// The names from byte `p` of a data block to `end`, with what stopped the
/// listing short, if anything did.
pub open spec fn names_from(sb: Superblock, buf: Seq<u8>, dir_ino: u64, p: int, end: int) -> (
    Seq<RawName>,
    Option<Fault>,
)
    decreases
        if p < end {
            end - p
        } else {
            0
        },
{
    let namelen = buf[p + 8] as int;
    let len = entry_len(sb, namelen);
    let free = be16_at(buf, p + 2) as int;
    if p >= end {
        (Seq::empty(), None)
    } else if p + 8 > end {
        (Seq::empty(), Some(directory_fault(dir_ino, ": entry runs off the block"@)))
    } else if be16_at(buf, p) == 0xffff {
        // Free space: tag, length, ... length again at the end.
        if free < 8 || free % 8 != 0 {
            (Seq::empty(), Some(directory_fault(dir_ino, ": free space of "@ + decimal(free as nat) + " bytes"@)))
        } else {
            names_from(sb, buf, dir_ino, p + free, end)
        }
    } else if p + 9 > end || namelen == 0 || p + len > end {
        (Seq::empty(), Some(directory_fault(dir_ino, ": entry runs off the block"@)))
    } else {
        let e = RawName {
            name: buf.subrange(p + 9, p + 9 + namelen),
            ino: be64_at(buf, p),
            ftype: type_at(sb, buf, p + 9 + namelen),
        };
        let rest = names_from(sb, buf, dir_ino, p + len, end);
        (seq![e] + rest.0, rest.1)
    }
}

/// Why the header of a directory data block is refused, if it is.
pub open spec fn data_header_refusal(sb: Superblock, buf: Seq<u8>, dir_ino: u64) -> Option<Fault> {
    let magic = be32_at(buf, 0);
    if (if sb.spec_is_v5() {
        magic != XDB3 && magic != XDD3
    } else {
        magic != XD2B && magic != XD2D
    }) {
        Some(directory_fault(dir_ino, ": data block magic 0x"@ + numeral(magic as nat, 16)))
    } else if sb.spec_is_v5() && !crc::is_sealed(buf, 4) {
        Some(directory_fault(dir_ino, ": data block checksum"@))
    } else if sb.spec_is_v5() && be64_at(buf, 40) != dir_ino {
        Some(directory_fault(dir_ino, ": data block owned by "@ + decimal(be64_at(buf, 40) as nat)))
    } else {
        None
    }
}

/// Whether a data block is that of a single-block directory.
pub open spec fn is_block_form(buf: Seq<u8>) -> bool {
    be32_at(buf, 0) == XDB3 || be32_at(buf, 0) == XD2B
}

/// Whether a buffer is long enough for what its first bytes make it out to be.
pub open spec fn is_long_enough(sb: Superblock, buf: Seq<u8>) -> bool {
    let magic = be32_at(buf, 0);
    &&& 4 <= buf.len()
    &&& sb.spec_is_v5() && (magic == XDB3 || magic == XDD3) && crc::is_sealed(buf, 4) ==> 48 <= buf.len()
    &&& !sb.spec_is_v5() && magic == XD2B ==> 8 <= buf.len()
}

/// Where the names of a data block end. A single-block directory keeps its
/// hash index and a tail at the end of the same block; names stop where the
/// index starts.
pub open spec fn names_end(buf: Seq<u8>) -> int {
    if is_block_form(buf) {
        buf.len() - (8 + be32_at(buf, buf.len() - 8) * 8)
    } else {
        buf.len() as int
    }
}

/// The names of a data block, with what stopped the listing short, if
/// anything did.
pub open spec fn data_block_names(sb: Superblock, buf: Seq<u8>, dir_ino: u64) -> (Seq<RawName>, Option<Fault>) {
    let end = names_end(buf);
    if data_header_refusal(sb, buf, dir_ino) is Some {
        (Seq::empty(), data_header_refusal(sb, buf, dir_ino))
    } else if is_block_form(buf) && end < data_header(sb) {
        (
            Seq::empty(),
            Some(
                directory_fault(dir_ino, ": block tail count "@ + decimal(be32_at(buf, buf.len() - 8) as nat)),
            ),
        )
    } else {
        names_from(sb, buf, dir_ino, data_header(sb), end)
    }
}

/// A complaint about directory `ino`.
fn directory_error(ino: u64, what: &str) -> (r: Error)
    ensures
        r@ == directory_fault(ino, what@),
{
    Error::Corrupt(numbered("directory ", ino, what))
}

/// Check the header of a directory data block, and return where its names
/// end.
fn check_data_block(sb: &Superblock, buf: &[u8], dir_ino: u64) -> (r: Result<usize>)
    requires
        is_long_enough(*sb, buf@),
    ensures
        match r {
            Ok(end) => data_header_refusal(*sb, buf@, dir_ino) is None && end == names_end(buf@) && end <= buf@.len()
                && (is_block_form(buf@) ==> data_header(*sb) <= end),
            Err(e) => data_block_names(*sb, buf@, dir_ino) == (Seq::<RawName>::empty(), Some(e@)),
        },
{
    proof {
        reveal_strlit("");
    }
    let magic: u32 = be32(buf, 0);
    let v5: bool = sb.is_v5();
    let good: bool = if v5 {
        magic == XDB3 || magic == XDD3
    } else {
        magic == XD2B || magic == XD2D
    };
    if !good {
        let mut what = String::from_str(": data block magic 0x");
        push_numeral(&mut what, magic as u128, 16);
        return Err(directory_error(dir_ino, what.as_str()));
    }
    let hdr: usize = if v5 {
        64
    } else {
        16
    };
    if v5 {
        if !crc::verify(buf, 4) {
            return Err(directory_error(dir_ino, ": data block checksum"));
        }
        let owner: u64 = be64(buf, 40);
        if owner != dir_ino {
            let what = numbered(": data block owned by ", owner, "");
            assert(what@ =~= ": data block owned by "@ + decimal(owner as nat));
            return Err(directory_error(dir_ino, what.as_str()));
        }
    }
    if magic == XDB3 || magic == XD2B {
        let count: u32 = be32(buf, buf.len() - 8);
        let tail: u64 = 8 + count as u64 * 8;
        if tail > buf.len() as u64 || buf.len() as u64 - tail < hdr as u64 {
            let what = numbered(": block tail count ", count as u64, "");
            assert(what@ =~= ": block tail count "@ + decimal(count as nat));
            return Err(directory_error(dir_ino, what.as_str()));
        }
        Ok(buf.len() - tail as usize)
    } else {
        Ok(buf.len())
    }
}

/// Parse one directory data block (`dir_block_size` bytes) of directory
/// `dir_ino`, appending its names to `out`, `.` and `..` included.
pub fn parse_data_block(sb: &Superblock, buf: &[u8], dir_ino: u64, out: &mut Vec<RawEntry>) -> (r: Result<()>)
    requires
        is_long_enough(*sb, buf@),
    ensures
        views(final(out)@) == views(old(out)@) + data_block_names(*sb, buf@, dir_ino).0,
        match r {
            Ok(_) => data_block_names(*sb, buf@, dir_ino).1 is None,
            Err(e) => data_block_names(*sb, buf@, dir_ino).1 == Some(e@),
        },
{
    let ghost before = views(out@);
    let ghost want = data_block_names(*sb, buf@, dir_ino);
    assert(before + Seq::<RawName>::empty() =~= before);
    let end: usize = check_data_block(sb, buf, dir_ino)?;
    let ftype: usize = if sb.has_ftype() {
        1
    } else {
        0
    };
    let mut p: usize = if sb.is_v5() {
        64
    } else {
        16
    };
    while p < end
        invariant
            end <= buf.len(),
            0 <= p,
            ftype == type_len(*sb),
            want == data_block_names(*sb, buf@, dir_ino),
            before == views(old(out)@),
            before + want.0 == views(out@) + names_from(*sb, buf@, dir_ino, p as int, end as int).0,
            want.1 == names_from(*sb, buf@, dir_ino, p as int, end as int).1,
        decreases (if p < end {
            end - p
        } else {
            0
        }),
    {
        assert(views(out@) + Seq::<RawName>::empty() =~= views(out@));
        if end - p < 8 {
            return Err(directory_error(dir_ino, ": entry runs off the block"));
        }
        if be16(buf, p) == 0xffff {
            let len: usize = be16(buf, p + 2) as usize;
            if len < 8 || len % 8 != 0 {
                let what = numbered(": free space of ", len as u64, " bytes");
                return Err(directory_error(dir_ino, what.as_str()));
            }
            assert(names_from(*sb, buf@, dir_ino, p as int, end as int) == names_from(
                *sb,
                buf@,
                dir_ino,
                p + len,
                end as int,
            ));
            if len >= end - p {
                assert(names_from(*sb, buf@, dir_ino, p + len, end as int) == (Seq::<RawName>::empty(), None::<Fault>));
                assert(names_from(*sb, buf@, dir_ino, end as int, end as int) == (Seq::<RawName>::empty(), None::<Fault>));
                p = end;
            } else {
                p += len;
            }
        } else {
            if end - p < 9 {
                return Err(directory_error(dir_ino, ": entry runs off the block"));
            }
            let ino: u64 = be64(buf, p);
            let namelen: usize = buf[p + 8] as usize;
            let len: usize = (8 + 1 + namelen + ftype + 2 + 7) / 8 * 8;
            if namelen == 0 || len > end - p {
                return Err(directory_error(dir_ino, ": entry runs off the block"));
            }
            let t: FileType = if ftype == 1 {
                FileType::from_ftype(buf[p + 9 + namelen])
            } else {
                FileType::Unknown
            };
            let e = RawEntry { name: cut(buf, p + 9, p + 9 + namelen), ino, ftype: t };
            proof {
                let rest = names_from(*sb, buf@, dir_ino, p + len, end as int);
                assert(e@ == RawName {
                    name: buf@.subrange(p + 9, p + 9 + namelen),
                    ino: be64_at(buf@, p as int),
                    ftype: type_at(*sb, buf@, p + 9 + namelen),
                });
                assert(names_from(*sb, buf@, dir_ino, p as int, end as int) == (seq![e@] + rest.0, rest.1));
                lemma_views_push(out@, e);
                assert(views(out@).push(e@) + rest.0 =~= views(out@) + (seq![e@] + rest.0));
            }
            out.push(e);
            p += len;
        }
    }
    assert(views(out@) + Seq::<RawName>::empty() =~= views(out@));
    Ok(())
}

} // verus!
