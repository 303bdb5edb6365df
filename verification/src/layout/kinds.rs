//! Types of files: what stands for them in modes, in directories and in
//! listings.

use vstd::prelude::*;

use crate::dir::{letter_of, type_of_byte, type_of_mode, FileType, RawName};
use crate::error::Fault;
use crate::inode::mode;
use crate::sb::Superblock;
use crate::volume::blocks::inode_from;
use crate::volume::names::kind_of;

verus! {

/// What stands above the permissions in the mode of a file of type `k`.
pub open spec fn mode_number(k: FileType) -> int
    recommends
        k != FileType::Unknown,
{
    match k {
        FileType::Fifo => 1,
        FileType::CharDevice => 2,
        FileType::Directory => 4,
        FileType::BlockDevice => 6,
        FileType::File => 8,
        FileType::Symlink => 10,
        FileType::Socket => 12,
        FileType::Unknown => 0,
    }
}

/// The byte that stands for type `k` beside a name.
pub open spec fn type_byte(k: FileType) -> u8 {
    match k {
        FileType::Unknown => 0,
        FileType::File => 1,
        FileType::Directory => 2,
        FileType::CharDevice => 3,
        FileType::BlockDevice => 4,
        FileType::Fifo => 5,
        FileType::Socket => 6,
        FileType::Symlink => 7,
    }
}

proof fn lemma_type_bits(m: u16)
    ensures
        m & mode::IFMT == m / 4096 * 4096,
        m / 4096 < 16,
{
    assert(m & 0o170000 == m / 4096 * 4096 && m / 4096 < 16) by (bit_vector);
}

/// The type that a mode is read as is the one whose number the mode holds, and
/// there is one for each of the seven numbers.
pub proof fn lemma_mode_tells_type(m: u16, k: FileType)
    requires
        k != FileType::Unknown,
    ensures
        type_of_mode(m) == k <==> m as int / 4096 == mode_number(k),
        m & mode::IFMT == mode::IFDIR <==> type_of_mode(m) == FileType::Directory,
        m & mode::IFMT == mode::IFLNK <==> type_of_mode(m) == FileType::Symlink,
        m & mode::IFMT == mode::IFREG <==> type_of_mode(m) == FileType::File,
        m & mode::IFMT == mode::IFCHR <==> type_of_mode(m) == FileType::CharDevice,
        m & mode::IFMT == mode::IFBLK <==> type_of_mode(m) == FileType::BlockDevice,
        m & mode::IFMT == mode::IFIFO <==> type_of_mode(m) == FileType::Fifo,
        m & mode::IFMT == mode::IFSOCK <==> type_of_mode(m) == FileType::Socket,
{
    lemma_type_bits(m);
}

/// A type written beside a name reads back, and no other byte reads as a type.
pub proof fn lemma_type_byte_reads_back(k: FileType, b: u8)
    ensures
        type_of_byte(type_byte(k)) == k,
        type_of_byte(b) != FileType::Unknown <==> 1 <= b <= 7,
        type_of_byte(b) != FileType::Unknown ==> type_byte(type_of_byte(b)) == b,
{
}

/// Whether a type byte is the one that XFS writes beside a name of an inode
/// with mode `m`.
pub open spec fn is_byte_of_mode(b: u8, m: u16) -> bool {
    let number = m as int / 4096;
    ||| b == 1 && number == 8
    ||| b == 2 && number == 4
    ||| b == 3 && number == 2
    ||| b == 4 && number == 6
    ||| b == 5 && number == 1
    ||| b == 6 && number == 12
    ||| b == 7 && number == 10
}

/// A listing agrees with `stat`: where the byte beside a name is that of the
/// mode of the inode it names, the kind listed is the one that the mode tells,
/// which is also the one listed where no types are recorded.
pub proof fn lemma_listed_kind_is_inode_kind(sb: Superblock, img: Seq<u8>, e: RawName, b: u8)
    requires
        e.ftype == type_of_byte(b),
        inode_from(sb, img, e.ino) is Ok,
        is_byte_of_mode(b, inode_from(sb, img, e.ino)->Ok_0.mode),
    ensures
        kind_of(sb, img, e) == Ok::<FileType, Fault>(type_of_mode(inode_from(sb, img, e.ino)->Ok_0.mode)),
        kind_of(sb, img, e) == kind_of(sb, img, RawName { ftype: FileType::Unknown, ..e }),
{
    lemma_type_bits(inode_from(sb, img, e.ino)->Ok_0.mode);
}

/// Names with different type bytes, or inodes with different types, are not
/// listed alike.
pub proof fn lemma_types_differ(b: u8, c: u8, m: u16, n: u16)
    ensures
        1 <= b <= 7 && 1 <= c <= 7 && type_of_byte(b) == type_of_byte(c) ==> b == c,
        is_byte_of_mode(b, m) && is_byte_of_mode(c, n) && type_of_mode(m) == type_of_mode(n) ==> m / 4096 == n / 4096,
{
    lemma_type_bits(m);
    lemma_type_bits(n);
}

/// The letter listed for a file is the one that its mode's number has in a long
/// listing, and different types have different letters.
pub proof fn lemma_letters(m: u16, a: FileType, b: FileType)
    ensures
        letter_of(a) == letter_of(b) ==> a == b,
        ({
            let number = m as int / 4096;
            letter_of(type_of_mode(m)) == if number == 1 {
                'p'
            } else if number == 2 {
                'c'
            } else if number == 4 {
                'd'
            } else if number == 6 {
                'b'
            } else if number == 8 {
                '-'
            } else if number == 10 {
                'l'
            } else if number == 12 {
                's'
            } else {
                '?'
            }
        }),
{
    lemma_type_bits(m);
}

} // verus!
