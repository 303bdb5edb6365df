//! File type and permission bits of `mode`.

use vstd::prelude::*;

verus! {

/// The file type mask.
pub const IFMT: u16 = 0o170000;

/// Socket.
pub const IFSOCK: u16 = 0o140000;

/// Symbolic link.
pub const IFLNK: u16 = 0o120000;

/// Regular file.
pub const IFREG: u16 = 0o100000;

/// Block device.
pub const IFBLK: u16 = 0o060000;

/// Directory.
pub const IFDIR: u16 = 0o040000;

/// Character device.
pub const IFCHR: u16 = 0o020000;

/// FIFO.
pub const IFIFO: u16 = 0o010000;

} // verus!
