//! Incompatible features (v5) a reader must understand.

use vstd::prelude::*;

verus! {

/// Directory entries record the file type.
pub const FTYPE: u32 = 0x1;

/// Inode chunks may be sparse.
pub const SPINODES: u32 = 0x2;

/// The metadata UUID differs from the user-visible one.
pub const META_UUID: u32 = 0x4;

/// Timestamps are 64-bit nanosecond counts.
pub const BIGTIME: u32 = 0x8;

/// `xfs_repair` must run before the filesystem is used.
pub const NEEDSREPAIR: u32 = 0x10;

/// Extent counters are 64 bits wide.
pub const NREXT64: u32 = 0x20;

/// File content exchange.
pub const EXCHRANGE: u32 = 0x40;

/// Directory parent pointers, kept as extended attributes.
pub const PARENT: u32 = 0x80;

/// Metadata directory tree.
pub const METADIR: u32 = 0x100;

/// Zoned realtime device.
pub const ZONED: u32 = 0x200;

/// Everything this reader understands. None of these change where a
/// regular file's data, a directory's entries or an attribute is found
/// on the data device.
pub const KNOWN: u32 = FTYPE | SPINODES | META_UUID | BIGTIME | NREXT64 | EXCHRANGE | PARENT | METADIR | ZONED;

} // verus!
