//! Userspace file I/O into **XFS**.
//!
//! Read the files inside an XFS filesystem image or volume with no kernel,
//! no mount and no loop device, so it works unprivileged, in a container,
//! on a Mac, and against storage that is not a block device at all.
//!
//! # What it reads
//!
//! Version 4 and version 5 (CRC) filesystems, with every v5 metadata
//! checksum checked: inodes of every version, with local, extent-list and
//! B+tree forks; directories in all four forms (short form, block, leaf and
//! node); inline and remote symlinks; extended attributes in short form,
//! leaf and node blocks, with remote values, and XFS's ACLs presented as
//! Linux presents them (`system.posix_acl_*`); bigtime timestamps and
//! 64-bit extent counters.
//!
//! What it does not: files on a realtime device, and replaying the log.
//! Read a filesystem that was cleanly unmounted.
//!
//! # Getting a tree out
//!
//! [`Volume::walk`] lists a tree; [`Volume::pack_tar_to`] streams it as a
//! tar archive with everything intact (the import path);
//! [`Volume::extract_step`] says what to make of each name to copy it into a
//! local directory.
//!
//! # What is proved
//!
//! What every operation returns is a function of the superblock and of the
//! bytes on the device, written down as a spec function: `fork_map`,
//! `contents_of`, `names_of`, `target_of`, `xattrs_of`, `resolved`,
//! `walk_of`, `archive_of`. An operation returns just what its function says,
//! error texts included, or a failure that the device reports for reasons of
//! its own.

pub mod arith;
pub mod attr;
pub mod bmap;
pub mod bytes;
pub mod crc;
pub mod device;
pub mod dir;
pub mod error;
pub mod export;
pub mod inode;
pub mod integrity;
pub mod layout;
pub mod sb;
pub mod sort;
pub mod tar;
pub mod text;
pub mod volume;

pub use attr::Xattr;
pub use device::{BlockDevice, MemDevice};
pub use dir::FileType;
pub use error::{Error, Result};
pub use export::{ExtractOptions, ExtractReport, PackReport};
pub use inode::{Inode, Timestamp};
pub use sb::Superblock;
pub use volume::{Entry, Stat, Volume, WalkEntry};
