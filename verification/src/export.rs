//! Getting a tree out: into a tar stream, or onto the local filesystem.

pub mod copied;
pub mod counted;
pub mod extract;
pub mod faithful;
pub mod pack;

use vstd::prelude::*;

use crate::arith::wrapped;
use crate::bytes::views;

verus! {

/// File content is read and written in pieces this large.
pub const CHUNK: u64 = 0x10_0000;

/// What [`crate::Volume::pack_tar_to`] wrote.
#[derive(Debug, Clone, PartialEq, Eq)]
pub struct PackReport {
    /// Regular files read out.
    pub files: u64,
    /// Directories.
    pub directories: u64,
    /// Symbolic links.
    pub symlinks: u64,
    /// Hard links: names beyond the first for one inode.
    pub hard_links: u64,
    /// Device nodes and FIFOs.
    pub devices: u64,
    /// Sockets, which tar cannot hold and are left out.
    pub sockets_skipped: u64,
    /// Extended attributes carried across.
    pub xattrs: u64,
    /// Bytes of file content read.
    pub bytes: u64,
}

/// What there is to report, counted without limit.
pub struct Tally {
    pub files: nat,
    pub directories: nat,
    pub symlinks: nat,
    pub hard_links: nat,
    pub devices: nat,
    pub sockets_skipped: nat,
    pub xattrs: nat,
    pub bytes: nat,
}

impl Tally {
    /// Nothing to report.
    pub open spec fn none() -> Tally {
        Tally {
            files: 0,
            directories: 0,
            symlinks: 0,
            hard_links: 0,
            devices: 0,
            sockets_skipped: 0,
            xattrs: 0,
            bytes: 0,
        }
    }

    /// Both of two things to report.
    pub open spec fn plus(self, other: Tally) -> Tally {
        Tally {
            files: self.files + other.files,
            directories: self.directories + other.directories,
            symlinks: self.symlinks + other.symlinks,
            hard_links: self.hard_links + other.hard_links,
            devices: self.devices + other.devices,
            sockets_skipped: self.sockets_skipped + other.sockets_skipped,
            xattrs: self.xattrs + other.xattrs,
            bytes: self.bytes + other.bytes,
        }
    }

    /// How many names there are to report on.
    pub open spec fn names(self) -> nat {
        self.files + self.directories + self.symlinks + self.hard_links + self.devices + self.sockets_skipped
    }
}

impl PackReport {
    /// Whether this reports `t`. Names are counted in full, attributes and
    /// bytes as far as 64 bits go.
    pub open spec fn reports(&self, t: Tally) -> bool {
        &&& self.files == t.files
        &&& self.directories == t.directories
        &&& self.symlinks == t.symlinks
        &&& self.hard_links == t.hard_links
        &&& self.devices == t.devices
        &&& self.sockets_skipped == t.sockets_skipped
        &&& self.xattrs == wrapped(t.xattrs as int)
        &&& self.bytes == wrapped(t.bytes as int)
    }

    /// How many names are reported on.
    pub open spec fn names(&self) -> int {
        self.files + self.directories + self.symlinks + self.hard_links + self.devices + self.sockets_skipped
    }
}

impl Default for PackReport {
    fn default() -> (r: Self)
        ensures
            r.reports(Tally::none()),
    {
        PackReport {
            files: 0,
            directories: 0,
            symlinks: 0,
            hard_links: 0,
            devices: 0,
            sockets_skipped: 0,
            xattrs: 0,
            bytes: 0,
        }
    }
}

/// How a tree is copied out.
#[derive(Debug, Clone, Copy)]
pub struct ExtractOptions {
    /// Set each name's owner and group, which takes root (or `CAP_CHOWN`).
    pub owner: bool,
}

impl Default for ExtractOptions {
    fn default() -> (r: Self)
        ensures
            !r.owner,
    {
        ExtractOptions { owner: false }
    }
}

/// What copying a tree out wrote.
#[derive(Debug, Clone, PartialEq, Eq)]
pub struct ExtractReport {
    /// Regular files.
    pub files: u64,
    /// Directories.
    pub directories: u64,
    /// Symbolic links.
    pub symlinks: u64,
    /// Hard links: names beyond the first for one inode.
    pub hard_links: u64,
    /// Bytes of file content.
    pub bytes: u64,
    /// Device nodes, FIFOs and sockets, which are not created: that takes
    /// `mknod`, and root. Their paths.
    pub specials_skipped: Vec<String>,
    /// Extended attributes found and not applied. A tar archive
    /// ([`crate::Volume::pack_tar_to`]) carries them; a plain directory copy
    /// does not.
    pub xattrs_skipped: u64,
}

/// An [`ExtractReport`] as contracts speak of it.
#[verifier::ext_equal]
pub struct ExtractReportView {
    pub files: u64,
    pub directories: u64,
    pub symlinks: u64,
    pub hard_links: u64,
    pub bytes: u64,
    pub specials_skipped: Seq<Seq<char>>,
    pub xattrs_skipped: u64,
}

impl View for ExtractReport {
    type V = ExtractReportView;

    open spec fn view(&self) -> ExtractReportView {
        ExtractReportView {
            files: self.files,
            directories: self.directories,
            symlinks: self.symlinks,
            hard_links: self.hard_links,
            bytes: self.bytes,
            specials_skipped: views(self.specials_skipped@),
            xattrs_skipped: self.xattrs_skipped,
        }
    }
}

impl ExtractReportView {
    /// Nothing to report.
    pub open spec fn none() -> ExtractReportView {
        ExtractReportView {
            files: 0,
            directories: 0,
            symlinks: 0,
            hard_links: 0,
            bytes: 0,
            specials_skipped: Seq::empty(),
            xattrs_skipped: 0,
        }
    }

    /// How many names are reported on.
    pub open spec fn names(self) -> int {
        self.files + self.directories + self.symlinks + self.hard_links + self.specials_skipped.len()
    }
}

impl Default for ExtractReport {
    fn default() -> (r: Self)
        ensures
            r@ == ExtractReportView::none(),
    {
        let r = ExtractReport {
            files: 0,
            directories: 0,
            symlinks: 0,
            hard_links: 0,
            bytes: 0,
            specials_skipped: Vec::new(),
            xattrs_skipped: 0,
        };
        assert(r@ =~= ExtractReportView::none());
        r
    }
}

} // verus!
