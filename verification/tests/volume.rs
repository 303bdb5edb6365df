//! Filesystems laid out by hand in memory, read back.

use std::sync::atomic::{AtomicBool, Ordering};
use std::sync::Mutex;

use fio_xfs::bmap::Extent;
use fio_xfs::crc::crc32c;
use fio_xfs::export::extract::{sparse_runs, Action, Extraction, Run};
use fio_xfs::inode::Format;
use fio_xfs::tar::Io;
use fio_xfs::{BlockDevice, Error, FileType, MemDevice, Superblock, Timestamp, Volume};

const BS: usize = 1024;
const INODE: usize = 512;
const AG_BLOCKS: u64 = 200;
const AG_SPAN: u64 = 256;
const ROOT: u64 = 64;

const DIR: u16 = 0o040755;
const REG: u16 = 0o100644;
const LNK: u16 = 0o120777;

fn put(b: &mut [u8], at: usize, bytes: &[u8]) {
    b[at..at + bytes.len()].copy_from_slice(bytes);
}

fn put16(b: &mut [u8], at: usize, v: u16) {
    put(b, at, &v.to_be_bytes());
}

fn put32(b: &mut [u8], at: usize, v: u32) {
    put(b, at, &v.to_be_bytes());
}

fn put64(b: &mut [u8], at: usize, v: u64) {
    put(b, at, &v.to_be_bytes());
}

/// Write the checksum of `b` into it at `at`.
fn seal(b: &mut [u8], at: usize) {
    put(b, at, &[0; 4]);
    let c = crc32c(b);
    put(b, at, &c.to_le_bytes());
}

fn record(offset: u64, block: u64, count: u64, unwritten: bool) -> Vec<u8> {
    let l0 = (unwritten as u64) << 63 | offset << 9 | block >> 43;
    let l1 = (block & ((1 << 43) - 1)) << 21 | count;
    let mut r = l0.to_be_bytes().to_vec();
    r.extend_from_slice(&l1.to_be_bytes());
    r
}

/// An inode to be written.
#[derive(Clone)]
struct Node {
    mode: u16,
    size: u64,
    format: u8,
    nextents: u64,
    fork: Vec<u8>,
    attr: Option<(u8, u16, Vec<u8>)>,
    links: u32,
    uid: u32,
    gid: u32,
    mtime: (u32, u32),
    nblocks: u64,
    flags: u16,
}

fn node(mode: u16) -> Node {
    Node {
        mode,
        size: 0,
        format: 2,
        nextents: 0,
        fork: Vec::new(),
        attr: None,
        links: 1,
        uid: 7,
        gid: 8,
        mtime: (1000, 0),
        nblocks: 10,
        flags: 0,
    }
}

/// A filesystem of two allocation groups in memory.
struct Disk {
    data: Vec<u8>,
    v5: bool,
    ftype: bool,
    dirblk_log: u8,
}

impl Disk {
    fn new(v5: bool, ftype: bool) -> Disk {
        let mut d =
            Disk { data: vec![0; 2 * AG_BLOCKS as usize * BS], v5, ftype, dirblk_log: 0 };
        d.superblock();
        d
    }

    fn superblock(&mut self) {
        let v5 = self.v5;
        let ftype = self.ftype;
        let log = self.dirblk_log;
        let b = &mut self.data[..512];
        put32(b, 0, 0x5846_5342);
        put32(b, 4, BS as u32);
        put64(b, 8, 2 * AG_BLOCKS);
        put(b, 32, b"0123456789abcdef");
        put64(b, 56, ROOT);
        put32(b, 84, AG_BLOCKS as u32);
        put32(b, 88, 2);
        put16(b, 100, if v5 { 5 } else { 0xa004 });
        put16(b, 102, 512);
        put16(b, 104, INODE as u16);
        put16(b, 106, (BS / INODE) as u16);
        put(b, 108, b"hand\xffmade");
        b[120] = 10;
        b[123] = 1;
        b[124] = 8;
        put64(b, 128, 64);
        put64(b, 136, 3);
        put64(b, 144, 99);
        b[192] = log;
        if v5 {
            put32(b, 216, if ftype { 1 } else { 0 });
            seal(b, 224);
        } else {
            put32(b, 200, if ftype { 0x200 } else { 0 });
        }
    }

    fn block_at(fsb: u64) -> usize {
        ((fsb / AG_SPAN) * AG_BLOCKS + fsb % AG_SPAN) as usize * BS
    }

    fn inode_at(ino: u64) -> usize {
        Disk::block_at(ino / 2) + (ino % 2) as usize * INODE
    }

    fn inode(&mut self, ino: u64, n: &Node) {
        let core = if self.v5 { 176 } else { 100 };
        let mut b = vec![0u8; INODE];
        put(&mut b, 0, b"IN");
        put16(&mut b, 2, n.mode);
        b[4] = if self.v5 { 3 } else { 2 };
        b[5] = n.format;
        put32(&mut b, 8, n.uid);
        put32(&mut b, 12, n.gid);
        put32(&mut b, 16, n.links);
        put16(&mut b, 20, 5);
        put16(&mut b, 22, 1);
        put32(&mut b, 40, n.mtime.0);
        put32(&mut b, 44, n.mtime.1);
        put64(&mut b, 56, n.size);
        put64(&mut b, 64, n.nblocks);
        put32(&mut b, 76, n.nextents as u32);
        put16(&mut b, 90, n.flags);
        put32(&mut b, 92, 77);
        put(&mut b, core, &n.fork);
        if let Some((format, extents, fork)) = &n.attr {
            let off = (n.fork.len() + 7) / 8 * 8;
            b[82] = (off / 8) as u8;
            b[83] = *format;
            put16(&mut b, 80, *extents);
            put(&mut b, core + off, fork);
        }
        if self.v5 {
            put64(&mut b, 152, ino);
            seal(&mut b, 100);
        }
        put(&mut self.data, Disk::inode_at(ino), &b);
    }

    fn block(&mut self, fsb: u64, b: &[u8]) {
        put(&mut self.data, Disk::block_at(fsb), b);
    }

    /// A short-form directory's fork.
    fn shortform(&self, parent: u32, names: &[(&[u8], u32, u8)]) -> Vec<u8> {
        let mut f = vec![names.len() as u8, 0];
        f.extend_from_slice(&parent.to_be_bytes());
        for (name, ino, t) in names {
            f.push(name.len() as u8);
            f.extend_from_slice(&[0, 0]);
            f.extend_from_slice(name);
            if self.ftype {
                f.push(*t);
            }
            f.extend_from_slice(&ino.to_be_bytes());
        }
        f
    }

    fn short_dir(&mut self, ino: u64, parent: u32, names: &[(&[u8], u32, u8)]) {
        let fork = self.shortform(parent, names);
        self.inode(ino, &Node { size: fork.len() as u64, format: 1, fork, links: 2, ..node(DIR) });
    }

    /// A directory data block of `len` bytes.
    fn dir_block(&self, len: usize, owner: u64, single: bool, names: &[(&[u8], u64, u8)]) -> Vec<u8> {
        let mut b = vec![0u8; len];
        let (hdr, magic) = match (self.v5, single) {
            (true, true) => (64, 0x5844_4233),
            (true, false) => (64, 0x5844_4433),
            (false, true) => (16, 0x5844_3242),
            (false, false) => (16, 0x5844_3244),
        };
        put32(&mut b, 0, magic);
        let end = if single { len - 8 - 8 * names.len() } else { len };
        let mut p = hdr;
        for (name, ino, t) in names {
            put64(&mut b, p, *ino);
            b[p + 8] = name.len() as u8;
            put(&mut b, p + 9, name);
            if self.ftype {
                b[p + 9 + name.len()] = *t;
            }
            p += (9 + name.len() + self.ftype as usize + 2 + 7) / 8 * 8;
        }
        if p < end {
            put16(&mut b, p, 0xffff);
            put16(&mut b, p + 2, (end - p) as u16);
        }
        if single {
            put32(&mut b, len - 8, names.len() as u32);
        }
        if self.v5 {
            put64(&mut b, 40, owner);
            seal(&mut b, 4);
        }
        b
    }

    fn open(&self) -> Volume<MemDevice> {
        Volume::open(MemDevice::new(self.data.clone())).unwrap()
    }
}

/// A file of one written extent.
fn file(d: &mut Disk, ino: u64, fsb: u64, content: &[u8]) -> Node {
    let blocks = content.len().div_ceil(BS) as u64;
    d.block(fsb, content);
    let n = Node {
        size: content.len() as u64,
        nextents: 1,
        fork: record(0, fsb, blocks, false),
        ..node(REG)
    };
    d.inode(ino, &n);
    n
}

fn inline_link(d: &mut Disk, ino: u64, target: &[u8]) {
    d.inode(
        ino,
        &Node { size: target.len() as u64, format: 1, fork: target.to_vec(), ..node(LNK) },
    );
}

/// A root with a file, a directory, links of several kinds and more.
fn small(v5: bool, ftype: bool) -> Disk {
    let mut d = Disk::new(v5, ftype);
    d.short_dir(
        ROOT,
        ROOT as u32,
        &[
            (b"hello.txt", 70, 1),
            (b"sub", 71, 2),
            (b"to-hello", 72, 7),
            (b"abs", 73, 7),
            (b"loop", 74, 7),
            (b"dangling", 75, 7),
            (b"fifo", 78, 5),
        ],
    );
    file(&mut d, 70, 100, b"hello\n");
    d.short_dir(71, ROOT as u32, &[(b"inner", 76, 1), (b"up", 77, 7)]);
    inline_link(&mut d, 72, b"hello.txt");
    inline_link(&mut d, 73, b"/sub/inner");
    inline_link(&mut d, 74, b"loop");
    inline_link(&mut d, 75, b"nowhere/at/all");
    file(&mut d, 76, 101, b"inner bytes");
    inline_link(&mut d, 77, b"../hello.txt");
    d.inode(78, &Node { format: 0, fork: vec![0; 4], ..node(0o010600) });
    d
}

fn text(e: &Error) -> String {
    e.message()
}

fn err<T>(r: Result<T, Error>) -> String {
    match r {
        Ok(_) => panic!("an error was expected"),
        Err(e) => text(&e),
    }
}

// ---- superblocks ---------------------------------------------------------------

#[test]
fn superblock_fields_are_read() {
    let d = Disk::new(true, true);
    let v = d.open();
    let sb = v.superblock();
    assert_eq!(sb.block_size, 1024);
    assert_eq!(sb.data_blocks, 400);
    assert_eq!(&sb.uuid, b"0123456789abcdef");
    assert_eq!(sb.root_ino, 64);
    assert_eq!((sb.ag_blocks, sb.ag_count), (200, 2));
    assert_eq!(sb.version, 5);
    assert_eq!((sb.sector_size, sb.inode_size, sb.inodes_per_block), (512, 512, 2));
    assert_eq!(sb.label, "hand\u{fffd}made");
    assert_eq!((sb.block_log, sb.inopb_log, sb.agblk_log, sb.dirblk_log), (10, 1, 8, 0));
    assert_eq!((sb.icount, sb.ifree, sb.free_blocks), (64, 3, 99));
    assert!(sb.is_v5() && sb.has_ftype() && !sb.has_parent() && !sb.has_nrext64());
    assert_eq!(sb.dir_block_size(), 1024);
    assert_eq!(v.device().size(), 400 * 1024);
}

#[test]
fn superblock_refusals() {
    let good = Disk::new(true, true).data;
    let parse = |f: &dyn Fn(&mut Vec<u8>)| {
        let mut b = good[..512].to_vec();
        f(&mut b);
        err(Superblock::parse(&b))
    };
    let resealed = |f: &dyn Fn(&mut Vec<u8>)| {
        parse(&|b| {
            f(b);
            seal(b, 224);
        })
    };
    assert_eq!(err(Superblock::parse(&good[..511])), "not an XFS filesystem: fewer than 512 bytes");
    assert_eq!(parse(&|b| b[0] = 0), "not an XFS filesystem: no XFSB magic at byte 0");
    assert_eq!(parse(&|b| b[300] = 1), "corrupt filesystem: superblock checksum");
    assert_eq!(parse(&|b| put16(b, 100, 3)), "unsupported: superblock version 3");
    assert_eq!(parse(&|b| put16(b, 100, 4)), "unsupported: version 1 directories");
    assert_eq!(
        parse(&|b| {
            put16(b, 100, 0xa004);
            put32(b, 200, 0x100);
        }),
        "corrupt filesystem: v4 superblock with the CRC feature"
    );
    assert_eq!(
        parse(&|b| put16(b, 102, 1024)),
        "corrupt filesystem: superblock buffer shorter than a sector"
    );
    assert_eq!(
        resealed(&|b| put32(b, 216, 0x8001)),
        "unsupported: incompatible features 0x8000"
    );
    // A filesystem that needs repair is among those not understood.
    assert_eq!(resealed(&|b| put32(b, 216, 0x10)), "unsupported: incompatible features 0x10");
    for f in [
        (&|b: &mut Vec<u8>| put32(b, 4, 256)) as &dyn Fn(&mut Vec<u8>),
        &|b| b[120] = 11,
        &|b| b[120] = 40,
        &|b| put16(b, 104, 128),
        &|b| put16(b, 106, 4),
        &|b| b[123] = 2,
        &|b| put32(b, 84, 0),
        &|b| put32(b, 84, 257),
        &|b| put32(b, 88, 0),
        &|b| b[124] = 32,
        &|b| b[192] = 7,
        &|b| b[192] = 48,
        &|b| b[192] = 255,
    ] {
        assert_eq!(resealed(f), "corrupt filesystem: superblock geometry");
    }
}

#[test]
fn a_device_must_hold_the_filesystem() {
    let d = Disk::new(true, true);
    assert_eq!(
        err(Volume::open(MemDevice::new(vec![0; 100]))),
        "not an XFS filesystem: device smaller than a sector"
    );
    let short = d.data[..300 * 1024].to_vec();
    assert_eq!(
        err(Volume::open(MemDevice::new(short))),
        "corrupt filesystem: the filesystem is 400 blocks of 1024 bytes, the device 307200 bytes"
    );
    let back = d.open().into_device().into_inner();
    assert!(back == d.data);
}

#[test]
fn corruption_is_caught() {
    let d = small(true, true);
    let vol = d.open();
    let ino = vol.lookup("/hello.txt").unwrap();
    let at = vol.superblock().ino_to_byte(ino).unwrap();

    // One flipped bit in the inode's timestamps fails its checksum.
    let mut data = d.data.clone();
    data[at as usize + 40] ^= 1;
    let vol = Volume::open(MemDevice::new(data.clone())).unwrap();
    assert!(matches!(vol.stat("/hello.txt"), Err(Error::Corrupt(_))));

    // And one in the superblock refuses the filesystem.
    data[at as usize + 40] ^= 1;
    data[200] ^= 1;
    assert!(matches!(Volume::open(MemDevice::new(data)), Err(Error::Corrupt(_))));

    // Something that is not XFS at all.
    let r = Volume::open(MemDevice::new(vec![0u8; 1 << 20]));
    assert!(matches!(r, Err(Error::NotXfs(_))));
}

#[test]
fn any_damaged_inode_byte_is_caught() {
    let d = small(true, true);
    let at = Disk::inode_at(70);
    for k in 0..INODE {
        let mut data = d.data.clone();
        data[at + k] ^= 0x40;
        let vol = Volume::open(MemDevice::new(data)).unwrap();
        assert!(matches!(vol.inode(70), Err(Error::Corrupt(_))), "byte {k}");
    }
}

#[test]
fn block_and_inode_numbers_carry_a_group() {
    let d = Disk::new(true, true);
    let v = d.open();
    let sb = v.superblock();
    assert_eq!(sb.fsb_to_byte(5).unwrap(), 5 * 1024);
    assert_eq!(sb.fsb_to_byte(256).unwrap(), 200 * 1024);
    assert_eq!(sb.fsb_to_byte(256 + 199).unwrap(), 399 * 1024);
    assert_eq!(err(sb.fsb_to_byte(200)), "corrupt filesystem: block 200 outside the filesystem");
    assert_eq!(err(sb.fsb_to_byte(512)), "corrupt filesystem: block 512 outside the filesystem");
    assert_eq!(sb.ino_to_byte(65).unwrap(), 32 * 1024 + 512);
    assert_eq!(sb.ino_to_byte(512 + 3).unwrap(), 201 * 1024 + 512);
    assert_eq!(err(sb.ino_to_byte(0)), "corrupt filesystem: inode 0 outside the filesystem");
    assert_eq!(err(sb.ino_to_byte(1024)), "corrupt filesystem: inode 1024 outside the filesystem");
}

/// A device that writes down where it is read, and fails when told to.
struct Watched {
    inner: MemDevice,
    reads: Mutex<Vec<(u64, usize)>>,
    failing: AtomicBool,
}

impl Watched {
    fn new(data: Vec<u8>) -> Watched {
        let inner = MemDevice::new(data);
        Watched { inner, reads: Mutex::new(Vec::new()), failing: AtomicBool::new(false) }
    }
}

impl BlockDevice for Watched {
    fn size(&self) -> u64 {
        self.inner.size()
    }

    fn read_at(&self, offset: u64, buf: &mut [u8]) -> Result<(), Error> {
        self.reads.lock().unwrap().push((offset, buf.len()));
        if self.failing.load(Ordering::Relaxed) {
            return Err(Error::Unsupported("a broken device".to_string()));
        }
        self.inner.read_at(offset, buf)
    }
}

#[test]
fn reads_are_whole_blocks_after_the_first() {
    // Sectors larger than the first read, which blocks do not divide.
    let mut d = small(true, true);
    put16(&mut d.data, 102, 5000);
    seal(&mut d.data[..5000], 224);
    let v = Volume::open(Watched::new(d.data)).unwrap();
    assert_eq!(*v.device().reads.lock().unwrap(), [(0, 4096), (0, 5120)]);
    v.pack_tar("/").unwrap();
    for (at, len) in &v.device().reads.lock().unwrap()[1..] {
        assert_eq!((at % BS as u64, len % BS), (0, 0));
    }
}

#[test]
fn what_is_not_read_cannot_fail() {
    let mut d = small(true, true);
    d.inode(79, &Node { size: 5, format: 1, fork: b"abcde".to_vec(), ..node(REG) });
    let v = Volume::open(Watched::new(d.data)).unwrap();
    let (file, link, dir) = (v.inode(70).unwrap(), v.inode(72).unwrap(), v.inode(71).unwrap());
    let inline = v.inode(79).unwrap();
    v.device().failing.store(true, Ordering::Relaxed);
    let before = v.device().reads.lock().unwrap().len();
    assert_eq!(err(v.symlink_target(&file)), "not a symbolic link: inode 70");
    assert_eq!(v.symlink_target(&link).unwrap(), b"hello.txt");
    assert!(v.xattrs_inode(&file).unwrap().is_empty());
    assert_eq!(v.extents(&file, false).unwrap().len(), 1);
    assert_eq!(v.read_dir_inode(&dir).unwrap().len(), 2);
    assert_eq!(err(v.read_dir_inode(&file)), "not a directory: inode 70");
    assert_eq!(v.read_inode_range(&inline, &[], 1, 3).unwrap(), b"bcd");
    assert_eq!(v.read_inode_range(&file, &[], 0, 6).unwrap(), [0; 6]);
    assert!(v.read_inode_range(&file, &[], 6, 6).unwrap().is_empty());
    assert_eq!(v.resolve(b"/", true).unwrap(), ROOT);
    assert_eq!(v.lookup("/.").unwrap(), ROOT);
    assert!(v.path_exists("").unwrap());
    assert_eq!(err(v.inode(0)), "corrupt filesystem: inode 0 outside the filesystem");
    assert_eq!(v.device().reads.lock().unwrap().len(), before);
    assert_eq!(err(v.read("/hello.txt")), "unsupported: a broken device");
}

// ---- inodes ----------------------------------------------------------------------

#[test]
fn stat_tells_what_the_inode_says() {
    let d = small(true, true);
    let v = d.open();
    let st = v.stat("/hello.txt").unwrap();
    assert_eq!((st.inode, st.size, st.mode, st.links), (70, 6, REG, 1));
    assert_eq!((st.uid, st.gid, st.blocks), (7, 8, 20));
    assert_eq!(st.mtime, Timestamp { secs: 1000, nsecs: 0 });
    assert_eq!(st.crtime, Some(Timestamp { secs: 0, nsecs: 0 }));
    assert_eq!(st.rdev, (0, 0));
    assert!(st.is_file() && !st.is_dir() && !st.is_symlink());
    assert_eq!(st.kind(), FileType::File);
    assert!(v.stat("/sub").unwrap().is_dir());
    assert!(v.stat("/abs").unwrap().is_symlink());
    let i = v.inode(70).unwrap();
    assert_eq!((i.projid, i.generation, i.version), (0x1_0005, 77, 3));
}

#[test]
fn old_and_new_times() {
    let mut d = small(true, true);
    let n = Node { mtime: (0xffff_fffe, 500_000_000), ..node(REG) };
    d.inode(70, &n);
    assert_eq!(d.open().stat("/hello.txt").unwrap().mtime, Timestamp { secs: -2, nsecs: 500_000_000 });

    // Nanoseconds counted from 2^31 seconds before the epoch.
    let at = Disk::inode_at(70);
    let mut b = d.data[at..at + INODE].to_vec();
    put64(&mut b, 120, 0x8 | 0x10);
    put64(&mut b, 40, ((1u64 << 31) + 5_000_000_000) * 1_000_000_000 + 42);
    put64(&mut b, 24, 3);
    put32(&mut b, 76, 9);
    seal(&mut b, 100);
    d.block(35, &b);
    let i = d.open().inode(70).unwrap();
    assert_eq!(i.mtime, Timestamp { secs: 5_000_000_000, nsecs: 42 });
    assert_eq!((i.nextents, i.anextents), (3, 9));
}

#[test]
fn inode_refusals() {
    let d = small(true, true);
    let at = Disk::inode_at(70);
    let change = |f: &dyn Fn(&mut Vec<u8>)| {
        let mut b = d.data[at..at + INODE].to_vec();
        f(&mut b);
        seal(&mut b, 100);
        let mut data = d.data.clone();
        put(&mut data, at, &b);
        err(Volume::open(MemDevice::new(data)).unwrap().inode(70))
    };
    assert_eq!(change(&|b| b[0] = 0), "corrupt filesystem: inode 70: bad magic");
    assert_eq!(change(&|b| b[4] = 2), "corrupt filesystem: inode 70: version 2");
    assert_eq!(change(&|b| put64(b, 152, 9)), "corrupt filesystem: inode 70: records itself as 9");
    assert_eq!(change(&|b| b[5] = 4), "corrupt filesystem: data fork format 4");
    assert_eq!(change(&|b| b[82] = 42), "corrupt filesystem: inode 70: fork offset 336");
    assert_eq!(
        change(&|b| {
            b[82] = 2;
            b[83] = 9;
        }),
        "corrupt filesystem: attribute fork format 9"
    );
    let v = d.open();
    assert_eq!(
        err(fio_xfs::Inode::parse(v.superblock(), 70, &[0; 511])),
        "corrupt filesystem: inode 70: short buffer"
    );
    let mut data = d.data.clone();
    data[at + 99] ^= 1;
    assert_eq!(
        err(Volume::open(MemDevice::new(data)).unwrap().inode(70)),
        "corrupt filesystem: inode 70: checksum"
    );
}

#[test]
fn device_numbers() {
    let mut d = small(true, true);
    let dev = (259u32 << 18 | 70000).to_be_bytes().to_vec();
    d.inode(78, &Node { format: 0, fork: dev, ..node(0o020600) });
    let st = d.open().stat("/fifo").unwrap();
    assert_eq!(st.kind(), FileType::CharDevice);
    assert_eq!(st.rdev, (259, 70000));
    // What is no device node has no device number, whatever its fork holds.
    d.inode(78, &Node { format: 0, fork: vec![0, 4, 0, 3], ..node(0o010600) });
    let v = d.open();
    assert_eq!(v.stat("/fifo").unwrap().rdev, (0, 0));
    assert_eq!(v.inode(78).unwrap().device(), (1, 3));
    d.inode(78, &Node { format: 0, fork: vec![0, 4, 0, 3], ..node(0o060600) });
    assert_eq!(d.open().stat("/fifo").unwrap().rdev, (1, 3));
}

// ---- paths ------------------------------------------------------------------------

fn paths_through(d: &Disk) {
    let v = d.open();
    assert_eq!(v.read("/hello.txt").unwrap(), b"hello\n");
    assert_eq!(v.read("hello.txt").unwrap(), b"hello\n");
    assert_eq!(v.read("//sub/.//../hello.txt").unwrap(), b"hello\n");
    assert_eq!(v.read("/../../hello.txt").unwrap(), b"hello\n");
    assert_eq!(v.read("/to-hello").unwrap(), b"hello\n");
    assert_eq!(v.read("/abs").unwrap(), b"inner bytes");
    assert_eq!(v.read("/sub/up").unwrap(), b"hello\n");
    assert_eq!(err(v.read("/loop")), "too many levels of symbolic links: /loop");
    assert_eq!(err(v.read("/nope")), "no such file or directory: /nope");
    assert_eq!(err(v.read("/dangling")), "no such file or directory: /dangling");
    assert_eq!(err(v.read("/hello.txt/x")), "not a directory: /hello.txt/x");
    assert_eq!(err(v.read("/sub")), "is a directory: /sub");
    assert_eq!(err(v.read("/fifo")), "unsupported: /fifo: not a regular file");
    assert_eq!(err(v.read_dir("/hello.txt")), "not a directory: /hello.txt");
    assert_eq!(err(v.read_link("/sub")), "not a symbolic link: /sub");
    assert!(v.path_exists("/dangling").unwrap());
    assert!(v.path_exists("/").unwrap());
    assert!(!v.path_exists("/sub/none").unwrap());
    assert!(matches!(v.path_exists("/hello.txt/x"), Err(Error::NotADirectory(_))));
    assert_eq!(v.read_link("/abs").unwrap(), "/sub/inner");
    assert_eq!(v.read_link_bytes("/sub/up").unwrap(), b"../hello.txt");
    assert_eq!(v.lookup("/").unwrap(), ROOT);
    assert_eq!(v.lookup("/to-hello").unwrap(), 72);
    assert_eq!(v.resolve(b"/to-hello", true).unwrap(), 70);
    let names: Vec<String> = v.read_dir("/sub").unwrap().into_iter().map(|e| e.name).collect();
    assert_eq!(names, ["inner", "up"]);
    let kinds: Vec<FileType> = v.read_dir("/").unwrap().iter().map(|e| e.kind).collect();
    assert_eq!(kinds[0], FileType::File);
    assert_eq!(kinds[1], FileType::Directory);
    assert_eq!(kinds[6], FileType::Fifo);
    assert!(v.read_dir("/").unwrap()[1].is_dir);
}

#[test]
fn paths_on_v5() {
    paths_through(&small(true, true));
}

#[test]
fn paths_on_v4_with_types() {
    let d = small(false, true);
    assert!(!d.open().superblock().is_v5() && d.open().superblock().has_ftype());
    paths_through(&d);
}

#[test]
fn paths_on_v4_without_types() {
    let d = small(false, false);
    assert!(!d.open().superblock().has_ftype());
    paths_through(&d);
}

#[test]
fn names_that_are_not_utf8_keep_their_bytes() {
    let mut d = Disk::new(true, true);
    d.short_dir(ROOT, ROOT as u32, &[(b"a\xffb", 70, 1)]);
    file(&mut d, 70, 100, b"x");
    let v = d.open();
    let e = &v.read_dir("/").unwrap()[0];
    assert_eq!(e.name, "a\u{fffd}b");
    assert_eq!(e.raw_name, b"a\xffb");
    assert_eq!(v.resolve(b"/a\xffb", false).unwrap(), 70);
    let w = &v.walk("/").unwrap()[0];
    assert_eq!((w.path.as_str(), w.raw_path.as_slice()), ("a\u{fffd}b", &b"a\xffb"[..]));
}

// ---- files --------------------------------------------------------------------------

/// Two written blocks, a hole, an unwritten block and one more in the other
/// group.
fn holey() -> (Disk, Vec<u8>) {
    let mut d = small(true, true);
    let mut want = vec![0u8; 5 * BS - 100];
    for (i, c) in want.iter_mut().enumerate() {
        let b = i / BS;
        *c = if b == 2 || b == 3 { 0 } else { (i * 7 % 251) as u8 + 1 };
    }
    d.block(100, &want[..2 * BS]);
    d.block(110, &vec![9u8; BS]);
    d.block(256 + 50, &want[4 * BS..]);
    let mut fork = record(0, 100, 2, false);
    fork.extend_from_slice(&record(3, 110, 1, true));
    fork.extend_from_slice(&record(4, 256 + 50, 1, false));
    d.inode(70, &Node { size: want.len() as u64, nextents: 3, fork, ..node(REG) });
    (d, want)
}

#[test]
fn holes_and_unwritten_extents_read_as_zeroes() {
    let (d, want) = holey();
    let v = d.open();
    assert!(v.read("/hello.txt").unwrap() == want);
    let i = v.inode(70).unwrap();
    let e = v.extents(&i, false).unwrap();
    assert_eq!(e.len(), 3);
    assert_eq!(e[1], Extent { offset: 3, block: 110, count: 1, unwritten: true });
}

#[test]
fn a_range_is_a_slice_of_the_whole() {
    let (d, want) = holey();
    let v = d.open();
    for (off, len) in [(0, 10), (1000, 100), (2000, 2000), (5000, 1000), (0, 0), (4000, u64::MAX)] {
        let got = v.read_range("/hello.txt", off, len).unwrap();
        let end = off.saturating_add(len).min(want.len() as u64) as usize;
        assert!(got == want[off as usize..end], "{off}+{len}");
    }
    assert!(v.read_range("/hello.txt", want.len() as u64, 5).unwrap().is_empty());
    assert!(v.read_range("/hello.txt", u64::MAX, 5).unwrap().is_empty());
}

#[test]
fn inline_and_realtime_files() {
    let mut d = small(true, true);
    d.inode(70, &Node { size: 5, format: 1, fork: b"abcde".to_vec(), ..node(REG) });
    assert_eq!(d.open().read_range("/hello.txt", 1, 3).unwrap(), b"bcd");
    d.inode(70, &Node { size: 1000, format: 1, fork: b"abcde".to_vec(), ..node(REG) });
    assert_eq!(
        err(d.open().read("/hello.txt")),
        "corrupt filesystem: inode 70: inline data past the fork"
    );
    d.inode(70, &Node { size: 5, flags: 1, ..node(REG) });
    assert_eq!(
        err(d.open().read("/hello.txt")),
        "unsupported: inode 70: data on the realtime device"
    );
}

#[test]
fn extents_that_do_not_add_up() {
    let mut d = small(true, true);
    let mut fork = record(0, 100, 2, false);
    fork.extend_from_slice(&record(1, 110, 1, false));
    d.inode(70, &Node { size: 5000, nextents: 2, fork, ..node(REG) });
    assert_eq!(
        err(d.open().read("/hello.txt")),
        "corrupt filesystem: overlapping extents at logical blocks 0 and 1"
    );
    d.inode(70, &Node { size: 5000, nextents: 40, ..node(REG) });
    assert_eq!(
        err(d.open().read("/hello.txt")),
        "corrupt filesystem: 40 extents do not fit in the fork"
    );
    d.inode(70, &Node { size: 50, nextents: 1, fork: record(0, 210, 1, false), ..node(REG) });
    assert_eq!(
        err(d.open().read("/hello.txt")),
        "corrupt filesystem: block 210 outside the filesystem"
    );
}

#[test]
fn a_run_stays_inside_its_group() {
    let mut d = small(true, true);
    // From the last block of one group to the first of the next.
    d.inode(70, &Node { size: 58 * 1024, nextents: 1, fork: record(0, 199, 58, false), ..node(REG) });
    let v = d.open();
    assert_eq!(
        err(v.read("/hello.txt")),
        "corrupt filesystem: blocks 199 to 256 are not in one allocation group"
    );
    // As far as the group goes it can be read.
    assert_eq!(v.read_range("/hello.txt", 0, 1024).unwrap().len(), 1024);
    // A group's last block is not followed by the next group's first.
    d.inode(70, &Node { size: 2048, nextents: 1, fork: record(0, 199, 2, false), ..node(REG) });
    assert_eq!(
        err(d.open().read("/hello.txt")),
        "corrupt filesystem: block 200 outside the filesystem"
    );
}

#[test]
fn extents_are_read_in_any_order() {
    let (d, want) = holey();
    let v = d.open();
    let i = v.inode(70).unwrap();
    let mut e = v.extents(&i, false).unwrap();
    e.reverse();
    // One of no blocks says nothing.
    e.insert(1, Extent { offset: 1, block: 0, count: 0, unwritten: false });
    assert!(v.read_inode_range(&i, &e, 0, u64::MAX).unwrap() == want);
    assert!(v.read_inode_range(&i, &e, 1500, 3000).unwrap() == want[1500..4500]);
    assert!(v.read_inode_range(&i, &[], 0, 10).unwrap() == [0; 10]);
}

/// A B+tree block of a v5 filesystem.
fn tree_block(level: u16, owner: u64, keys: &[u64], ptrs: &[u64], recs: &[Vec<u8>]) -> Vec<u8> {
    let mut b = vec![0u8; BS];
    put32(&mut b, 0, 0x424d_4133);
    put16(&mut b, 4, level);
    put16(&mut b, 6, if level == 0 { recs.len() } else { ptrs.len() } as u16);
    put64(&mut b, 56, owner);
    if level == 0 {
        for (i, r) in recs.iter().enumerate() {
            put(&mut b, 72 + i * 16, r);
        }
    } else {
        let room = (BS - 72) / 16;
        for (i, p) in ptrs.iter().enumerate() {
            put64(&mut b, 72 + i * 8, keys[i]);
            put64(&mut b, 72 + room * 8 + i * 8, *p);
        }
    }
    seal(&mut b, 64);
    b
}

/// A data fork that holds the root of a B+tree.
fn tree_root(level: u16, ptrs: &[u64]) -> Vec<u8> {
    let len = INODE - 176;
    let mut f = vec![0u8; len];
    put16(&mut f, 0, level);
    put16(&mut f, 2, ptrs.len() as u16);
    let room = (len - 4) / 16;
    for (i, p) in ptrs.iter().enumerate() {
        put64(&mut f, 4 + room * 8 + i * 8, *p);
    }
    f
}

#[test]
fn a_tree_of_extents_reads_in_order() {
    let mut d = small(true, true);
    for i in 0..4u64 {
        d.block(100 + i, &vec![b'a' + i as u8; BS]);
    }
    let one = |i: u64| record(i, 100 + i, 1, false);
    // Two levels below the root: a node over two leaves, and a leaf's sibling.
    d.block(120, &tree_block(0, 70, &[], &[], &[one(0), one(1)]));
    d.block(121, &tree_block(0, 70, &[], &[], &[one(2)]));
    d.block(122, &tree_block(0, 70, &[], &[], &[one(3)]));
    d.block(123, &tree_block(1, 70, &[0, 2], &[120, 121], &[]));
    d.block(124, &tree_block(1, 70, &[3], &[122], &[]));
    let n = Node {
        size: 4 * BS as u64,
        format: 3,
        nextents: 4,
        fork: tree_root(2, &[123, 124]),
        ..node(REG)
    };
    d.inode(70, &n);
    let v = d.open();
    let got = v.read("/hello.txt").unwrap();
    assert_eq!(got.len(), 4 * BS);
    assert!((0..4).all(|i| got[i * BS..(i + 1) * BS].iter().all(|&c| c == b'a' + i as u8)));
    let offsets: Vec<u64> =
        v.extents(&v.inode(70).unwrap(), false).unwrap().iter().map(|e| e.offset).collect();
    assert_eq!(offsets, [0, 1, 2, 3]);

    let fails = |f: &dyn Fn(&mut Disk)| {
        let mut e = Disk { data: d.data.clone(), v5: true, ftype: true, dirblk_log: 0 };
        f(&mut e);
        err(e.open().read("/hello.txt"))
    };
    assert_eq!(
        fails(&|e| e.inode(70, &Node { nextents: 5, ..n.clone() })),
        "corrupt filesystem: inode 70: 4 extents in the B+tree, 5 recorded"
    );
    assert_eq!(
        fails(&|e| e.inode(70, &Node { fork: tree_root(2, &[123, 123]), ..n.clone() })),
        "corrupt filesystem: inode 70: bmap B+tree loops"
    );
    assert_eq!(
        fails(&|e| e.inode(70, &Node { nblocks: 2, ..n.clone() })),
        "corrupt filesystem: inode 70: bmap B+tree loops"
    );
    assert_eq!(
        fails(&|e| e.inode(70, &Node { fork: tree_root(1, &[123]), ..n.clone() })),
        "corrupt filesystem: inode 70: bmap block 123 at level 1, expected 0"
    );
    assert_eq!(
        fails(&|e| e.inode(70, &Node { fork: tree_root(0, &[123]), ..n.clone() })),
        "corrupt filesystem: B+tree root: level 0, 1 records"
    );
    assert_eq!(
        fails(&|e| e.block(121, &tree_block(0, 71, &[], &[], &[one(2)]))),
        "corrupt filesystem: bmap block 121: owned by 71"
    );
    assert_eq!(
        fails(&|e| e.data[Disk::block_at(121) + 900] ^= 1),
        "corrupt filesystem: bmap block 121: checksum"
    );
    assert_eq!(
        fails(&|e| e.data[Disk::block_at(121)] ^= 1),
        "corrupt filesystem: bmap block 121: bad magic"
    );
    assert_eq!(
        fails(&|e| {
            let mut b = tree_block(0, 70, &[], &[], &[one(2)]);
            put16(&mut b, 6, 60);
            seal(&mut b, 64);
            e.block(121, &b);
        }),
        "corrupt filesystem: bmap block 121: 60 records"
    );
}

// ---- directories ------------------------------------------------------------------------

#[test]
fn single_block_directories() {
    for v5 in [true, false] {
        let mut d = small(v5, true);
        let b = d.dir_block(
            BS,
            71,
            true,
            &[(b".", 71, 2), (b"..", 64, 2), (b"inner", 76, 1), (b"z", 70, 1)],
        );
        d.block(130, &b);
        d.inode(71, &Node { size: BS as u64, nextents: 1, fork: record(0, 130, 1, false), ..node(DIR) });
        let v = d.open();
        let names: Vec<(String, u64)> =
            v.read_dir("/sub").unwrap().into_iter().map(|e| (e.name, e.inode)).collect();
        assert_eq!(names, [("inner".to_string(), 76), ("z".to_string(), 70)]);
        assert_eq!(v.read("/sub/../sub/inner").unwrap(), b"inner bytes");
    }
}

#[test]
fn many_block_directories_skip_holes_and_indexes() {
    let mut d = small(true, true);
    d.dirblk_log = 1;
    d.superblock();
    // Directory blocks of two blocks each: the first in two pieces, then a
    // hole, then one more; the index lies above the names and is not read.
    let first = d.dir_block(2 * BS, 71, false, &[(b".", 71, 2), (b"..", 64, 2), (b"one", 70, 1)]);
    let third = d.dir_block(2 * BS, 71, false, &[(b"two", 76, 1)]);
    d.block(130, &first[..BS]);
    d.block(140, &first[BS..]);
    d.block(150, &third);
    d.block(160, &vec![0xee; BS]);
    let index = (1u64 << 35) / BS as u64;
    let mut fork = record(0, 130, 1, false);
    fork.extend_from_slice(&record(1, 140, 1, false));
    fork.extend_from_slice(&record(4, 150, 2, false));
    fork.extend_from_slice(&record(index, 160, 1, false));
    d.inode(71, &Node { size: 6 * BS as u64, nextents: 4, fork, ..node(DIR) });
    let v = d.open();
    assert_eq!(v.superblock().dir_block_size(), 2048);
    let names: Vec<String> = v.read_dir("/sub").unwrap().into_iter().map(|e| e.name).collect();
    assert_eq!(names, ["one", "two"]);
}

#[test]
fn directory_block_refusals() {
    let base = small(true, true);
    let with = |f: &dyn Fn(&mut Vec<u8>)| {
        let mut d = Disk { data: base.data.clone(), v5: true, ftype: true, dirblk_log: 0 };
        let mut b = d.dir_block(BS, 71, true, &[(b".", 71, 2), (b"..", 64, 2), (b"x", 70, 1)]);
        f(&mut b);
        d.block(130, &b);
        d.inode(71, &Node { size: BS as u64, nextents: 1, fork: record(0, 130, 1, false), ..node(DIR) });
        err(d.open().read_dir("/sub"))
    };
    let sealed = |f: &dyn Fn(&mut Vec<u8>)| {
        with(&|b| {
            f(b);
            seal(b, 4);
        })
    };
    let said = |s: &str| format!("corrupt filesystem: directory 71: {s}");
    assert_eq!(with(&|b| b[500] ^= 1), said("data block checksum"));
    assert_eq!(sealed(&|b| put32(b, 0, 0x1234_abcd)), said("data block magic 0x1234abcd"));
    assert_eq!(sealed(&|b| put64(b, 40, 3)), said("data block owned by 3"));
    assert_eq!(sealed(&|b| put32(b, BS - 8, 500)), said("block tail count 500"));
    assert_eq!(sealed(&|b| b[64 + 8] = 0), said("entry runs off the block"));
    assert_eq!(
        sealed(&|b| {
            put16(b, 64, 0xffff);
            put16(b, 66, 12);
        }),
        said("free space of 12 bytes")
    );
}

#[test]
fn short_directory_refusals() {
    let base = small(true, true);
    let with = |size: u64, f: &dyn Fn(&mut Vec<u8>)| {
        let mut d = Disk { data: base.data.clone(), v5: true, ftype: true, dirblk_log: 0 };
        let mut fork = d.shortform(ROOT as u32, &[(b"x", 70, 1)]);
        f(&mut fork);
        d.inode(71, &Node { size, format: 1, fork, ..node(DIR) });
        err(d.open().read_dir("/sub"))
    };
    assert_eq!(with(5, &|_| {}), "corrupt filesystem: short-form directory of 5 bytes");
    assert_eq!(with(400, &|_| {}), "corrupt filesystem: short-form directory of 400 bytes");
    assert_eq!(
        with(8, &|_| {}),
        "corrupt filesystem: short-form directory entry runs off the end"
    );
    assert_eq!(
        with(15, &|f| f[6] = 0),
        "corrupt filesystem: short-form directory name runs off the end"
    );
    assert_eq!(
        with(14, &|_| {}),
        "corrupt filesystem: short-form directory entry runs off the end"
    );
}

// ---- symlinks ---------------------------------------------------------------------------------

fn link_run(owner: u64, at: u32, part: &[u8], blocks: usize) -> Vec<u8> {
    let mut b = vec![0u8; blocks * BS];
    put32(&mut b, 0, 0x5853_4c4d);
    put32(&mut b, 4, at);
    put32(&mut b, 8, part.len() as u32);
    put64(&mut b, 32, owner);
    put(&mut b, 56, part);
    seal(&mut b, 12);
    b
}

#[test]
fn remote_symlinks() {
    let target: Vec<u8> = (0..1000).map(|i| b'a' + (i % 26) as u8).collect();
    let mut d = small(true, true);
    d.block(140, &link_run(72, 0, &target[..900], 1));
    d.block(150, &link_run(72, 900, &target[900..], 2));
    let mut fork = record(0, 140, 1, false);
    fork.extend_from_slice(&record(1, 150, 2, false));
    let n = Node { size: 1000, nextents: 2, fork, ..node(LNK) };
    d.inode(72, &n);
    assert!(d.open().read_link_bytes("/to-hello").unwrap() == target);

    let said = |s: &str| format!("corrupt filesystem: inode 72: {s}");
    d.inode(72, &Node { size: 1001, ..n.clone() });
    assert_eq!(err(d.open().read_link("/to-hello")), said("symlink blocks hold 1000 of 1001 bytes"));
    d.inode(72, &Node { size: 1025, ..n.clone() });
    assert_eq!(err(d.open().read_link("/to-hello")), said("symlink of 1025 bytes"));
    d.inode(72, &Node { size: 0, ..n.clone() });
    assert_eq!(err(d.open().read_link("/to-hello")), said("symlink of 0 bytes"));
    d.inode(72, &Node { fork: record(0, 140, 1, true), nextents: 1, ..n.clone() });
    assert_eq!(err(d.open().read_link("/to-hello")), said("unwritten symlink block"));
    d.inode(72, &Node { fork: record(3, 150, 2, false), nextents: 1, ..n.clone() });
    assert_eq!(err(d.open().read_link("/to-hello")), said("remote symlink block 3"));
    d.inode(72, &Node { size: 400, format: 1, fork: vec![b'x'; 10], ..node(LNK) });
    assert_eq!(err(d.open().read_link("/to-hello")), said("inline symlink past the fork"));

    let mut d = small(false, true);
    d.block(140, &target);
    d.inode(72, &Node { size: 1000, nextents: 1, fork: record(0, 140, 1, false), ..node(LNK) });
    assert!(d.open().read_link_bytes("/to-hello").unwrap() == target);
    let v = d.open();
    assert_eq!(err(v.symlink_target(&v.inode(70).unwrap())), "not a symbolic link: inode 70");
}

// ---- extended attributes --------------------------------------------------------------------------

fn short_attrs(list: &[(u8, &[u8], &[u8])]) -> Vec<u8> {
    let mut f = vec![0, 0, list.len() as u8, 0];
    for (flags, name, value) in list {
        f.extend_from_slice(&[name.len() as u8, value.len() as u8, *flags]);
        f.extend_from_slice(name);
        f.extend_from_slice(value);
    }
    let len = f.len() as u16;
    put16(&mut f, 0, len);
    f
}

fn listed(v: &Volume<MemDevice>, path: &str) -> Vec<(String, Vec<u8>)> {
    v.list_xattrs(path).unwrap().into_iter().map(|x| (x.name, x.value)).collect()
}

#[test]
fn short_form_attributes_in_every_namespace() {
    let mut d = small(true, true);
    let n = file(&mut d, 70, 100, b"hello\n");
    let attrs = short_attrs(&[
        (0, b"greeting", b"hi"),
        (4, b"selinux", b"ctx"),
        (2, b"secret", b"x"),
        (0x08, b"parent", b"p"),
        (0x80, b"torn", b"t"),
        (0, b"\xff", b""),
    ]);
    d.inode(70, &Node { attr: Some((1, 0, attrs)), ..n.clone() });
    let v = d.open();
    assert_eq!(
        listed(&v, "/hello.txt"),
        [
            ("user.greeting".to_string(), b"hi".to_vec()),
            ("security.selinux".to_string(), b"ctx".to_vec()),
            ("trusted.secret".to_string(), b"x".to_vec()),
            ("user.\u{fffd}".to_string(), Vec::new()),
        ]
    );
    assert_eq!(v.get_xattr("/hello.txt", "user.greeting").unwrap().unwrap(), b"hi");
    assert_eq!(v.get_xattr("/hello.txt", "user.nothing").unwrap(), None);
    assert!(listed(&v, "/sub").is_empty());

    let mut attrs = short_attrs(&[(0, b"a", b"b")]);
    attrs[4] = 200;
    d.inode(70, &Node { attr: Some((1, 0, attrs)), ..n.clone() });
    assert_eq!(
        err(d.open().list_xattrs("/hello.txt")),
        "corrupt filesystem: short-form attribute runs off the fork"
    );
    // A fork made ready and never used, and one of a kind attributes never have.
    d.inode(70, &Node { attr: Some((2, 0, Vec::new())), ..n.clone() });
    assert!(listed(&d.open(), "/hello.txt").is_empty());
    d.inode(70, &Node { attr: Some((0, 0, Vec::new())), ..n });
    assert_eq!(
        err(d.open().list_xattrs("/hello.txt")),
        "corrupt filesystem: inode 70: device-format attributes"
    );
}

#[test]
fn acls_read_as_linux_shows_them() {
    let mut d = small(true, true);
    let n = file(&mut d, 70, 100, b"hello\n");
    let mut acl = vec![0u8; 4 + 2 * 12];
    put32(&mut acl, 0, 2);
    put32(&mut acl, 4, 1);
    put32(&mut acl, 8, 55);
    put16(&mut acl, 12, 6);
    put32(&mut acl, 16, 2);
    put32(&mut acl, 20, 1000);
    put16(&mut acl, 24, 4);
    let attrs = short_attrs(&[(2, b"SGI_ACL_FILE", &acl), (2, b"SGI_ACL_DEFAULT", &acl[..4])]);
    d.inode(70, &Node { attr: Some((1, 0, attrs)), ..n.clone() });
    assert_eq!(
        err(d.open().list_xattrs("/hello.txt")),
        "corrupt filesystem: ACL shorter than its entries"
    );
    let attrs = short_attrs(&[(2, b"SGI_ACL_FILE", &acl), (2, b"SGI_ACL_DEFAULT", &[0, 0, 0, 0])]);
    d.inode(70, &Node { attr: Some((1, 0, attrs)), ..n });
    let got = listed(&d.open(), "/hello.txt");
    assert_eq!(got[0].0, "system.posix_acl_access");
    assert_eq!(
        got[0].1,
        [2, 0, 0, 0, 1, 0, 6, 0, 255, 255, 255, 255, 2, 0, 4, 0, 232, 3, 0, 0]
    );
    assert_eq!(got[1], ("system.posix_acl_default".to_string(), vec![2, 0, 0, 0]));
    assert_eq!(err(fio_xfs::attr::posix_acl(&[0; 3])), "corrupt filesystem: ACL shorter than its count");
}

enum Held<'a> {
    Here(&'a [u8]),
    There(u32, u32),
}

/// An attribute leaf of a v5 filesystem.
fn attr_leaf(owner: u64, forw: u32, list: &[(&[u8], Held)]) -> Vec<u8> {
    let mut b = vec![0u8; BS];
    put32(&mut b, 0, forw);
    put16(&mut b, 8, 0x3bee);
    put64(&mut b, 48, owner);
    put16(&mut b, 56, list.len() as u16);
    let mut at = BS;
    for (i, (name, held)) in list.iter().enumerate() {
        let e = 80 + i * 8;
        let mut rec = Vec::new();
        match held {
            Held::Here(value) => {
                rec.extend_from_slice(&(value.len() as u16).to_be_bytes());
                rec.push(name.len() as u8);
                rec.extend_from_slice(name);
                rec.extend_from_slice(value);
                b[e + 6] = 1;
            }
            Held::There(blk, len) => {
                rec.extend_from_slice(&blk.to_be_bytes());
                rec.extend_from_slice(&len.to_be_bytes());
                rec.push(name.len() as u8);
                rec.extend_from_slice(name);
            }
        }
        at -= rec.len();
        put(&mut b, at, &rec);
        put16(&mut b, e + 4, at as u16);
    }
    seal(&mut b, 12);
    b
}

fn value_block(owner: u64, part: &[u8]) -> Vec<u8> {
    let mut b = vec![0u8; BS];
    put32(&mut b, 0, 0x5841_524d);
    put32(&mut b, 8, part.len() as u32);
    put64(&mut b, 32, owner);
    put(&mut b, 56, part);
    seal(&mut b, 12);
    b
}

#[test]
fn attribute_nodes_leaves_and_remote_values() {
    let mut d = small(true, true);
    let n = file(&mut d, 70, 100, b"hello\n");
    let big: Vec<u8> = (0..1500).map(|i| (i % 256) as u8).collect();
    let mut root = vec![0u8; BS];
    put16(&mut root, 8, 0x3ebe);
    put64(&mut root, 48, 70);
    put16(&mut root, 56, 2);
    put32(&mut root, 64 + 4, 1);
    seal(&mut root, 12);
    d.block(160, &root);
    d.block(161, &attr_leaf(70, 2, &[(b"first", Held::Here(b"1")), (b"big", Held::There(3, 1500))]));
    d.block(162, &attr_leaf(70, 0, &[(b"last", Held::Here(b"2"))]));
    d.block(163, &value_block(70, &big[..968]));
    d.block(164, &value_block(70, &big[968..]));
    let n = Node { attr: Some((2, 1, record(0, 160, 5, false))), ..n };
    d.inode(70, &n);
    let v = d.open();
    let got = listed(&v, "/hello.txt");
    assert_eq!(
        got.iter().map(|x| x.0.as_str()).collect::<Vec<_>>(),
        ["user.first", "user.big", "user.last"]
    );
    assert!(got[1].1 == big);
    assert_eq!(v.get_xattr("/hello.txt", "user.last").unwrap().unwrap(), b"2");

    let fails = |f: &dyn Fn(&mut Disk)| {
        let mut e = Disk { data: d.data.clone(), v5: true, ftype: true, dirblk_log: 0 };
        f(&mut e);
        err(e.open().list_xattrs("/hello.txt"))
    };
    let said = |s: &str| format!("corrupt filesystem: inode 70: {s}");
    assert_eq!(
        fails(&|e| e.block(162, &attr_leaf(70, 1, &[]))),
        said("attribute blocks loop")
    );
    assert_eq!(
        fails(&|e| e.block(162, &attr_leaf(71, 0, &[]))),
        said("attribute block 2 owned by 71")
    );
    assert_eq!(fails(&|e| e.data[Disk::block_at(162) + 900] ^= 1), said("attribute block 2 checksum"));
    assert_eq!(fails(&|e| e.block(162, &vec![0; BS])), said("attribute block 2 magic 0x0"));
    assert_eq!(
        fails(&|e| {
            let mut b = attr_leaf(70, 0, &[]);
            put16(&mut b, 56, 200);
            seal(&mut b, 12);
            e.block(162, &b);
        }),
        said("attribute leaf 2 count 200")
    );
    assert_eq!(
        fails(&|e| {
            let mut b = attr_leaf(70, 0, &[(b"x", Held::Here(b"y"))]);
            put16(&mut b, 84, 1023);
            seal(&mut b, 12);
            e.block(162, &b);
        }),
        said("attribute leaf 2 entry 0")
    );
    assert_eq!(
        fails(&|e| {
            let mut b = root.clone();
            put16(&mut b, 56, 0);
            seal(&mut b, 12);
            e.block(160, &b);
        }),
        said("empty attribute node 0")
    );
    assert_eq!(
        fails(&|e| e.block(164, &value_block(71, &big[968..]))),
        said("remote attribute value block")
    );
    assert_eq!(
        fails(&|e| e.block(164, &value_block(70, &big[968..1400]))),
        said("remote attribute user.big")
    );
    // More than was announced, too.
    assert_eq!(
        fails(&|e| {
            e.block(161, &attr_leaf(70, 0, &[(b"big", Held::There(3, 900))]));
        }),
        said("remote attribute user.big")
    );
    assert_eq!(
        fails(&|e| {
            let mut b = value_block(70, &[]);
            put32(&mut b, 8, 2000);
            seal(&mut b, 12);
            e.block(164, &b);
        }),
        said("remote attribute value of 2000 bytes")
    );
}

// ---- walking and packing ------------------------------------------------------------------------------

#[test]
fn a_walk_is_depth_first_in_byte_order() {
    let v = small(true, true).open();
    let paths: Vec<String> = v.walk("/").unwrap().into_iter().map(|e| e.path).collect();
    assert_eq!(
        paths,
        ["abs", "dangling", "fifo", "hello.txt", "loop", "sub", "sub/inner", "sub/up", "to-hello"]
    );
    assert_eq!(v.walk("/sub").unwrap()[0].path, "inner");
    assert_eq!(err(v.walk("/hello.txt")), "not a directory: /hello.txt");
    let mut seen = Vec::new();
    v.walk_each("/sub", |e, i| {
        seen.push((e.path.clone(), i.ino));
        Ok(())
    })
    .unwrap();
    assert_eq!(seen, [("inner".to_string(), 76), ("up".to_string(), 77)]);
    let mut n = 0;
    let r = v.walk_each("/", |_, _| {
        n += 1;
        if n == 3 {
            return Err(Error::InvalidPath("enough".to_string()));
        }
        Ok(())
    });
    assert_eq!(err(r), "invalid path: enough");
    assert_eq!(n, 3);
}

#[test]
fn following_gives_what_the_target_gives() {
    let v = small(true, true).open();
    for path in ["/", "/hello.txt", "/sub", "/sub/inner", "/fifo"] {
        let n = v.resolve(path.as_bytes(), false).unwrap();
        assert_eq!(v.resolve(path.as_bytes(), true).unwrap(), n);
    }
    let target = v.read_link_bytes("/abs").unwrap();
    assert_eq!(v.resolve(b"/abs", true).unwrap(), v.resolve(&target, true).unwrap());
    for path in ["", "/", "//", "/./.", "."] {
        assert_eq!(v.resolve(path.as_bytes(), true).unwrap(), ROOT);
    }
}

#[test]
fn what_is_listed_is_found_by_its_path() {
    let v = small(true, true).open();
    let mut met = 0;
    v.walk_each("/", |e, i| {
        assert_eq!(v.lookup(&e.path).unwrap(), i.ino);
        assert_eq!(v.resolve(&e.raw_path, false).unwrap(), i.ino);
        met += 1;
        Ok(())
    })
    .unwrap();
    assert_eq!(met, 9);
    for dir in ["/", "/sub"] {
        for e in v.read_dir(dir).unwrap() {
            assert_eq!(v.lookup(&format!("{dir}/{}", e.name)).unwrap(), e.inode);
        }
    }
}

#[test]
fn a_directory_in_two_places_is_refused() {
    let mut d = small(true, true);
    d.short_dir(71, ROOT as u32, &[(b"again", 71, 2)]);
    assert_eq!(err(d.open().walk("/")), "corrupt filesystem: directory 71 reached twice");
    d.short_dir(71, ROOT as u32, &[(b"top", ROOT as u32, 2)]);
    assert_eq!(err(d.open().walk("/")), "corrupt filesystem: directory 64 reached twice");
}

fn octal(f: &[u8]) -> u64 {
    f.iter().take_while(|c| (b'0'..=b'7').contains(c)).fold(0, |n, c| n * 8 + (c - b'0') as u64)
}

/// The entries of an archive: name, kind, link, size and what follows.
fn entries(b: &[u8]) -> Vec<(String, u8, String, Vec<u8>)> {
    let mut out = Vec::new();
    let mut at = 0;
    let cstr = |f: &[u8]| {
        let n = f.iter().position(|&c| c == 0).unwrap_or(f.len());
        String::from_utf8_lossy(&f[..n]).into_owned()
    };
    while b[at..at + 512].iter().any(|&c| c != 0) {
        let h = &b[at..at + 512];
        let sum: u64 = (0..512).map(|i| if (148..156).contains(&i) { 32 } else { h[i] as u64 }).sum();
        assert_eq!(octal(&h[148..156]), sum, "header checksum");
        let size = octal(&h[124..136]) as usize;
        let data = b[at + 512..at + 512 + size].to_vec();
        out.push((cstr(&h[..100]), h[156], cstr(&h[157..257]), data));
        at += 512 + size.div_ceil(512) * 512;
    }
    assert_eq!(at + 1024, b.len());
    assert!(b[at..].iter().all(|&c| c == 0));
    out
}

fn packable() -> Disk {
    let mut d = Disk::new(true, true);
    d.short_dir(
        ROOT,
        ROOT as u32,
        &[
            (b"a", 70, 1),
            (b"b", 70, 1),
            (b"dir", 71, 2),
            (b"link", 72, 7),
            (b"null", 73, 3),
            (b"sock", 74, 6),
        ],
    );
    let n = file(&mut d, 70, 100, b"twice");
    let attrs = short_attrs(&[(0, b"k", b"v")]);
    d.inode(70, &Node { links: 2, attr: Some((1, 0, attrs)), ..n });
    d.short_dir(71, ROOT as u32, &[(b"x", 75, 1)]);
    inline_link(&mut d, 72, b"a");
    d.inode(73, &Node { format: 0, fork: (1u32 << 18 | 3).to_be_bytes().to_vec(), ..node(0o020666) });
    d.inode(74, &node(0o140755));
    file(&mut d, 75, 101, &[b'y'; 600]);
    d
}

#[test]
fn a_tree_packs_in_order_with_links_and_devices() {
    let v = packable().open();
    let archive = v.pack_tar("/").unwrap();
    assert_eq!(archive.len() % 512, 0);
    let got = entries(&archive);
    let named: Vec<(&str, u8)> = got.iter().map(|e| (e.0.as_str(), e.1)).collect();
    assert_eq!(
        named,
        [
            ("PaxHeaders/a", b'x'),
            ("a", b'0'),
            ("b", b'1'),
            ("dir/", b'5'),
            ("dir/x", b'0'),
            ("link", b'2'),
            ("null", b'3'),
        ]
    );
    assert_eq!(got[0].3, b"25 SCHILY.xattr.user.k=v\n");
    assert_eq!(got[1].3, b"twice");
    assert_eq!(got[2].2, "a");
    assert_eq!(got[4].3, vec![b'y'; 600]);
    assert_eq!(got[5].2, "a");

    let r = v.pack_tar_to(Io::new(Vec::new()), "/").unwrap();
    assert_eq!(
        (r.files, r.directories, r.symlinks, r.hard_links, r.devices, r.sockets_skipped),
        (2, 1, 1, 1, 1, 1)
    );
    assert_eq!((r.xattrs, r.bytes), (1, 605));
    let names = v.walk("/").unwrap().len() as u64;
    assert_eq!(
        r.files + r.directories + r.symlinks + r.hard_links + r.devices + r.sockets_skipped,
        names
    );
    assert!(v.pack_tar("/").unwrap() == archive, "the same tree makes the same archive");
}

#[test]
fn sockets_are_left_out_under_every_name() {
    let mut d = Disk::new(true, true);
    d.short_dir(ROOT, ROOT as u32, &[(b"a", 74, 6), (b"b", 74, 6)]);
    d.inode(74, &Node { links: 2, ..node(0o140755) });
    let v = d.open();
    assert!(entries(&v.pack_tar("/").unwrap()).is_empty());
    let r = v.pack_tar_to(Io::new(Vec::new()), "/").unwrap();
    assert_eq!((r.hard_links, r.sockets_skipped), (0, 2));
}

#[test]
fn a_symlink_keeps_its_attributes() {
    let mut d = Disk::new(true, true);
    d.short_dir(ROOT, ROOT as u32, &[(b"l", 72, 7)]);
    let attrs = short_attrs(&[(4, b"selinux", b"ctx")]);
    d.inode(
        72,
        &Node { size: 3, format: 1, fork: b"far".to_vec(), attr: Some((1, 0, attrs)), ..node(LNK) },
    );
    let v = d.open();
    let got = entries(&v.pack_tar("/").unwrap());
    assert_eq!(got.len(), 2);
    assert_eq!(got[0].3, b"37 SCHILY.xattr.security.selinux=ctx\n");
    assert_eq!((got[1].0.as_str(), got[1].1, got[1].2.as_str()), ("l", b'2', "far"));
    let r = v.pack_tar_to(Io::new(Vec::new()), "/").unwrap();
    assert_eq!((r.symlinks, r.xattrs), (1, 1));

    let mut x = Extraction::new();
    for e in v.walk("/").unwrap() {
        assert!(matches!(v.extract_step(&e, &mut x).unwrap(), Action::Symlink { .. }));
    }
    let r = x.finish().1;
    assert_eq!((r.symlinks, r.xattrs_skipped), (1, 1));
}

#[test]
fn packing_refuses_what_it_cannot_write() {
    let mut d = packable();
    d.inode(74, &node(0o170644));
    assert_eq!(err(d.open().pack_tar("/")), "corrupt filesystem: sock: file type 0o170000");
    let mut d = packable();
    d.inode(74, &Node { mtime: (0xffff_ffff, 1_000_000_001), ..node(0o010644) });
    assert_eq!(err(d.open().pack_tar("/")), "corrupt filesystem: sock: modification time");
}

#[test]
fn a_large_file_packs_whole() {
    let mut d = Disk::new(true, true);
    d.short_dir(ROOT, ROOT as u32, &[(b"big", 70, 1)]);
    // Two chunks and a bit, nearly all of it a hole.
    let size = 2 * (1 << 20) + 700u64;
    let last = size / BS as u64;
    d.block(100, &[5; BS]);
    d.block(101, &[6; BS]);
    let mut fork = record(1024, 100, 1, false);
    fork.extend_from_slice(&record(last, 101, 1, false));
    d.inode(70, &Node { size, nextents: 2, fork, ..node(REG) });
    let v = d.open();
    let whole = v.read("/big").unwrap();
    assert_eq!(whole.len() as u64, size);
    assert!(whole[1 << 20..(1 << 20) + BS].iter().all(|&c| c == 5));
    assert!(whole[last as usize * BS..].iter().all(|&c| c == 6));
    let got = entries(&v.pack_tar("/").unwrap());
    assert!(got[0].3 == whole);
    let i = v.inode(70).unwrap();
    let e = v.extents(&i, false).unwrap();
    let (mut off, mut sizes, mut joined) = (0, Vec::new(), Vec::new());
    while let Some(chunk) = v.next_chunk(&i, &e, &mut off).unwrap() {
        sizes.push(chunk.len());
        joined.extend_from_slice(&chunk);
    }
    assert_eq!((off, sizes), (size, vec![1 << 20, 1 << 20, 700]));
    assert!(joined == whole);
}

// ---- copying out --------------------------------------------------------------------------------------

#[test]
fn copying_out_says_what_to_make() {
    let v = packable().open();
    let mut x = Extraction::new();
    let mut made = Vec::new();
    for e in v.walk("/").unwrap() {
        let what = match v.extract_step(&e, &mut x).unwrap() {
            Action::HardLink { first } => format!("link to {}", String::from_utf8(first).unwrap()),
            Action::Directory => "directory".to_string(),
            Action::Symlink { target } => format!("symlink to {}", String::from_utf8(target).unwrap()),
            Action::File { inode } => format!("file {}", inode.ino),
            Action::Skip => "nothing".to_string(),
        };
        made.push((e.path, what));
    }
    let want = [
        ("a", "file 70"),
        ("b", "link to a"),
        ("dir", "directory"),
        ("dir/x", "file 75"),
        ("link", "symlink to a"),
        ("null", "nothing"),
        ("sock", "nothing"),
    ];
    assert_eq!(made, want.map(|(a, b)| (a.to_string(), b.to_string())));
    let (ends, r) = x.finish();
    assert_eq!(ends.len(), 1);
    assert_eq!((ends[0].path.as_slice(), ends[0].mode), (&b"dir"[..], DIR));
    assert_eq!((r.files, r.directories, r.symlinks, r.hard_links, r.bytes), (2, 1, 1, 1, 605));
    assert_eq!(r.specials_skipped, ["null", "sock"]);
    assert_eq!(r.xattrs_skipped, 1);
}

#[test]
fn specials_are_reported_under_every_name() {
    let mut d = Disk::new(true, true);
    d.short_dir(
        ROOT,
        ROOT as u32,
        &[(b"a", 74, 5), (b"b", 74, 5), (b"l", 72, 7), (b"m", 72, 7)],
    );
    d.inode(74, &Node { format: 0, fork: vec![0; 4], links: 2, ..node(0o010644) });
    d.inode(72, &Node { size: 3, format: 1, fork: b"far".to_vec(), links: 2, ..node(LNK) });
    let v = d.open();
    let mut x = Extraction::new();
    let made: Vec<Action> =
        v.walk("/").unwrap().iter().map(|e| v.extract_step(e, &mut x).unwrap()).collect();
    assert!(matches!(made[0], Action::Skip));
    assert!(matches!(made[1], Action::Skip));
    assert!(matches!(&made[2], Action::Symlink { target } if target == b"far"));
    assert!(matches!(&made[3], Action::HardLink { first } if first == b"l"));
    let r = x.finish().1;
    assert_eq!(r.specials_skipped, ["a", "b"]);
    assert_eq!((r.symlinks, r.hard_links), (1, 1));
    // An archive has both names of a FIFO.
    let got = entries(&v.pack_tar("/").unwrap());
    let named: Vec<(&str, u8)> = got.iter().map(|e| (e.0.as_str(), e.1)).collect();
    assert_eq!(named, [("a", b'6'), ("b", b'1'), ("l", b'2'), ("m", b'1')]);
}

#[test]
fn zero_pieces_are_left_out() {
    let mut b = vec![0u8; 4 * 4096 + 10];
    b[4096 + 5] = 1;
    b[2 * 4096] = 1;
    let run = |start, end, zero| Run { start, end, zero };
    assert_eq!(
        sparse_runs(&b),
        [run(0, 4096, true), run(4096, 3 * 4096, false), run(3 * 4096, 4 * 4096 + 10, true)]
    );
    assert!(sparse_runs(&[]).is_empty());
    assert_eq!(sparse_runs(&[1; 10]), [run(0, 10, false)]);
    // With zeros for what is left out, the bytes come back.
    let mut back = Vec::new();
    for r in sparse_runs(&b) {
        if r.zero {
            back.resize(r.end, 0);
        } else {
            back.extend_from_slice(&b[r.start..r.end]);
        }
    }
    assert!(back == b);
}

#[test]
fn formats_are_told_apart() {
    let v = small(true, true).open();
    assert_eq!(v.inode(ROOT).unwrap().format, Format::Local);
    assert_eq!(v.inode(70).unwrap().format, Format::Extents);
    assert_eq!(v.inode(78).unwrap().format, Format::Dev);
    assert!(v.extents(&v.inode(ROOT).unwrap(), false).unwrap().is_empty());
    assert!(v.extents(&v.inode(70).unwrap(), true).unwrap().is_empty());
}
