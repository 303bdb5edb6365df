//! The small parts everything else is made of.

use fio_xfs::attr::{in_namespace, parse_block, posix_acl, readable, remote_blocks};
use fio_xfs::bytes::{be16, be32, be64, le32, overwrite, push_le16, push_le32};
use fio_xfs::crc::crc32c;
use fio_xfs::dir::{kind_char, parse_data_block};
use fio_xfs::inode::Format;
use fio_xfs::sort::{sorted, Ranked};
use fio_xfs::text::{begins_with, digit_count, hex, push_decimal, push_numeral, push_padded, same_text};
use fio_xfs::volume::walk::in_name_order;
use fio_xfs::{Entry, Error, FileType, Inode, Superblock, Timestamp};

#[test]
fn fields_are_big_endian() {
    let b = [0x01, 0x23, 0x45, 0x67, 0x89, 0xab, 0xcd, 0xef, 0xff];
    assert_eq!(be16(&b, 1), 0x2345);
    assert_eq!(be32(&b, 1), 0x2345_6789);
    assert_eq!(be64(&b, 1), 0x2345_6789_abcd_efff);
    assert_eq!(le32(&b, 0), 0x6745_2301);
    let mut v = Vec::new();
    push_le16(&mut v, 0x1234);
    push_le32(&mut v, 0x89ab_cdef);
    assert_eq!(v, [0x34, 0x12, 0xef, 0xcd, 0xab, 0x89]);
    overwrite(&mut v, 1, &[7, 8]);
    assert_eq!(v, [0x34, 7, 8, 0xcd, 0xab, 0x89]);
}

#[test]
fn numbers_as_text() {
    let mut s = String::new();
    push_decimal(&mut s, 0);
    s.push(' ');
    push_decimal(&mut s, u64::MAX);
    s.push(' ');
    push_numeral(&mut s, 0xdead_beef, 16);
    s.push(' ');
    push_padded(&mut s, 8, 8, 5);
    s.push(' ');
    push_padded(&mut s, 123456, 10, 3);
    assert_eq!(s, "0 18446744073709551615 deadbeef 00010 123456");
    assert_eq!((digit_count(0, 10), digit_count(99, 10), digit_count(100, 10)), (1, 2, 3));
    assert!(begins_with("system.posix_acl_access", "system.posix_acl_"));
    assert!(!begins_with("system", "system.posix_acl_"));
    assert!(same_text("ab", "ab") && !same_text("ab", "abc") && !same_text("ab", "ac"));
}

#[test]
fn attribute_namespaces() {
    assert_eq!(in_namespace(0, "a").unwrap(), "user.a");
    assert_eq!(in_namespace(1, "a").unwrap(), "user.a");
    assert_eq!(in_namespace(2, "a").unwrap(), "trusted.a");
    assert_eq!(in_namespace(4, "a").unwrap(), "security.a");
    assert_eq!(in_namespace(6, "SGI_ACL_FILE").unwrap(), "security.SGI_ACL_FILE");
    assert_eq!(in_namespace(2, "SGI_ACL_FILE").unwrap(), "system.posix_acl_access");
    assert_eq!(in_namespace(2, "SGI_ACL_DEFAULT").unwrap(), "system.posix_acl_default");
    assert_eq!(in_namespace(0, "SGI_ACL_FILE").unwrap(), "user.SGI_ACL_FILE");
    assert!(in_namespace(0x08, "a").is_none());
    assert!(in_namespace(0x80, "a").is_none());
    assert_eq!(posix_acl(&[0, 0, 0, 0, 9]).unwrap(), [2, 0, 0, 0]);
}

fn entry(name: &[u8], inode: u64) -> Entry {
    Entry {
        name: String::new(),
        raw_name: name.to_vec(),
        inode,
        kind: FileType::File,
        is_dir: false,
    }
}

#[test]
fn sorting_keeps_what_ranks_the_same_in_order() {
    // Directory entries sort with the last name first.
    let v = sorted(vec![entry(b"b", 1), entry(b"a", 2), entry(b"b", 3), entry(b"ab", 4), entry(b"", 5)]);
    let order: Vec<u64> = v.iter().map(|e| e.inode).collect();
    assert_eq!(order, [1, 3, 4, 2, 5]);
    assert!(entry(b"b", 1).not_after(&entry(b"a", 2)));
    assert!(!entry(b"a", 1).not_after(&entry(b"ab", 2)));
    let many: Vec<Entry> = (0..100u64).map(|i| entry(&[(i * 37 % 101) as u8], i)).collect();
    let v = sorted(many);
    assert!(v.windows(2).all(|w| w[0].raw_name > w[1].raw_name));
}

#[test]
fn types_have_letters() {
    let all = [
        (FileType::Directory, 'd'),
        (FileType::Symlink, 'l'),
        (FileType::CharDevice, 'c'),
        (FileType::BlockDevice, 'b'),
        (FileType::Fifo, 'p'),
        (FileType::Socket, 's'),
        (FileType::File, '-'),
        (FileType::Unknown, '?'),
    ];
    assert!(all.iter().all(|&(k, c)| kind_char(k) == c));
    for (mode, kind) in [
        (0o100644, FileType::File),
        (0o040755, FileType::Directory),
        (0o020600, FileType::CharDevice),
        (0o060600, FileType::BlockDevice),
        (0o010600, FileType::Fifo),
        (0o140755, FileType::Socket),
        (0o120777, FileType::Symlink),
        (0o170000, FileType::Unknown),
    ] {
        assert_eq!(FileType::from_mode(mode), kind);
    }
}

#[test]
fn errors_explain_themselves() {
    let s = || "x".to_string();
    let all = [
        (Error::NotXfs(s()), "not an XFS filesystem: x"),
        (Error::Corrupt(s()), "corrupt filesystem: x"),
        (Error::Unsupported(s()), "unsupported: x"),
        (Error::NotFound(s()), "no such file or directory: x"),
        (Error::NotADirectory(s()), "not a directory: x"),
        (Error::IsADirectory(s()), "is a directory: x"),
        (Error::NotASymlink(s()), "not a symbolic link: x"),
        (Error::SymlinkLoop(s()), "too many levels of symbolic links: x"),
        (Error::InvalidPath(s()), "invalid path: x"),
    ];
    for (e, want) in all {
        assert_eq!(e.message(), want);
    }
}

/// A superblock with nothing in it.
fn blank() -> Superblock {
    Superblock {
        block_size: 0,
        data_blocks: 0,
        uuid: [0; 16],
        root_ino: 0,
        ag_blocks: 0,
        ag_count: 0,
        version: 0,
        sector_size: 0,
        inode_size: 0,
        inodes_per_block: 0,
        label: String::new(),
        block_log: 0,
        inopb_log: 0,
        agblk_log: 0,
        icount: 0,
        ifree: 0,
        free_blocks: 0,
        dirblk_log: 0,
        features2: 0,
        features_compat: 0,
        features_ro_compat: 0,
        features_incompat: 0,
    }
}

#[test]
fn places_need_only_the_groups() {
    let sb = Superblock {
        ag_blocks: 10,
        ag_count: 2,
        agblk_log: 4,
        block_log: 12,
        block_size: 4096,
        inopb_log: 3,
        inode_size: 512,
        ..blank()
    };
    assert_eq!(sb.fsb_to_byte(9).unwrap(), 36864);
    assert!(matches!(sb.fsb_to_byte(10), Err(Error::Corrupt(_))));
    assert_eq!(sb.fsb_to_byte(16).unwrap(), 40960);
    assert_eq!(sb.fsb_to_byte(25).unwrap(), 77824);
    assert!(matches!(sb.fsb_to_byte(26), Err(Error::Corrupt(_))));
    assert!(matches!(sb.fsb_to_byte(32), Err(Error::Corrupt(_))));
    assert_eq!(sb.ino_to_byte(16 * 8 + 5).unwrap(), 40960 + 5 * 512);
    assert_eq!(remote_blocks(&sb, 4097), 2);
    assert_eq!(remote_blocks(&Superblock { version: 5, ..sb }, 4041), 2);
}

#[test]
fn an_inode_needs_only_its_size() {
    let sb = Superblock { version: 4, inode_size: 256, ..blank() };
    let mut buf = [0u8; 256];
    buf[..2].copy_from_slice(b"IN");
    buf[4] = 2;
    buf[5] = 2;
    buf[40..48].copy_from_slice(&[0xff, 0xff, 0xfc, 0x18, 0, 0, 0, 5]);
    let i = Inode::parse(&sb, 131, &buf).unwrap();
    assert_eq!(i.mtime, Timestamp { secs: -1000, nsecs: 5 });
    assert_eq!(i.atime, Timestamp { secs: 0, nsecs: 0 });
    assert_eq!((i.crtime, i.ino, i.version), (None, 131, 2));
    assert_eq!((i.format, i.aformat, i.data_fork.len()), (Format::Extents, None, 156));
}

#[test]
fn values_are_shown_as_text_or_hexadecimal() {
    assert_eq!(readable(b"plain").as_deref(), Some("plain"));
    assert_eq!(readable(b"ended\0").as_deref(), Some("ended"));
    assert_eq!(readable(b"").as_deref(), Some(""));
    assert_eq!(readable(b"\0").as_deref(), Some(""));
    assert_eq!(readable("caf\u{e9}".as_bytes()).as_deref(), Some("caf\u{e9}"));
    for bad in [&b"two\0\0"[..], b"a\nb", b"\x7f", b"\xff", b"cut \xc3", "\u{80}".as_bytes(), "x\u{9f}".as_bytes()] {
        assert_eq!(readable(bad), None);
    }
    // What stands for malformed bytes is itself text.
    assert_eq!(readable("\u{fffd}\u{a0}".as_bytes()).as_deref(), Some("\u{fffd}\u{a0}"));
    assert_eq!(hex(&[0, 0x0f, 0xa0, 0xff]), "000fa0ff");
    assert_eq!(hex(&[]), "");
}

#[test]
fn listings_can_be_put_in_order() {
    let names = [(b"b", 1), (b"a", 2), (b"b", 3), (b"a", 4)];
    let entries = names.map(|(n, inode)| Entry {
        name: String::from_utf8(n.to_vec()).unwrap(),
        raw_name: n.to_vec(),
        inode,
        kind: FileType::File,
        is_dir: false,
    });
    let inodes: Vec<u64> = in_name_order(entries.to_vec()).iter().map(|e| e.inode).collect();
    assert_eq!(inodes, [2, 4, 1, 3]);
}

#[test]
fn a_wrong_magic_is_told_of_a_short_block() {
    let sb = Superblock { version: 5, ..blank() };
    let mut b = [0u8; 20];
    b[..4].copy_from_slice(&0x5844_3242u32.to_be_bytes());
    let c = crc32c(&b);
    b[4..8].copy_from_slice(&c.to_le_bytes());
    let mut out = Vec::new();
    let e = parse_data_block(&sb, &b, 9, &mut out).unwrap_err();
    assert_eq!(e.message(), "corrupt filesystem: directory 9: data block magic 0x58443242");
    let old = Superblock { version: 4, ..blank() };
    let e = parse_data_block(&old, &0x5844_4233u32.to_be_bytes(), 9, &mut out).unwrap_err();
    assert_eq!(e.message(), "corrupt filesystem: directory 9: data block magic 0x58444233");
    assert!(out.is_empty());

    let mut b = [0u8; 20];
    let c = crc32c(&b);
    b[12..16].copy_from_slice(&c.to_le_bytes());
    match parse_block(&sb, &b, 9, 1) {
        Err(e) => assert_eq!(e.message(), "corrupt filesystem: inode 9: attribute block 1 magic 0x0"),
        Ok(_) => panic!("an error was expected"),
    }
}
