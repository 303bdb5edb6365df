//! Archives.

use fio_xfs::tar::ustar::ustar;
use fio_xfs::tar::{pax_record, pax_time, EntryKind, Header, Writer};
use fio_xfs::Timestamp;

const BLOCK: usize = 512;

#[test]
fn pax_record_counts_its_own_length() {
    let mut v = Vec::new();
    pax_record(&mut v, "path", b"a");
    assert_eq!(v, b"9 path=a\n");
    let mut v = Vec::new();
    pax_record(&mut v, "path", &[b'x'; 94]);
    assert_eq!(v.len(), 104);
    assert!(v.starts_with(b"104 path="));
    let mut v = Vec::new();
    pax_record(&mut v, "path", &[b'x'; 95]);
    assert_eq!(v.len(), 105);
    assert!(v.starts_with(b"105 path="));
}

#[test]
fn negative_fractional_time() {
    assert_eq!(pax_time(Timestamp { secs: -2, nsecs: 500_000_000 }), "-1.500000000");
    assert_eq!(pax_time(Timestamp { secs: 5, nsecs: 1 }), "5.000000001");
}

#[test]
fn archive_is_whole_blocks() {
    let mut w = Writer::new(Vec::new());
    let h = Header { path: b"a".to_vec(), size: 3, mode: 0o644, ..Default::default() };
    w.append(&h, b"abc").unwrap();
    w.finish().unwrap();
    let v = w.into_inner();
    assert_eq!(v.len(), 4 * BLOCK);
    assert_eq!(&v[BLOCK..BLOCK + 3], b"abc");
}

fn octal(f: &[u8]) -> u64 {
    f.iter().take_while(|c| (b'0'..=b'7').contains(c)).fold(0, |n, c| n * 8 + (c - b'0') as u64)
}

fn sum(b: &[u8]) -> u64 {
    (0..BLOCK).map(|i| if (148..156).contains(&i) { 32 } else { b[i] as u64 }).sum()
}

#[test]
fn a_block_reads_back() {
    let h = Header {
        path: b"dir/name".to_vec(),
        kind: EntryKind::BlockDevice,
        link: b"target".to_vec(),
        mode: 0o100644,
        uid: 1000,
        gid: 100,
        mtime: Timestamp { secs: 1_700_000_000, nsecs: 0 },
        size: 5,
        major: 8,
        minor: 17,
        ..Default::default()
    };
    let (b, fits) = ustar(&h.path, b'4', &h, 12345);
    assert!(fits);
    assert_eq!(b.len(), BLOCK);
    assert_eq!(&b[..9], b"dir/name\0");
    assert_eq!(&b[100..108], b"0000644\0");
    assert_eq!((octal(&b[108..116]), octal(&b[116..124])), (1000, 100));
    assert_eq!((octal(&b[124..136]), octal(&b[136..148])), (12345, 1_700_000_000));
    assert_eq!(b[156], b'4');
    assert_eq!(&b[157..164], b"target\0");
    assert_eq!(&b[257..265], b"ustar\x0000");
    assert_eq!((octal(&b[329..337]), octal(&b[337..345])), (8, 17));
    assert_eq!(octal(&b[148..154]), sum(&b));
    assert_eq!(&b[154..156], b"\0 ");
}

#[test]
fn what_does_not_fit_a_block_is_said_so() {
    let plain = Header { path: b"a".to_vec(), ..Default::default() };
    let fits = |h: &Header, size| ustar(&h.path, b'0', h, size).1;
    assert!(fits(&plain, (1 << 33) - 1));
    assert!(!fits(&plain, 1 << 33));
    assert!(fits(&Header { uid: 0o7777777, ..plain.clone() }, 0));
    assert!(!fits(&Header { uid: 0o10000000, ..plain.clone() }, 0));
    assert!(!fits(&Header { gid: 0o10000000, ..plain.clone() }, 0));
    assert!(fits(&Header { path: vec![b'p'; 100], link: vec![b'l'; 100], ..plain.clone() }, 0));
    assert!(!fits(&Header { path: vec![b'p'; 101], ..plain.clone() }, 0));
    assert!(!fits(&Header { link: vec![b'l'; 101], ..plain.clone() }, 0));
    assert!(!fits(&Header { mtime: Timestamp { secs: -1, nsecs: 0 }, ..plain.clone() }, 0));
    let dev = Header { kind: EntryKind::CharDevice, major: 0o10000000, ..plain.clone() };
    assert!(!fits(&dev, 0));
    assert!(fits(&Header { kind: EntryKind::Fifo, ..dev }, 0));
    // The field that does not fit stays empty.
    let (b, _) = ustar(&plain.path, b'0', &plain, 1 << 33);
    assert_eq!(&b[124..136], &[0; 12]);
    assert_eq!(octal(&b[148..154]), sum(&b));
}

#[test]
fn times_are_written_in_full() {
    let t = |secs, nsecs| pax_time(Timestamp { secs, nsecs });
    assert_eq!(t(0, 0), "0");
    assert_eq!(t(1_700_000_000, 0), "1700000000");
    assert_eq!(t(-5, 0), "-5");
    assert_eq!(t(i64::MIN, 0), "-9223372036854775808");
    assert_eq!(t(0, 999_999_999), "0.999999999");
    assert_eq!(t(-1, 1), "-0.999999999");
}

#[test]
fn long_names_and_fractions_go_in_a_pax_entry() {
    let mut w = Writer::new(Vec::new());
    let h = Header {
        path: [&b"d/"[..], &[b'n'; 120], b"/"].concat(),
        kind: EntryKind::Directory,
        mtime: Timestamp { secs: -2, nsecs: 500_000_000 },
        xattrs: vec![("user.k".to_string(), b"v".to_vec())],
        ..Default::default()
    };
    w.append(&h, b"").unwrap();
    w.finish().unwrap();
    let v = w.into_inner();
    assert_eq!(v.len() % BLOCK, 0);
    assert_eq!(v[156], b'x');
    assert_eq!(&v[..11], b"PaxHeaders/");
    assert_eq!(&v[11..92], &[&[b'n'; 80][..], b"\0"].concat()[..]);
    assert_eq!(octal(&v[100..108]), 0o644);
    let len = octal(&v[124..136]) as usize;
    let pax = &v[BLOCK..BLOCK + len];
    let mut want = Vec::new();
    pax_record(&mut want, "path", &h.path);
    for (k, s) in [("size", "0"), ("uid", "0"), ("gid", "0"), ("mtime", "-1.500000000")] {
        pax_record(&mut want, k, s.as_bytes());
    }
    pax_record(&mut want, "SCHILY.xattr.user.k", b"v");
    assert!(pax == want);
    let block = BLOCK + len.div_ceil(BLOCK) * BLOCK;
    assert_eq!(v[block + 156], b'5');
    assert_eq!(v.len(), block + BLOCK + 2 * BLOCK);
}

#[test]
fn content_is_padded_before_the_next_entry() {
    let mut w = Writer::new(Vec::new());
    let h = |name: &[u8], size| Header { path: name.to_vec(), size, ..Default::default() };
    w.begin(&h(b"one", 600)).unwrap();
    w.data(&[1; 500]).unwrap();
    w.data(&[2; 100]).unwrap();
    w.append(&h(b"two", 512), &[3; 512]).unwrap();
    w.append(&h(b"none", 0), b"").unwrap();
    w.finish().unwrap();
    let v = w.into_inner();
    assert_eq!(v.len(), (1 + 2 + 1 + 1 + 1 + 2) * BLOCK);
    assert!(v[BLOCK..BLOCK + 500].iter().all(|&c| c == 1));
    assert!(v[BLOCK + 500..BLOCK + 600].iter().all(|&c| c == 2));
    assert!(v[BLOCK + 600..3 * BLOCK].iter().all(|&c| c == 0));
    assert_eq!(&v[3 * BLOCK..3 * BLOCK + 4], b"two\0");
    assert_eq!(&v[5 * BLOCK..5 * BLOCK + 5], b"none\0");
}

#[test]
fn kinds_have_their_digits() {
    assert_eq!(EntryKind::default(), EntryKind::File);
    for (kind, flag) in [
        (EntryKind::File, b'0'),
        (EntryKind::HardLink, b'1'),
        (EntryKind::Symlink, b'2'),
        (EntryKind::CharDevice, b'3'),
        (EntryKind::BlockDevice, b'4'),
        (EntryKind::Directory, b'5'),
        (EntryKind::Fifo, b'6'),
    ] {
        let mut w = Writer::new(Vec::new());
        w.append(&Header { path: b"a".to_vec(), kind, size: 0, ..Default::default() }, b"").unwrap();
        assert_eq!(w.into_inner()[156], flag);
    }
}
