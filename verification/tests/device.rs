//! Devices and streams.

use std::sync::Arc;

use fio_xfs::device::check_range;
use fio_xfs::error::{IoError, IoKind};
use fio_xfs::tar::{Header, Io, Sink, Writer};
use fio_xfs::{BlockDevice, Error, MemDevice, Volume};

#[test]
fn memory_reads_exactly_what_is_there() {
    let d = MemDevice::new((0..100).collect());
    assert_eq!(d.size(), 100);
    let mut buf = [0u8; 10];
    d.read_at(90, &mut buf).unwrap();
    assert_eq!(buf, [90, 91, 92, 93, 94, 95, 96, 97, 98, 99]);
    let e = d.read_at(91, &mut buf).unwrap_err();
    assert_eq!(e.message(), "read of 10 bytes at 91 is past the end of a 100-byte device");
    assert!(matches!(e, Error::Io(IoError { kind: IoKind::UnexpectedEof, .. })));
    assert!(check_range(100, u64::MAX, 1).is_err());
    assert!(check_range(100, 100, 0).is_ok());
    assert_eq!(d.into_inner().len(), 100);
}

#[test]
fn boxes_and_shared_devices_are_devices() {
    let mut buf = [0u8; 2];
    let b: Box<MemDevice> = Box::new(MemDevice::new(vec![1, 2, 3]));
    b.read_at(1, &mut buf).unwrap();
    assert_eq!((b.size(), buf), (3, [2, 3]));
    let a = Arc::new(MemDevice::new(vec![4, 5, 6]));
    a.read_at(0, &mut buf).unwrap();
    assert_eq!((a.size(), buf), (3, [4, 5]));
}

/// A device whose every read fails.
struct Broken;

impl BlockDevice for Broken {
    fn size(&self) -> u64 {
        1 << 20
    }

    fn read_at(&self, _offset: u64, _buf: &mut [u8]) -> Result<(), Error> {
        Err(Error::Io(IoError { kind: IoKind::Other, message: "the disk is on fire".to_string() }))
    }
}

#[test]
fn what_a_device_reports_is_passed_on() {
    match Volume::open(Broken) {
        Err(e) => assert_eq!(e.message(), "the disk is on fire"),
        Ok(_) => panic!("a broken device opened"),
    }
}

/// A stream with room for a few bytes.
struct Full(usize);

impl Sink for Full {
    fn write_all(&mut self, buf: &[u8]) -> Result<(), Error> {
        if buf.len() > self.0 {
            return Err(Error::Io(IoError { kind: IoKind::Other, message: "full".to_string() }));
        }
        self.0 -= buf.len();
        Ok(())
    }

    fn flush(&mut self) -> Result<(), Error> {
        Ok(())
    }
}

/// A stream that holds everything back until it is flushed.
#[derive(Default)]
struct Held {
    waiting: Vec<u8>,
    out: Vec<u8>,
    flushes: usize,
}

impl Sink for Held {
    fn write_all(&mut self, buf: &[u8]) -> Result<(), Error> {
        self.waiting.extend_from_slice(buf);
        Ok(())
    }

    fn flush(&mut self) -> Result<(), Error> {
        self.out.append(&mut self.waiting);
        self.flushes += 1;
        Ok(())
    }
}

#[test]
fn a_finished_archive_is_flushed_once() {
    let h = Header { path: b"a".to_vec(), size: 3, ..Default::default() };
    let mut w = Writer::new(Io::new(Held::default()));
    w.append(&h, b"abc").unwrap();
    w.finish().unwrap();
    let held = w.into_inner().into_inner();
    assert_eq!((held.out.len(), held.waiting.len(), held.flushes), (4 * 512, 0, 1));
}

#[test]
fn what_a_stream_reports_is_passed_on() {
    let h = Header { path: b"a".to_vec(), ..Default::default() };
    let mut w = Writer::new(Full(512));
    w.begin(&h).unwrap();
    assert_eq!(w.finish().unwrap_err().message(), "full");
    let mut w = Writer::new(Io::new(Full(100)));
    assert_eq!(w.begin(&h).unwrap_err().message(), "full");
    assert_eq!(w.into_inner().into_inner().0, 100);
}
