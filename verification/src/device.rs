//! The device seam: where the bytes of a filesystem come from.

use std::sync::Arc;
use vstd::pervasive::arbitrary;
use vstd::prelude::*;
use vstd::string::*;

use crate::bytes::zeroes;
use crate::error::{Error, Fault, IoError, IoKind, Result};
use crate::text::{decimal, push_decimal};

verus! {

/// The failure to read `len` bytes at `offset` of a device of `size` bytes.
pub open spec fn past_end(size: nat, offset: nat, len: nat) -> Fault {
    Fault::Io(
        IoKind::UnexpectedEof,
        "read of "@ + decimal(len) + " bytes at "@ + decimal(offset) + " is past the end of a "@ + decimal(size)
            + "-byte device"@,
    )
}

/// What reading `len` bytes at `offset` of a device holding `img` comes to.
pub open spec fn read_of(img: Seq<u8>, offset: nat, len: nat) -> core::result::Result<Seq<u8>, Fault> {
    if offset + len <= img.len() {
        Ok(img.subrange(offset as int, (offset + len) as int))
    } else {
        Err(past_end(img.len(), offset, len))
    }
}

/// Something a filesystem can be read from: an image file, a volume, memory.
///
/// Reading is all this crate asks for. Every read it issues is whole
/// filesystem blocks at a block boundary, except the first read of
/// [`crate::Volume::open`], which is the first 4 KiB of the device before the
/// block size is known.
pub trait BlockDevice: Send + Sync {
    /// The bytes on the device. A verified device says which they are; of one
    /// that the verifier does not see, nothing is known but that it has some,
    /// the same at every read.
    closed spec fn contents(&self) -> Seq<u8> {
        arbitrary()
    }

    /// Whether the device may fail with `f`, for reasons of its own. A device
    /// that does not say may fail with anything.
    open spec fn may_fail(&self, f: Fault) -> bool {
        true
    }

    /// Whether the device takes reads of `len` bytes at `offset`. One that
    /// does not say takes any.
    open spec fn admits(&self, offset: nat, len: nat) -> bool {
        true
    }

    /// Total addressable size in bytes.
    fn size(&self) -> (n: u64)
        ensures
            n == self.contents().len(),
    ;

    /// Read exactly `buf.len()` bytes starting at `offset`.
    fn read_at(&self, offset: u64, buf: &mut [u8]) -> (r: Result<()>)
        requires
            self.admits(offset as nat, old(buf)@.len()),
        ensures
            final(buf)@.len() == old(buf)@.len(),
            match r {
                Ok(_) => read_of(self.contents(), offset as nat, old(buf)@.len()) == Ok::<Seq<u8>, Fault>(
                    final(buf)@,
                ),
                Err(e) => self.may_fail(e@) || read_of(self.contents(), offset as nat, old(buf)@.len())
                    == Err::<Seq<u8>, Fault>(e@),
            },
    ;
}

/// Whether `got`, which came of reading `dev`, is what `want` says, or a
/// failure of the device's own.
pub open spec fn settled<D: BlockDevice + ?Sized, T>(
    dev: &D,
    got: core::result::Result<T, Fault>,
    want: core::result::Result<T, Fault>,
) -> bool {
    got == want || (got is Err && dev.may_fail(got->Err_0))
}

impl<T: BlockDevice + ?Sized> BlockDevice for Box<T> {
    open spec fn contents(&self) -> Seq<u8> {
        (**self).contents()
    }

    open spec fn may_fail(&self, f: Fault) -> bool {
        (**self).may_fail(f)
    }

    open spec fn admits(&self, offset: nat, len: nat) -> bool {
        (**self).admits(offset, len)
    }

    fn size(&self) -> (n: u64) {
        (**self).size()
    }

    fn read_at(&self, offset: u64, buf: &mut [u8]) -> (r: Result<()>) {
        (**self).read_at(offset, buf)
    }
}

impl<T: BlockDevice + ?Sized> BlockDevice for Arc<T> {
    open spec fn contents(&self) -> Seq<u8> {
        (**self).contents()
    }

    open spec fn may_fail(&self, f: Fault) -> bool {
        (**self).may_fail(f)
    }

    open spec fn admits(&self, offset: nat, len: nat) -> bool {
        (**self).admits(offset, len)
    }

    fn size(&self) -> (n: u64) {
        (**self).size()
    }

    fn read_at(&self, offset: u64, buf: &mut [u8]) -> (r: Result<()>) {
        (**self).read_at(offset, buf)
    }
}

/// Check that `len` bytes at `offset` lie on a device of `size` bytes.
pub fn check_range(size: u64, offset: u64, len: usize) -> (r: Result<()>)
    ensures
        match r {
            Ok(_) => offset + len <= size,
            Err(e) => offset + len > size && e@ == past_end(size as nat, offset as nat, len as nat),
        },
{
    if let Some(end) = offset.checked_add(len as u64) {
        if end <= size {
            return Ok(());
        }
    }
    let mut message = String::from_str("read of ");
    push_decimal(&mut message, len as u64);
    message.append(" bytes at ");
    push_decimal(&mut message, offset);
    message.append(" is past the end of a ");
    push_decimal(&mut message, size);
    message.append("-byte device");
    Err(Error::Io(IoError { kind: IoKind::UnexpectedEof, message }))
}

/// A filesystem image in memory.
pub struct MemDevice {
    data: Vec<u8>,
}

impl View for MemDevice {
    type V = Seq<u8>;

    closed spec fn view(&self) -> Seq<u8> {
        self.data@
    }
}

impl MemDevice {
    /// Wrap the bytes of an image.
    pub fn new(data: Vec<u8>) -> (r: Self)
        ensures
            r@ == data@,
    {
        MemDevice { data }
    }

    /// The image's bytes.
    pub fn into_inner(self) -> (r: Vec<u8>)
        ensures
            r@ == self@,
    {
        self.data
    }
}

impl BlockDevice for MemDevice {
    open spec fn contents(&self) -> Seq<u8> {
        self@
    }

    open spec fn may_fail(&self, f: Fault) -> bool {
        false
    }

    open spec fn admits(&self, offset: nat, len: nat) -> bool {
        true
    }

    fn size(&self) -> (n: u64) {
        self.data.len() as u64
    }

    fn read_at(&self, offset: u64, buf: &mut [u8]) -> (r: Result<()>) {
        check_range(self.size(), offset, buf.len())?;
        let at: usize = offset as usize;
        let mut i: usize = 0;
        while i < buf.len()
            invariant
                i <= buf.len(),
                buf.len() == old(buf).len(),
                at + buf@.len() <= self.data.len(),
                forall|j: int| 0 <= j < i ==> buf@[j] == self.data@[at + j],
            decreases buf.len() - i,
        {
            buf[i] = self.data[at + i];
            i += 1;
        }
        assert(buf@ =~= self.data@.subrange(at as int, at + buf@.len()));
        Ok(())
    }
}

/// Read `len` bytes at `offset` of `dev`.
pub fn read_bytes<D: BlockDevice>(dev: &D, offset: u64, len: usize) -> (r: Result<Vec<u8>>)
    requires
        dev.admits(offset as nat, len as nat),
    ensures
        settled(dev, crate::error::outcome(r), read_of(dev.contents(), offset as nat, len as nat)),
{
    let mut buf = zeroes(len);
    dev.read_at(offset, buf.as_mut_slice())?;
    Ok(buf)
}

} // verus!
