//! Writing tar archives: POSIX ustar with PAX extended headers for anything
//! ustar cannot hold: long names, large sizes and IDs, sub-second times and
//! extended attributes (as `SCHILY.xattr.*`, which GNU tar and every
//! container runtime read).

pub mod pax;
pub mod reading;
pub mod ustar;

pub use pax::{pax_record, pax_time};

use vstd::pervasive::arbitrary;
use vstd::prelude::*;
use vstd::string::*;
use vstd::utf8::encode_utf8;

use crate::bytes::{cut, extend, views, zero_bytes, zeroes};
use crate::error::{Fault, Result};
use crate::inode::Timestamp;
use crate::tar::pax::{is_writable, lemma_time_is_ascii, push_ascii, record, time_text};
use crate::tar::ustar::{block_bytes, block_fits, ustar, BLOCK};
use crate::text::{ascii, decimal, lemma_numeral_is_ascii, push_decimal};

verus! {

/// A byte stream an archive can be written to.
pub trait Sink: Sized {
    /// The bytes written so far. A verified stream says which they are; of one
    /// that the verifier does not see, nothing is known but what follows from
    /// the writes.
    closed spec fn written(&self) -> Seq<u8> {
        arbitrary()
    }

    /// Whether a stream of this kind may fail with `f`. One that does not say
    /// may fail with anything.
    open spec fn may_refuse(f: Fault) -> bool {
        true
    }

    /// Whether nothing written is held back. A stream that does not say holds
    /// nothing back.
    open spec fn is_flushed(&self) -> bool {
        true
    }

    /// Write all of `buf`.
    fn write_all(&mut self, buf: &[u8]) -> (r: Result<()>)
        ensures
            match r {
                Ok(_) => final(self).written() == old(self).written() + buf@,
                Err(e) => Self::may_refuse(e@),
            },
    ;

    /// Flush anything buffered. Called once, when the archive is complete.
    fn flush(&mut self) -> (r: Result<()>)
        ensures
            match r {
                Ok(_) => final(self).written() == old(self).written() && final(self).is_flushed(),
                Err(e) => Self::may_refuse(e@),
            },
    ;
}

impl Sink for Vec<u8> {
    open spec fn written(&self) -> Seq<u8> {
        self@
    }

    open spec fn may_refuse(f: Fault) -> bool {
        false
    }

    open spec fn is_flushed(&self) -> bool {
        true
    }

    fn write_all(&mut self, buf: &[u8]) -> (r: Result<()>) {
        extend(self, buf);
        Ok(())
    }

    fn flush(&mut self) -> (r: Result<()>) {
        Ok(())
    }
}

/// A [`Sink`] over any writer.
pub struct Io<T> {
    inner: T,
}

impl<T> Io<T> {
    /// The writer.
    pub closed spec fn inner(self) -> T {
        self.inner
    }

    /// Wrap a writer.
    pub fn new(inner: T) -> (r: Self)
        ensures
            r.inner() == inner,
    {
        Io { inner }
    }

    /// The writer back.
    pub fn into_inner(self) -> (r: T)
        ensures
            r == self.inner(),
    {
        self.inner
    }
}

impl<T: Sink> Sink for Io<T> {
    open spec fn written(&self) -> Seq<u8> {
        self.inner().written()
    }

    open spec fn may_refuse(f: Fault) -> bool {
        T::may_refuse(f)
    }

    open spec fn is_flushed(&self) -> bool {
        self.inner().is_flushed()
    }

    fn write_all(&mut self, buf: &[u8]) -> (r: Result<()>) {
        self.inner.write_all(buf)
    }

    fn flush(&mut self) -> (r: Result<()>) {
        self.inner.flush()
    }
}

/// What an archive entry is.
#[derive(Debug, Clone, Copy, PartialEq, Eq, Structural)]
pub enum EntryKind {
    /// Regular file, followed by its contents.
    File,
    /// A second name for a file already in the archive.
    HardLink,
    /// Symbolic link.
    Symlink,
    /// Character device.
    CharDevice,
    /// Block device.
    BlockDevice,
    /// Directory.
    Directory,
    /// FIFO.
    Fifo,
}

impl Default for EntryKind {
    fn default() -> (r: Self)
        ensures
            r == EntryKind::File,
    {
        EntryKind::File
    }
}

impl EntryKind {
    /// The byte that stands for the kind: a digit.
    pub open spec fn spec_flag(self) -> u8 {
        match self {
            EntryKind::File => 48,
            EntryKind::HardLink => 49,
            EntryKind::Symlink => 50,
            EntryKind::CharDevice => 51,
            EntryKind::BlockDevice => 52,
            EntryKind::Directory => 53,
            EntryKind::Fifo => 54,
        }
    }

    fn flag(self) -> (r: u8)
        ensures
            r == self.spec_flag(),
    {
        match self {
            EntryKind::File => 48,
            EntryKind::HardLink => 49,
            EntryKind::Symlink => 50,
            EntryKind::CharDevice => 51,
            EntryKind::BlockDevice => 52,
            EntryKind::Directory => 53,
            EntryKind::Fifo => 54,
        }
    }
}

/// One entry's metadata.
#[derive(Debug, Clone)]
pub struct Header {
    /// Path within the archive, relative. A directory's gets a trailing `/`.
    pub path: Vec<u8>,
    /// What it is.
    pub kind: EntryKind,
    /// Link target, for symlinks and hard links.
    pub link: Vec<u8>,
    /// Permission bits (`0o7777`).
    pub mode: u32,
    /// Owner.
    pub uid: u32,
    /// Group.
    pub gid: u32,
    /// Modification time.
    pub mtime: Timestamp,
    /// Bytes of content that follow; regular files only.
    pub size: u64,
    /// Device major number.
    pub major: u32,
    /// Device minor number.
    pub minor: u32,
    /// Extended attributes.
    pub xattrs: Vec<(String, Vec<u8>)>,
}

/// A [`Header`] as contracts speak of it.
#[verifier::ext_equal]
pub struct HeaderView {
    pub path: Seq<u8>,
    pub kind: EntryKind,
    pub link: Seq<u8>,
    pub mode: u32,
    pub uid: u32,
    pub gid: u32,
    pub mtime: Timestamp,
    pub size: u64,
    pub major: u32,
    pub minor: u32,
    pub xattrs: Seq<(Seq<char>, Seq<u8>)>,
}

impl View for Header {
    type V = HeaderView;

    open spec fn view(&self) -> HeaderView {
        HeaderView {
            path: self.path@,
            kind: self.kind,
            link: self.link@,
            mode: self.mode,
            uid: self.uid,
            gid: self.gid,
            mtime: self.mtime,
            size: self.size,
            major: self.major,
            minor: self.minor,
            xattrs: views(self.xattrs@),
        }
    }
}

impl HeaderView {
    /// A header that says nothing.
    pub open spec fn blank() -> HeaderView {
        HeaderView {
            path: Seq::empty(),
            kind: EntryKind::File,
            link: Seq::empty(),
            mode: 0,
            uid: 0,
            gid: 0,
            mtime: Timestamp { secs: 0, nsecs: 0 },
            size: 0,
            major: 0,
            minor: 0,
            xattrs: Seq::empty(),
        }
    }

    /// Bytes of content that follow the header.
    pub open spec fn content_len(self) -> u64 {
        if self.kind == EntryKind::File {
            self.size
        } else {
            0
        }
    }
}

impl Default for Header {
    fn default() -> (r: Self)
        ensures
            r@ == HeaderView::blank(),
    {
        let r = Header {
            path: Vec::new(),
            kind: EntryKind::File,
            link: Vec::new(),
            mode: 0,
            uid: 0,
            gid: 0,
            mtime: Timestamp { secs: 0, nsecs: 0 },
            size: 0,
            major: 0,
            minor: 0,
            xattrs: Vec::new(),
        };
        assert(r@ =~= HeaderView::blank());
        r
    }
}

/// The bytes it takes to fill up the last block of `n` bytes.
pub open spec fn padding(n: nat) -> nat {
    ((BLOCK - n % BLOCK as nat) % BLOCK as int) as nat
}

/// What the PAX key of an extended attribute starts with.
pub open spec fn xattr_prefix() -> Seq<char> {
    "SCHILY.xattr."@
}

/// The PAX records of extended attributes.
pub open spec fn xattr_records(xattrs: Seq<(Seq<char>, Seq<u8>)>) -> Seq<u8>
    decreases xattrs.len(),
{
    if xattrs.len() == 0 {
        Seq::empty()
    } else {
        let (name, value) = xattrs.last();
        xattr_records(xattrs.drop_last()) + record(encode_utf8(xattr_prefix() + name), value)
    }
}

/// The PAX records of what a header block may not hold, written when
/// anything does not fit it.
pub open spec fn overflow_records(h: HeaderView) -> Seq<u8> {
    let size = h.content_len();
    (if h.path.len() > 100 {
        record(encode_utf8("path"@), h.path)
    } else {
        Seq::empty()
    }) + (if h.link.len() > 100 {
        record(encode_utf8("linkpath"@), h.link)
    } else {
        Seq::empty()
    }) + record(encode_utf8("size"@), ascii(decimal(size as nat))) + record(
        encode_utf8("uid"@),
        ascii(decimal(h.uid as nat)),
    ) + record(encode_utf8("gid"@), ascii(decimal(h.gid as nat))) + record(
        encode_utf8("mtime"@),
        ascii(time_text(h.mtime)),
    )
}

/// The PAX records of a header.
#[verifier::opaque]
pub open spec fn pax_of(h: HeaderView) -> Seq<u8> {
    (if !block_fits(h.path, h, h.content_len()) || h.mtime.nsecs != 0 {
        overflow_records(h)
    } else {
        Seq::empty()
    }) + xattr_records(h.xattrs)
}

/// What follows the last `/` of a path, given that a `/` does not end it.
pub open spec fn tail_of(path: Seq<u8>) -> Seq<u8>
    decreases path.len(),
{
    if path.len() == 0 || path.last() == 47 {
        Seq::empty()
    } else {
        tail_of(path.drop_last()).push(path.last())
    }
}

/// The last component of a path, or `x` if it has none.
pub open spec fn base_of(path: Seq<u8>) -> Seq<u8>
    decreases path.len(),
{
    if path.len() == 0 {
        seq![120u8]
    } else if path.last() == 47 {
        base_of(path.drop_last())
    } else {
        tail_of(path)
    }
}

/// The path of the PAX entry before the one at `path`.
pub open spec fn pax_path(path: Seq<u8>) -> Seq<u8> {
    encode_utf8("PaxHeaders/"@) + ustar::at_most(base_of(path), 80)
}

/// The header of the PAX entry before one with header `h`.
pub open spec fn pax_header(h: HeaderView) -> HeaderView {
    HeaderView {
        mode: 0o644,
        mtime: Timestamp {
            secs: if h.mtime.secs > 0 {
                h.mtime.secs
            } else {
                0
            },
            nsecs: 0,
        },
        ..HeaderView::blank()
    }
}

/// What an archive has for a header: the PAX entry, if one is needed, and the
/// header's own block.
pub open spec fn entry_bytes(h: HeaderView) -> Seq<u8> {
    let pax = pax_of(h);
    (if pax.len() > 0 {
        block_bytes(pax_path(h.path), 120, pax_header(h), pax.len() as u64) + pax + zero_bytes(padding(pax.len()))
    } else {
        Seq::empty()
    }) + block_bytes(h.path, h.kind.spec_flag(), h, h.content_len())
}

/// The last component of a path, or `x` if it has none.
fn base(path: &Vec<u8>) -> (r: Vec<u8>)
    ensures
        r@ == base_of(path@),
{
    let mut end: usize = path.len();
    assert(path@.subrange(0, end as int) =~= path@);
    while end > 0 && path[end - 1] == 47
        invariant
            end <= path@.len(),
            base_of(path@) == base_of(path@.subrange(0, end as int)),
        decreases end,
    {
        assert(path@.subrange(0, end as int).drop_last() =~= path@.subrange(0, end - 1));
        end -= 1;
    }
    if end == 0 {
        let r: Vec<u8> = vec![120u8];
        assert(r@ =~= seq![120u8]);
        return r;
    }
    let mut start: usize = end;
    assert(tail_of(path@.subrange(0, end as int)) == tail_of(path@.subrange(0, start as int)) + path@.subrange(
        start as int,
        end as int,
    )) by {
        assert(path@.subrange(end as int, end as int) =~= Seq::<u8>::empty());
        assert(tail_of(path@.subrange(0, end as int)) + Seq::<u8>::empty() =~= tail_of(
            path@.subrange(0, end as int),
        ));
    }
    while start > 0 && path[start - 1] != 47
        invariant
            start <= end <= path@.len(),
            tail_of(path@.subrange(0, end as int)) == tail_of(path@.subrange(0, start as int)) + path@.subrange(
                start as int,
                end as int,
            ),
        decreases start,
    {
        proof {
            let front = path@.subrange(0, start as int);
            let rest = path@.subrange(start as int, end as int);
            assert(front.drop_last() =~= path@.subrange(0, start - 1));
            assert(path@.subrange(start - 1, end as int) =~= seq![front.last()] + rest);
            assert(tail_of(front.drop_last()).push(front.last()) + rest =~= tail_of(front.drop_last()) + (
            seq![front.last()] + rest));
        }
        start -= 1;
    }
    let r = cut(path.as_slice(), start, end);
    assert(Seq::<u8>::empty() + r@ =~= r@);
    r
}

/// Append to `out` the record of a number.
fn number_record(out: &mut Vec<u8>, key: &str, n: u64)
    ensures
        final(out)@ == old(out)@ + record(encode_utf8(key@), ascii(decimal(n as nat))),
{
    proof {
        reveal_strlit("");
        lemma_numeral_is_ascii(n as nat, 10);
    }
    let mut text = String::from_str("");
    push_decimal(&mut text, n);
    assert(text@ =~= decimal(n as nat));
    let mut value: Vec<u8> = Vec::new();
    push_ascii(&mut value, text.as_str());
    assert(value@ =~= ascii(decimal(n as nat)));
    pax_record(out, key, value.as_slice());
}

/// The PAX records of what a header block may not hold.
fn overflow(h: &Header, size: u64) -> (out: Vec<u8>)
    requires
        is_writable(h@.mtime),
        size == h@.content_len(),
    ensures
        out@ == overflow_records(h@),
{
    let mut out: Vec<u8> = Vec::new();
    if h.path.len() > 100 {
        pax_record(&mut out, "path", h.path.as_slice());
    }
    assert(out@ =~= if h@.path.len() > 100 {
        record(encode_utf8("path"@), h@.path)
    } else {
        Seq::empty()
    });
    if h.link.len() > 100 {
        pax_record(&mut out, "linkpath", h.link.as_slice());
    }
    number_record(&mut out, "size", size);
    number_record(&mut out, "uid", h.uid as u64);
    number_record(&mut out, "gid", h.gid as u64);
    let time = pax_time(h.mtime);
    let mut value: Vec<u8> = Vec::new();
    proof {
        lemma_time_is_ascii(h.mtime);
    }
    push_ascii(&mut value, time.as_str());
    assert(value@ =~= ascii(time_text(h.mtime)));
    pax_record(&mut out, "mtime", value.as_slice());
    assert(out@ =~= overflow_records(h@));
    out
}

/// The PAX records of a header; `fits` says whether its block holds it.
fn pax_records(h: &Header, size: u64, fits: bool) -> (out: Vec<u8>)
    requires
        is_writable(h@.mtime),
        size == h@.content_len(),
        fits == block_fits(h@.path, h@, size),
    ensures
        out@ == pax_of(h@),
{
    reveal(pax_of);
    let mut out: Vec<u8> = if !fits || h.mtime.nsecs != 0 {
        overflow(h, size)
    } else {
        Vec::new()
    };
    let ghost front = out@;
    let ghost all = h@.xattrs;
    let mut i: usize = 0;
    proof {
        assert(xattr_records(all.subrange(0, 0)) =~= Seq::<u8>::empty());
        assert(front + Seq::<u8>::empty() =~= front);
    }
    while i < h.xattrs.len()
        invariant
            i <= h.xattrs@.len(),
            all == h@.xattrs,
            out@ == front + xattr_records(all.subrange(0, i as int)),
        decreases h.xattrs@.len() - i,
    {
        let key = String::from_str("SCHILY.xattr.").concat(h.xattrs[i].0.as_str());
        proof {
            let upto = all.subrange(0, i + 1);
            assert(upto.drop_last() =~= all.subrange(0, i as int));
            assert(upto.last() == h.xattrs@[i as int]@);
        }
        pax_record(&mut out, key.as_str(), h.xattrs[i].1.as_slice());
        i += 1;
        assert(out@ =~= front + xattr_records(all.subrange(0, i as int)));
    }
    assert(all.subrange(0, i as int) =~= all);
    out
}

/// The block of the PAX entry before one with header `h`, for `len` bytes of
/// records.
fn pax_block(h: &Header, len: u64) -> (r: Vec<u8>)
    ensures
        r@ == block_bytes(pax_path(h@.path), 120, pax_header(h@), len),
{
    let mut name: Vec<u8> = Vec::new();
    extend(&mut name, "PaxHeaders/".as_bytes());
    let base = base(&h.path);
    let n: usize = if base.len() < 80 {
        base.len()
    } else {
        80
    };
    let part = cut(base.as_slice(), 0, n);
    extend(&mut name, part.as_slice());
    proof {
        assert(base@.len() <= 80 ==> base@.subrange(0, n as int) =~= base@);
        assert(name@ =~= pax_path(h@.path));
    }
    let mut ph = Header::default();
    ph.mode = 0o644;
    ph.mtime = Timestamp {
        secs: if h.mtime.secs > 0 {
            h.mtime.secs
        } else {
            0
        },
        nsecs: 0,
    };
    assert(ph@ =~= pax_header(h@));
    let (block, _) = ustar(&name, 120, &ph, len);
    block
}

/// Writes entries to a [`Sink`].
pub struct Writer<K> {
    sink: K,
    /// Content bytes still owed for the current entry.
    owed: u64,
    /// Padding owed after them.
    pad: usize,
}

impl<K: Sink> Writer<K> {
    /// The stream written to.
    pub closed spec fn sink(&self) -> K {
        self.sink
    }

    /// The archive so far.
    pub open spec fn written(&self) -> Seq<u8> {
        self.sink().written()
    }

    /// Content bytes still owed for the current entry.
    pub closed spec fn owed(&self) -> u64 {
        self.owed
    }

    /// Padding owed after them.
    pub closed spec fn pad(&self) -> nat {
        self.pad as nat
    }

    /// Start an archive.
    pub fn new(sink: K) -> (r: Self)
        ensures
            r.sink() == sink,
            r.owed() == 0,
            r.pad() == 0,
    {
        Writer { sink, owed: 0, pad: 0 }
    }

    /// Begin an entry. A regular file's `size` bytes of content must follow
    /// through [`Writer::data`] before the next entry.
    pub fn begin(&mut self, h: &Header) -> (r: Result<()>)
        requires
            old(self).owed() == 0,
            is_writable(h@.mtime),
        ensures
            match r {
                Ok(_) => {
                    &&& final(self).written() == old(self).written() + zero_bytes(old(self).pad()) + entry_bytes(h@)
                    &&& final(self).owed() == h@.content_len()
                    &&& final(self).pad() == padding(h@.content_len() as nat)
                },
                Err(e) => K::may_refuse(e@),
            },
    {
        let ghost start = self.written() + zero_bytes(self.pad());
        self.finish_entry()?;
        let size: u64 = if h.kind == EntryKind::File {
            h.size
        } else {
            0
        };
        let (block, fits) = ustar(&h.path, h.kind.flag(), h, size);
        let pax = pax_records(h, size, fits);
        if pax.len() > 0 {
            let xb = pax_block(h, pax.len() as u64);
            self.sink.write_all(xb.as_slice())?;
            self.sink.write_all(pax.as_slice())?;
            let fill = zeroes((BLOCK - pax.len() % BLOCK) % BLOCK);
            self.sink.write_all(fill.as_slice())?;
        }
        self.sink.write_all(block.as_slice())?;
        assert(self.written() =~= start + entry_bytes(h@));
        self.owed = size;
        self.pad = ((BLOCK as u64 - size % BLOCK as u64) % BLOCK as u64) as usize;
        Ok(())
    }

    /// Content of the current entry.
    pub fn data(&mut self, buf: &[u8]) -> (r: Result<()>)
        requires
            buf@.len() <= old(self).owed(),
        ensures
            match r {
                Ok(_) => {
                    &&& final(self).written() == old(self).written() + buf@
                    &&& final(self).owed() == old(self).owed() - buf@.len()
                    &&& final(self).pad() == old(self).pad()
                },
                Err(e) => K::may_refuse(e@),
            },
    {
        self.owed = self.owed - buf.len() as u64;
        self.sink.write_all(buf)
    }

    fn finish_entry(&mut self) -> (r: Result<()>)
        ensures
            match r {
                Ok(_) => {
                    &&& final(self).written() == old(self).written() + zero_bytes(old(self).pad())
                    &&& final(self).owed() == old(self).owed()
                    &&& final(self).pad() == 0
                },
                Err(e) => K::may_refuse(e@),
            },
    {
        if self.pad > 0 {
            let fill = zeroes(self.pad);
            self.pad = 0;
            self.sink.write_all(fill.as_slice())?;
        } else {
            assert(self.written() =~= self.written() + zero_bytes(0));
        }
        Ok(())
    }

    /// Write an entry and all of its content at once.
    pub fn append(&mut self, h: &Header, data: &[u8]) -> (r: Result<()>)
        requires
            old(self).owed() == 0,
            is_writable(h@.mtime),
            data@.len() <= h@.content_len(),
        ensures
            match r {
                Ok(_) => {
                    &&& final(self).written() == old(self).written() + zero_bytes(old(self).pad()) + entry_bytes(h@)
                        + data@
                    &&& final(self).owed() == h@.content_len() - data@.len()
                    &&& final(self).pad() == padding(h@.content_len() as nat)
                },
                Err(e) => K::may_refuse(e@),
            },
    {
        self.begin(h)?;
        self.data(data)
    }

    /// End the archive with its two zero blocks, and flush.
    pub fn finish(&mut self) -> (r: Result<()>)
        requires
            old(self).owed() == 0,
        ensures
            match r {
                Ok(_) => {
                    &&& final(self).written() == old(self).written() + zero_bytes(old(self).pad()) + zero_bytes(
                        (2 * BLOCK) as nat,
                    )
                    &&& final(self).sink().is_flushed()
                    &&& final(self).owed() == 0
                    &&& final(self).pad() == 0
                },
                Err(e) => K::may_refuse(e@),
            },
    {
        self.finish_entry()?;
        let fill = zeroes(2 * BLOCK);
        self.sink.write_all(fill.as_slice())?;
        self.sink.flush()
    }

    /// The sink back.
    pub fn into_inner(self) -> (r: K)
        ensures
            r == self.sink(),
    {
        self.sink
    }
}

/// A header takes whole blocks, and so does its content once it is padded.
pub proof fn lemma_whole_blocks(h: HeaderView)
    ensures
        entry_bytes(h).len() % BLOCK as nat == 0,
        (h.content_len() + padding(h.content_len() as nat)) % BLOCK as int == 0,
        padding(h.content_len() as nat) < BLOCK,
{
    let pax = pax_of(h);
    ustar::lemma_checksum(h.path, h.kind.spec_flag(), h, h.content_len());
    ustar::lemma_checksum(pax_path(h.path), 120, pax_header(h), pax.len() as u64);
}

} // verus!
