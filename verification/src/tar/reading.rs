//! What a reader of an archive finds in an entry.

use vstd::prelude::*;
use vstd::utf8::encode_utf8;

use crate::bytes::{overwritten, zero_bytes};
use crate::inode::Timestamp;
use crate::tar::pax::{lemma_record_counts_itself, record, time_text};
use crate::tar::ustar::{
    block_bytes, block_fits, byte_sum, lemma_checksum, lemma_names_read_back, lemma_numbers_read_back,
    lemma_octal_fits, spaces,
};
use crate::tar::{
    base_of, entry_bytes, overflow_records, padding, pax_header, pax_of, pax_path, tail_of, xattr_prefix, xattr_records, EntryKind,
    HeaderView,
};
use crate::text::{ascii, decimal, number_in};

verus! {

/// Whether `r` is a PAX record: its own length, a space, the key, `=`, the
/// value and a line feed.
pub open spec fn is_record(r: Seq<u8>, key: Seq<char>, value: Seq<u8>) -> bool {
    r == ascii(decimal(r.len())) + seq![32u8] + encode_utf8(key) + seq![61u8] + value + seq![10u8]
}

/// Whether there is a record with that key and value among PAX records.
pub open spec fn has_record(pax: Seq<u8>, key: Seq<char>, value: Seq<u8>) -> bool {
    exists|a: int, b: int| 0 <= a <= b <= pax.len() && is_record(#[trigger] pax.subrange(a, b), key, value)
}

/// Whether seven octal digits at `o` of a block, or else a record, say `v`.
pub open spec fn says_id(block: Seq<u8>, o: int, pax: Seq<u8>, key: Seq<char>, v: u32) -> bool {
    if v < 0o1000_0000 {
        number_in(block.subrange(o, o + 7), 8) == v
    } else {
        has_record(pax, key, ascii(decimal(v as nat)))
    }
}

/// Whether eleven octal digits at 124 of a block, or else a record, say that
/// `v` bytes follow.
pub open spec fn says_size(block: Seq<u8>, pax: Seq<u8>, v: u64) -> bool {
    if v < 0o1000_0000_0000 {
        number_in(block.subrange(124, 135), 8) == v
    } else {
        has_record(pax, "size"@, ascii(decimal(v as nat)))
    }
}

/// Whether eleven octal digits at 136 of a block say the seconds of a time, as
/// far as they can, and a record says the time where they cannot say all of it.
pub open spec fn says_time(block: Seq<u8>, pax: Seq<u8>, t: Timestamp) -> bool {
    let fits = 0 <= t.secs < 0o1000_0000_0000;
    &&& fits ==> number_in(block.subrange(136, 147), 8) == t.secs
    &&& !fits || t.nsecs != 0 ==> has_record(pax, "mtime"@, ascii(time_text(t)))
}

/// Whether up to a hundred bytes at `o` of a block, ended by a zero byte where
/// there is room, or else a record, say `text`.
pub open spec fn says_text(block: Seq<u8>, o: int, pax: Seq<u8>, key: Seq<char>, text: Seq<u8>) -> bool {
    if text.len() <= 100 {
        &&& block.subrange(o, o + text.len()) == text
        &&& text.len() < 100 ==> block[o + text.len()] == 0
    } else {
        has_record(pax, key, text)
    }
}

/// Whether a block's checksum, magic and version are right.
pub open spec fn is_block(block: Seq<u8>) -> bool {
    &&& block.len() == 512
    &&& number_in(block.subrange(148, 154), 8) == byte_sum(overwritten(block, 148, spaces()))
    &&& block.subrange(257, 265) == seq![0x75u8, 0x73u8, 0x74u8, 0x61u8, 0x72u8, 0u8, 0x30u8, 0x30u8]
}

/// The digit that stands for a kind of entry.
pub open spec fn kind_digit(kind: EntryKind) -> int {
    match kind {
        EntryKind::File => 0,
        EntryKind::HardLink => 1,
        EntryKind::Symlink => 2,
        EntryKind::CharDevice => 3,
        EntryKind::BlockDevice => 4,
        EntryKind::Directory => 5,
        EntryKind::Fifo => 6,
    }
}

/// Whether a block and the PAX records before it say all that a header does.
pub open spec fn says(block: Seq<u8>, pax: Seq<u8>, h: HeaderView) -> bool {
    &&& is_block(block)
    &&& says_text(block, 0, pax, "path"@, h.path)
    &&& number_in(block.subrange(100, 107), 8) == h.mode % 0o10000
    &&& says_id(block, 108, pax, "uid"@, h.uid)
    &&& says_id(block, 116, pax, "gid"@, h.gid)
    &&& says_size(block, pax, if h.kind == EntryKind::File {
        h.size
    } else {
        0
    })
    &&& says_time(block, pax, h.mtime)
    &&& block[156] == 48 + kind_digit(h.kind)
    &&& says_text(block, 157, pax, "linkpath"@, h.link)
    &&& h.kind == EntryKind::CharDevice || h.kind == EntryKind::BlockDevice ==> {
        &&& h.major < 0o1000_0000 ==> number_in(block.subrange(329, 336), 8) == h.major
        &&& h.minor < 0o1000_0000 ==> number_in(block.subrange(337, 344), 8) == h.minor
    }
    &&& forall|i: int|
        0 <= i < h.xattrs.len() ==> has_record(pax, "SCHILY.xattr."@ + (#[trigger] h.xattrs[i]).0, h.xattrs[i].1)
}

/// `n` bytes in whole blocks.
pub open spec fn in_blocks(n: int) -> int {
    (n + 511) / 512 * 512
}

/// Where the block of the entry at `at` is, `pax` being the PAX records before
/// it.
pub open spec fn block_place(at: int, pax: Seq<u8>) -> int {
    if pax.len() == 0 {
        at
    } else {
        at + 512 + in_blocks(pax.len() as int)
    }
}

/// Whether an archive has an entry at `at`, with the PAX records `pax`, that
/// says what a header does: its block, after a block of kind `x` and the
/// records where there are any.
pub open spec fn has_entry(archive: Seq<u8>, at: int, pax: Seq<u8>, h: HeaderView) -> bool {
    let place = block_place(at, pax);
    &&& 0 <= at
    &&& at % 512 == 0
    &&& place + 512 <= archive.len()
    &&& says(archive.subrange(place, place + 512), pax, h)
    &&& pax.len() > 0 ==> {
        let before = archive.subrange(at, at + 512);
        &&& is_block(before)
        &&& before[156] == 120
        &&& pax.len() < 0o1000_0000_0000 ==> number_in(before.subrange(124, 135), 8) == pax.len()
        &&& archive.subrange(at + 512, at + 512 + pax.len()) == pax
    }
}

proof fn lemma_record(key: Seq<char>, value: Seq<u8>)
    ensures
        is_record(record(encode_utf8(key), value), key, value),
{
    lemma_record_counts_itself(encode_utf8(key), value);
}

proof fn lemma_has_record(front: Seq<u8>, key: Seq<char>, value: Seq<u8>, back: Seq<u8>)
    ensures
        has_record(front + record(encode_utf8(key), value) + back, key, value),
{
    let r = record(encode_utf8(key), value);
    let all = front + r + back;
    let a = front.len() as int;
    let b = a + r.len();
    lemma_record(key, value);
    assert(all.subrange(a, b) =~= r);
}

proof fn lemma_record_stays(front: Seq<u8>, pax: Seq<u8>, back: Seq<u8>, key: Seq<char>, value: Seq<u8>)
    requires
        has_record(pax, key, value),
    ensures
        has_record(front + pax + back, key, value),
{
    let (a, b) = choose|a: int, b: int|
        0 <= a <= b <= pax.len() && is_record(#[trigger] pax.subrange(a, b), key, value);
    let all = front + pax + back;
    let n = front.len() as int;
    assert(all.subrange(n + a, n + b) =~= pax.subrange(a, b));
}

proof fn lemma_xattr_records(xattrs: Seq<(Seq<char>, Seq<u8>)>, i: int)
    requires
        0 <= i < xattrs.len(),
    ensures
        has_record(xattr_records(xattrs), "SCHILY.xattr."@ + xattrs[i].0, xattrs[i].1),
    decreases xattrs.len(),
{
    let front = xattr_records(xattrs.drop_last());
    let (name, value) = xattrs.last();
    let all = xattr_records(xattrs);
    let last = record(encode_utf8(xattr_prefix() + name), value);
    let none = Seq::<u8>::empty();
    if i == xattrs.len() - 1 {
        lemma_has_record(front, "SCHILY.xattr."@ + name, value, none);
        assert(all =~= front + last + none);
    } else {
        lemma_xattr_records(xattrs.drop_last(), i);
        lemma_record_stays(none, front, last, "SCHILY.xattr."@ + xattrs[i].0, xattrs[i].1);
        assert(all =~= none + front + last);
    }
}

proof fn lemma_overflow_records(h: HeaderView)
    ensures
        ({
            let pax = overflow_records(h);
            &&& h.path.len() > 100 ==> has_record(pax, "path"@, h.path)
            &&& h.link.len() > 100 ==> has_record(pax, "linkpath"@, h.link)
            &&& has_record(pax, "size"@, ascii(decimal(h.content_len() as nat)))
            &&& has_record(pax, "uid"@, ascii(decimal(h.uid as nat)))
            &&& has_record(pax, "gid"@, ascii(decimal(h.gid as nat)))
            &&& has_record(pax, "mtime"@, ascii(time_text(h.mtime)))
        }),
{
    let none = Seq::<u8>::empty();
    let path = if h.path.len() > 100 {
        record(encode_utf8("path"@), h.path)
    } else {
        none
    };
    let link = if h.link.len() > 100 {
        record(encode_utf8("linkpath"@), h.link)
    } else {
        none
    };
    let sv = ascii(decimal(h.content_len() as nat));
    let uv = ascii(decimal(h.uid as nat));
    let gv = ascii(decimal(h.gid as nat));
    let tv = ascii(time_text(h.mtime));
    let size = record(encode_utf8("size"@), sv);
    let uid = record(encode_utf8("uid"@), uv);
    let gid = record(encode_utf8("gid"@), gv);
    let time = record(encode_utf8("mtime"@), tv);
    let pax = overflow_records(h);
    lemma_six(path, link, size, uid, gid, time);
    if h.path.len() > 100 {
        lemma_has_record(none, "path"@, h.path, link + size + uid + gid + time);
    }
    if h.link.len() > 100 {
        lemma_has_record(path, "linkpath"@, h.link, size + uid + gid + time);
    }
    lemma_has_record(path + link, "size"@, sv, uid + gid + time);
    lemma_has_record(path + link + size, "uid"@, uv, gid + time);
    lemma_has_record(path + link + size + uid, "gid"@, gv, time);
    lemma_has_record(path + link + size + uid + gid, "mtime"@, tv, none);
}

proof fn lemma_six(a: Seq<u8>, b: Seq<u8>, c: Seq<u8>, d: Seq<u8>, e: Seq<u8>, f: Seq<u8>)
    ensures
        a + b + c + d + e + f == Seq::<u8>::empty() + a + (b + c + d + e + f),
        a + b + c + d + e + f == a + b + (c + d + e + f),
        a + b + c + d + e + f == a + b + c + (d + e + f),
        a + b + c + d + e + f == a + b + c + d + (e + f),
        a + b + c + d + e + f == a + b + c + d + e + f + Seq::<u8>::empty(),
{
    let all = a + b + c + d + e + f;
    assert(all =~= Seq::<u8>::empty() + a + (b + c + d + e + f));
    assert(all =~= a + b + (c + d + e + f));
    assert(all =~= a + b + c + (d + e + f));
    assert(all =~= a + b + c + d + (e + f));
    assert(all =~= all + Seq::<u8>::empty());
}

/// What overflows a block is in the PAX records, and so is every extended
/// attribute.
proof fn lemma_pax(h: HeaderView)
    ensures
        ({
            let pax = pax_of(h);
            let spills = !block_fits(h.path, h, h.content_len()) || h.mtime.nsecs != 0;
            &&& spills && h.path.len() > 100 ==> has_record(pax, "path"@, h.path)
            &&& spills && h.link.len() > 100 ==> has_record(pax, "linkpath"@, h.link)
            &&& spills ==> has_record(pax, "size"@, ascii(decimal(h.content_len() as nat)))
            &&& spills ==> has_record(pax, "uid"@, ascii(decimal(h.uid as nat)))
            &&& spills ==> has_record(pax, "gid"@, ascii(decimal(h.gid as nat)))
            &&& spills ==> has_record(pax, "mtime"@, ascii(time_text(h.mtime)))
            &&& forall|i: int|
                0 <= i < h.xattrs.len() ==> has_record(
                    pax,
                    "SCHILY.xattr."@ + (#[trigger] h.xattrs[i]).0,
                    h.xattrs[i].1,
                )
        }),
{
    reveal(pax_of);
    let pax = pax_of(h);
    let none = Seq::<u8>::empty();
    let spills = !block_fits(h.path, h, h.content_len()) || h.mtime.nsecs != 0;
    let front = if spills {
        overflow_records(h)
    } else {
        none
    };
    let back = xattr_records(h.xattrs);
    assert(pax =~= none + front + back);
    assert(pax =~= front + back + none);
    if spills {
        lemma_overflow_records(h);
        if h.path.len() > 100 {
            lemma_record_stays(none, front, back, "path"@, h.path);
        }
        if h.link.len() > 100 {
            lemma_record_stays(none, front, back, "linkpath"@, h.link);
        }
        lemma_record_stays(none, front, back, "size"@, ascii(decimal(h.content_len() as nat)));
        lemma_record_stays(none, front, back, "uid"@, ascii(decimal(h.uid as nat)));
        lemma_record_stays(none, front, back, "gid"@, ascii(decimal(h.gid as nat)));
        lemma_record_stays(none, front, back, "mtime"@, ascii(time_text(h.mtime)));
    }
    assert forall|i: int| 0 <= i < h.xattrs.len() implies has_record(
        pax,
        "SCHILY.xattr."@ + (#[trigger] h.xattrs[i]).0,
        h.xattrs[i].1,
    ) by {
        lemma_xattr_records(h.xattrs, i);
        lemma_record_stays(front, back, none, "SCHILY.xattr."@ + h.xattrs[i].0, h.xattrs[i].1);
    }
}

/// A header's block and its PAX records say all that the header does.
pub proof fn lemma_header_is_said(h: HeaderView)
    ensures
        says(block_bytes(h.path, h.kind.spec_flag(), h, h.content_len()), pax_of(h), h),
{
    let size = h.content_len();
    let block = block_bytes(h.path, h.kind.spec_flag(), h, size);
    lemma_pax(h);
    lemma_checksum(h.path, h.kind.spec_flag(), h, size);
    lemma_numbers_read_back(h.path, h.kind.spec_flag(), h, size);
    lemma_names_read_back(h.path, h.kind.spec_flag(), h, size);
    reveal_with_fuel(vstd::arithmetic::power::pow, 12);
    lemma_octal_fits(h.uid as nat, 7);
    lemma_octal_fits(h.gid as nat, 7);
    lemma_octal_fits(size as nat, 11);
    if h.mtime.secs >= 0 {
        lemma_octal_fits(h.mtime.secs as nat, 11);
    }
    assert(is_block(block));
    assert(says_text(block, 0, pax_of(h), "path"@, h.path));
    assert(says_text(block, 157, pax_of(h), "linkpath"@, h.link));
}

/// What an archive has for a header is an entry that says all the header does,
/// wherever in an archive of whole blocks it stands.
pub proof fn lemma_entry_is_said(front: Seq<u8>, h: HeaderView, back: Seq<u8>)
    requires
        front.len() % 512 == 0,
    ensures
        has_entry(front + entry_bytes(h) + back, front.len() as int, pax_of(h), h),
        entry_bytes(h).len() == block_place(0, pax_of(h)) + 512,
{
    let pax = pax_of(h);
    let archive = front + entry_bytes(h) + back;
    let at = front.len() as int;
    let block = block_bytes(h.path, h.kind.spec_flag(), h, h.content_len());
    let place = block_place(at, pax);
    lemma_header_is_said(h);
    if pax.len() > 0 {
        let n = pax.len() as u64;
        let before = block_bytes(pax_path(h.path), 120, pax_header(h), n);
        lemma_checksum(pax_path(h.path), 120, pax_header(h), n);
        lemma_numbers_read_back(pax_path(h.path), 120, pax_header(h), n);
        lemma_names_read_back(pax_path(h.path), 120, pax_header(h), n);
        let pad = zero_bytes(padding(pax.len()));
        assert(pax.len() + padding(pax.len()) == in_blocks(pax.len() as int));
        assert(archive.subrange(at, at + 512) =~= before);
        assert(archive.subrange(at + 512, at + 512 + pax.len()) =~= pax);
    }
    assert(archive.subrange(place, place + 512) =~= block);
}

/// Where a block says all there is to say, nothing comes before it.
pub proof fn lemma_block_alone(h: HeaderView)
    requires
        h.path.len() <= 100,
        h.link.len() <= 100,
        h.uid < 0o1000_0000,
        h.gid < 0o1000_0000,
        h.kind == EntryKind::File ==> h.size < 0o1000_0000_0000,
        0 <= h.mtime.secs < 0o1000_0000_0000,
        h.mtime.nsecs == 0,
        h.kind == EntryKind::CharDevice || h.kind == EntryKind::BlockDevice ==> h.major < 0o1000_0000 && h.minor
            < 0o1000_0000,
        h.xattrs.len() == 0,
    ensures
        pax_of(h).len() == 0,
        entry_bytes(h).len() == 512,
{
    reveal(pax_of);
    reveal_with_fuel(vstd::arithmetic::power::pow, 12);
    lemma_octal_fits(h.uid as nat, 7);
    lemma_octal_fits(h.gid as nat, 7);
    lemma_octal_fits(h.content_len() as nat, 11);
    lemma_octal_fits(h.mtime.secs as nat, 11);
    lemma_octal_fits(h.major as nat, 7);
    lemma_octal_fits(h.minor as nat, 7);
    lemma_checksum(h.path, h.kind.spec_flag(), h, h.content_len());
}

proof fn lemma_tail(front: Seq<u8>, name: Seq<u8>)
    requires
        !name.contains(47),
        front.len() == 0 || front.last() == 47,
    ensures
        tail_of(front + name) == name,
    decreases name.len(),
{
    let path = front + name;
    if name.len() == 0 {
        assert(path =~= front);
        assert(tail_of(path) =~= name);
    } else {
        let less = name.drop_last();
        assert(path.drop_last() =~= front + less);
        assert(path.last() == name.last());
        assert(name.contains(name.last()));
        assert(!less.contains(47)) by {
            if less.contains(47) {
                let k = choose|k: int| 0 <= k < less.len() && less[k] == 47;
                assert(name[k] == 47);
            }
        }
        lemma_tail(front, less);
        assert(less.push(name.last()) =~= name);
    }
}

proof fn lemma_base(front: Seq<u8>, name: Seq<u8>, slashes: nat)
    requires
        name.len() > 0,
        !name.contains(47),
        front.len() == 0 || front.last() == 47,
    ensures
        base_of(front + name + Seq::new(slashes, |i: int| 47u8)) == name,
    decreases slashes,
{
    let path = front + name + Seq::new(slashes, |i: int| 47u8);
    if slashes == 0 {
        assert(path =~= front + name);
        assert(path.last() == name.last());
        assert(name.contains(name.last()));
        lemma_tail(front, name);
    } else {
        let fewer = (slashes - 1) as nat;
        assert(path.last() == 47);
        assert(path.drop_last() =~= front + name + Seq::new(fewer, |i: int| 47u8));
        lemma_base(front, name, fewer);
    }
}

/// The entry of the records before a path's own is a readable file that nobody
/// in particular owns, called by as much as there is room for of what the path
/// is called after its last slash, any at its end left out.
pub proof fn lemma_records_are_named(h: HeaderView, front: Seq<u8>, name: Seq<u8>, slashes: nat)
    requires
        h.path == front + name + Seq::new(slashes, |i: int| 47u8),
        name.len() > 0,
        !name.contains(47),
        front.len() == 0 || front.last() == 47,
        pax_of(h).len() > 0,
    ensures
        ({
            let block = entry_bytes(h).subrange(0, 512);
            let called = encode_utf8("PaxHeaders/"@) + if name.len() <= 80 {
                name
            } else {
                name.take(80)
            };
            &&& called.len() < 100 ==> block.subrange(0, called.len() as int) == called && block[called.len() as int] == 0
            &&& number_in(block.subrange(100, 107), 8) == 0o644
            &&& number_in(block.subrange(108, 115), 8) == 0
            &&& number_in(block.subrange(116, 123), 8) == 0
            &&& 0 <= h.mtime.secs < 0o1000_0000_0000 ==> number_in(block.subrange(136, 147), 8) == h.mtime.secs
            &&& h.mtime.secs < 0 ==> number_in(block.subrange(136, 147), 8) == 0
        }),
{
    lemma_base(front, name, slashes);
    let n = pax_of(h).len() as u64;
    let called = pax_path(h.path);
    assert(name.len() > 80 ==> name.take(80) =~= name.subrange(0, 80));
    let before = block_bytes(called, 120, pax_header(h), n);
    lemma_checksum(called, 120, pax_header(h), n);
    lemma_numbers_read_back(called, 120, pax_header(h), n);
    lemma_names_read_back(called, 120, pax_header(h), n);
    assert(entry_bytes(h).subrange(0, 512) =~= before);
}

} // verus!
