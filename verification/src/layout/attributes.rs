//! Extended attributes as written: small ones in the inode, leaves, nodes and
//! the blocks of large values.

use vstd::prelude::*;

use crate::attr::{
    block_of, full_name_of, leaf_entry, leaf_names, namespaced, posix_acl_of, remote_payload_of, short_attrs,
    shortform_of, BlockView, FoundView, ValueView, XattrView, INCOMPLETE, LOCAL, PARENT, ROOT, SECURE,
};
use crate::bmap::Extent;
use crate::bytes::{be16_at, be32_at};
use crate::crc;
use crate::error::{prefixed, Fault};
use crate::inode::{Format, InodeView};
use crate::layout::{be16_bytes, be32_bytes, be64_bytes, lemma_be16, lemma_be32, lemma_be64};
use crate::sb::Superblock;
use crate::volume::map::mapped;
use crate::volume::xattrs::{chained, remote_bytes, shown_value, still_wanted, with_values, xattrs_of};

verus! {

/// An attribute as it is kept: flags, a name and a value.
pub struct Kept {
    pub flags: u8,
    pub name: Seq<u8>,
    pub value: Seq<u8>,
}

proof fn lemma_flag_bits(flags: u8)
    ensures
        (flags & LOCAL != 0) == (flags as int % 2 == 1),
        (flags & ROOT != 0) == (flags as int / 2 % 2 == 1),
        (flags & SECURE != 0) == (flags as int / 4 % 2 == 1),
        (flags & (INCOMPLETE | PARENT) != 0) == (flags as int / 8 % 2 == 1 || flags as int / 128 == 1),
{
    assert((flags & 0x1 != 0) == (flags % 2 == 1) && (flags & 0x2 != 0) == (flags / 2 % 2 == 1) && (flags & 0x4 != 0)
        == (flags / 4 % 2 == 1) && (flags & (0x80u8 | 0x08u8) != 0) == (flags / 8 % 2 == 1 || flags / 128 == 1))
        by (bit_vector);
}

/// What name an attribute has for its users. The third flag makes it
/// `security.`, the second `trusted.` but for the two lists of access rights,
/// and neither of them `user.`; parent pointers and attributes that are not
/// complete, which the fourth and the eighth flag mark, have none.
pub proof fn lemma_namespaces(flags: u8, text: Seq<char>)
    ensures
        ({
            let is_hidden = flags as int / 8 % 2 == 1 || flags as int / 128 == 1;
            let is_secure = flags as int / 4 % 2 == 1;
            let is_root = flags as int / 2 % 2 == 1;
            let got = namespaced(flags, text);
            &&& is_hidden <==> got is None
            &&& !is_hidden && is_secure ==> got == Some("security."@ + text)
            &&& !is_hidden && !is_secure && !is_root ==> got == Some("user."@ + text)
            &&& !is_hidden && !is_secure && is_root ==> {
                &&& text == "SGI_ACL_FILE"@ ==> got == Some("system.posix_acl_access"@)
                &&& text == "SGI_ACL_DEFAULT"@ ==> got == Some("system.posix_acl_default"@)
                &&& text != "SGI_ACL_FILE"@ && text != "SGI_ACL_DEFAULT"@ ==> got == Some("trusted."@ + text)
            }
        }),
{
    lemma_flag_bits(flags);
    reveal_strlit("SGI_ACL_FILE");
    reveal_strlit("SGI_ACL_DEFAULT");
    assert("SGI_ACL_FILE"@.len() != "SGI_ACL_DEFAULT"@.len());
}

/// What is found of attributes that are kept whole: those that have a name for
/// their users, in their order.
pub open spec fn found_among(kept: Seq<Kept>) -> Seq<FoundView>
    decreases kept.len(),
{
    if kept.len() == 0 {
        Seq::empty()
    } else {
        (match full_name_of(kept[0].flags, kept[0].name) {
            Some(name) => seq![FoundView { name, value: ValueView::Inline(kept[0].value) }],
            None => Seq::empty(),
        }) + found_among(kept.skip(1))
    }
}

/// Whether `b` is an attribute in an inode: the lengths of its name and its
/// value, its flags, and both.
pub open spec fn is_short_attr(b: Seq<u8>, a: Kept) -> bool {
    let (n, v) = (a.name.len() as int, a.value.len() as int);
    &&& b.len() == 3 + n + v
    &&& b[0] == n
    &&& b[1] == v
    &&& b[2] == a.flags
    &&& b.subrange(3, 3 + n) == a.name
    &&& b.subrange(3 + n, 3 + n + v) == a.value
}

/// Whether `b` is attributes in an inode, one after another.
pub open spec fn are_short_attrs(b: Seq<u8>, kept: Seq<Kept>) -> bool
    decreases kept.len(),
{
    if kept.len() == 0 {
        b.len() == 0
    } else {
        let n = 3 + kept[0].name.len() as int + kept[0].value.len() as int;
        &&& kept[0].name.len() <= 255
        &&& kept[0].value.len() <= 255
        &&& n <= b.len()
        &&& is_short_attr(b.subrange(0, n), kept[0])
        &&& are_short_attrs(b.subrange(n, b.len() as int), kept.skip(1))
    }
}

proof fn lemma_short_attrs_from(fork: Seq<u8>, total: int, p: int, kept: Seq<Kept>)
    requires
        0 <= p <= total <= fork.len(),
        are_short_attrs(fork.subrange(p, total), kept),
    ensures
        short_attrs(fork, total, p, kept.len()) == Ok::<Seq<FoundView>, Fault>(found_among(kept)),
    decreases kept.len(),
{
    if kept.len() > 0 {
        let a = kept[0];
        let rest = fork.subrange(p, total);
        let n = 3 + a.name.len() as int + a.value.len() as int;
        let b = rest.subrange(0, n);
        assert forall|i: int| 0 <= i < n implies #[trigger] b[i] == fork[p + i] by {}
        assert(b[0] == fork[p] && b[1] == fork[p + 1] && b[2] == fork[p + 2]);
        let value_at = p + 3 + a.name.len() as int;
        assert(fork.subrange(p + 3, value_at) =~= b.subrange(3, 3 + a.name.len() as int));
        assert(fork.subrange(value_at, p + n) =~= b.subrange(3 + a.name.len() as int, n));
        assert(fork.subrange(p + n, total) =~= rest.subrange(n, rest.len() as int));
        lemma_short_attrs_from(fork, total, p + n, kept.skip(1));
    } else {
        assert(found_among(kept) =~= Seq::<FoundView>::empty());
    }
}

/// Attributes that are written in an inode read back: those with a name for
/// their users, with their values. Before them stand the length of it all and
/// how many there are.
pub proof fn lemma_short_attrs_read_back(fork: Seq<u8>, used: u16, kept: Seq<Kept>)
    requires
        4 <= used <= fork.len(),
        fork.subrange(0, 2) == be16_bytes(used),
        fork[2] == kept.len(),
        are_short_attrs(fork.subrange(4, used as int), kept),
    ensures
        shortform_of(fork) == Ok::<Seq<FoundView>, Fault>(found_among(kept)),
{
    lemma_be16(fork, 0);
    lemma_short_attrs_from(fork, used as int, 4, kept);
}

/// Whether `b` has, at `at`, an attribute with its value: the value's length,
/// the name's, and both.
pub open spec fn has_local_attr(b: Seq<u8>, at: int, name: Seq<u8>, value: Seq<u8>) -> bool {
    let (n, v) = (name.len() as int, value.len() as int);
    &&& n <= 255
    &&& v <= 0xffff
    &&& at + 3 + n + v <= b.len()
    &&& b.subrange(at, at + 2) == be16_bytes(v as u16)
    &&& b[at + 2] == n
    &&& b.subrange(at + 3, at + 3 + n) == name
    &&& b.subrange(at + 3 + n, at + 3 + n + v) == value
}

/// Whether `b` has, at `at`, an attribute whose value is in blocks of its own:
/// the first block, the value's length, the name's, and the name.
pub open spec fn has_remote_attr(b: Seq<u8>, at: int, name: Seq<u8>, blk: u32, len: u32) -> bool {
    let n = name.len() as int;
    &&& n <= 255
    &&& at + 9 + n <= b.len()
    &&& b.subrange(at, at + 4) == be32_bytes(blk)
    &&& b.subrange(at + 4, at + 8) == be32_bytes(len)
    &&& b[at + 8] == n
    &&& b.subrange(at + 9, at + 9 + n) == name
}

/// Whether `b` has, at `e`, the entry of a leaf for what is at `at`: a hash,
/// the place and the flags.
pub open spec fn has_leaf_entry(b: Seq<u8>, e: int, at: u16, flags: u8) -> bool {
    &&& 0 <= e
    &&& e + 8 <= b.len()
    &&& b.subrange(e + 4, e + 6) == be16_bytes(at)
    &&& b[e + 6] == flags
}

/// An attribute that is written in a leaf reads back: with its value where the
/// first flag says that the value is there, and else with the value's place and
/// length.
pub proof fn lemma_leaf_attr_reads_back(
    b: Seq<u8>,
    e: int,
    at: u16,
    flags: u8,
    name: Seq<u8>,
    value: Seq<u8>,
    blk: u32,
    len: u32,
)
    requires
        has_leaf_entry(b, e, at, flags),
        flags as int % 2 == 1 ==> has_local_attr(b, at as int, name, value),
        flags as int % 2 == 0 ==> has_remote_attr(b, at as int, name, blk, len),
    ensures
        leaf_entry(b, e) == Some(
            match full_name_of(flags, name) {
                Some(full) => seq![
                    FoundView {
                        name: full,
                        value: if flags as int % 2 == 1 {
                            ValueView::Inline(value)
                        } else {
                            ValueView::Remote { blk, len }
                        },
                    },
                ],
                None => Seq::empty(),
            },
        ),
{
    lemma_flag_bits(flags);
    lemma_be16(b, e + 4);
    let at = at as int;
    if flags as int % 2 == 1 {
        lemma_be16(b, at);
    } else {
        lemma_be32(b, at);
        lemma_be32(b, at + 4);
    }
}

/// Whether an attribute fork's block begins with the block after it, and has
/// its magic at byte 8, its checksum and its owner where blocks have these, and
/// how many entries it has: at byte 56, or 12.
pub open spec fn is_attr_header(sb: Superblock, b: Seq<u8>, ino: u64, forw: u32, magic: Seq<u8>, count: u16) -> bool {
    &&& b.subrange(0, 4) == be32_bytes(forw)
    &&& b.subrange(8, 10) == magic
    &&& sb.version == 5 ==> {
        &&& 64 <= b.len()
        &&& crc::is_sealed(b, 12)
        &&& b.subrange(48, 56) == be64_bytes(ino)
        &&& b.subrange(56, 58) == be16_bytes(count)
    }
    &&& sb.version != 5 ==> {
        &&& 16 <= b.len()
        &&& b.subrange(12, 14) == be16_bytes(count)
    }
}

proof fn lemma_magic(b: Seq<u8>)
    requires
        10 <= b.len(),
    ensures
        b.subrange(8, 10) == seq![0x3eu8, 0xbeu8] ==> be16_at(b, 8) == 0x3ebe,
        b.subrange(8, 10) == seq![0xfeu8, 0xbeu8] ==> be16_at(b, 8) == 0xfebe,
        b.subrange(8, 10) == seq![0x3bu8, 0xeeu8] ==> be16_at(b, 8) == 0x3bee,
        b.subrange(8, 10) == seq![0xfbu8, 0xeeu8] ==> be16_at(b, 8) == 0xfbee,
{
    let s = b.subrange(8, 10);
    assert(s[0] == b[8] && s[1] == b[9]);
}

/// A node of an attribute fork reads back: its leftmost child is the first
/// entry's, after the first entry's hash.
pub proof fn lemma_attr_node_reads_back(sb: Superblock, b: Seq<u8>, ino: u64, fsb: u64, forw: u32, count: u16, child: u32)
    requires
        is_attr_header(
            sb,
            b,
            ino,
            forw,
            if sb.version == 5 {
                seq![0x3eu8, 0xbeu8]
            } else {
                seq![0xfeu8, 0xbeu8]
            },
            count,
        ),
        count > 0,
        sb.version == 5 ==> 72 <= b.len() && b.subrange(68, 72) == be32_bytes(child),
        sb.version != 5 ==> 24 <= b.len() && b.subrange(20, 24) == be32_bytes(child),
    ensures
        block_of(sb, b, ino, fsb) == Ok::<BlockView, Fault>(BlockView::Node { first_child: child }),
{
    lemma_magic(b);
    if sb.version == 5 {
        lemma_be64(b, 48);
        lemma_be16(b, 56);
        lemma_be32(b, 68);
    } else {
        lemma_be16(b, 12);
        lemma_be32(b, 20);
    }
}

/// A block of an attribute fork that is taken for one is one of its inode's.
pub proof fn lemma_attr_block_is_as_written(sb: Superblock, b: Seq<u8>, ino: u64, fsb: u64)
    requires
        64 <= b.len(),
        block_of(sb, b, ino, fsb) is Ok,
    ensures
        ({
            let count = be16_at(b, if sb.version == 5 {
                56
            } else {
                12
            });
            let high: u8 = if sb.version == 5 {
                0x30
            } else {
                0xf0
            };
            match block_of(sb, b, ino, fsb)->Ok_0 {
                BlockView::Leaf { forw, .. } => is_attr_header(sb, b, ino, forw, seq![(high + 0xb) as u8, 0xee], count),
                BlockView::Node { .. } => is_attr_header(
                    sb,
                    b,
                    ino,
                    be32_at(b, 0),
                    seq![(high + 0xe) as u8, 0xbe],
                    count,
                ) && count > 0,
            }
        }),
{
    lemma_be32(b, 0);
    let magic = be16_at(b, 8);
    let s = b.subrange(8, 10);
    assert(s[0] == b[8] && s[1] == b[9]);
    if sb.version == 5 {
        lemma_be64(b, 48);
        lemma_be16(b, 56);
        if magic == 0x3bee {
            assert(s =~= seq![0x3bu8, 0xeeu8]);
        } else {
            assert(s =~= seq![0x3eu8, 0xbeu8]);
        }
    } else {
        lemma_be16(b, 12);
        if magic == 0xfbee {
            assert(s =~= seq![0xfbu8, 0xeeu8]);
        } else {
            assert(s =~= seq![0xfeu8, 0xbeu8]);
        }
    }
}

/// Where the entries of a leaf begin.
pub open spec fn leaf_begins(sb: Superblock) -> int {
    if sb.version == 5 {
        80
    } else {
        32
    }
}

/// What is found by a leaf's entries from the `i`th on, each of which has what
/// `found` says.
pub open spec fn flat(found: Seq<Seq<FoundView>>) -> Seq<FoundView>
    decreases found.len(),
{
    if found.len() == 0 {
        Seq::empty()
    } else {
        found[0] + flat(found.skip(1))
    }
}

proof fn lemma_leaf_names_from(sb: Superblock, b: Seq<u8>, ino: u64, fsb: u64, found: Seq<Seq<FoundView>>, i: int)
    requires
        0 <= i <= found.len(),
        be16_at(b, if sb.version == 5 {
            56
        } else {
            12
        }) == found.len(),
        forall|k: int| 0 <= k < found.len() ==> leaf_entry(b, leaf_begins(sb) + 8 * k) == Some(#[trigger] found[k]),
    ensures
        leaf_names(sb, b, ino, fsb, i) == Ok::<Seq<FoundView>, Fault>(flat(found.skip(i))),
    decreases found.len() - i,
{
    if i < found.len() {
        lemma_leaf_names_from(sb, b, ino, fsb, found, i + 1);
        assert(leaf_entry(b, leaf_begins(sb) + 8 * i) == Some(found[i]));
        assert(found.skip(i).skip(1) =~= found.skip(i + 1));
        assert(found.skip(i)[0] == found[i]);
    } else {
        assert(flat(found.skip(i)) =~= Seq::<FoundView>::empty());
    }
}

/// A leaf of an attribute fork reads back: what its entries find, in their
/// order, and the block after it.
pub proof fn lemma_attr_leaf_reads_back(
    sb: Superblock,
    b: Seq<u8>,
    ino: u64,
    fsb: u64,
    forw: u32,
    found: Seq<Seq<FoundView>>,
)
    requires
        found.len() <= u16::MAX,
        is_attr_header(
            sb,
            b,
            ino,
            forw,
            if sb.version == 5 {
                seq![0x3bu8, 0xeeu8]
            } else {
                seq![0xfbu8, 0xeeu8]
            },
            found.len() as u16,
        ),
        leaf_begins(sb) + 8 * found.len() <= b.len(),
        forall|k: int| 0 <= k < found.len() ==> leaf_entry(b, leaf_begins(sb) + 8 * k) == Some(#[trigger] found[k]),
    ensures
        block_of(sb, b, ino, fsb) == Ok::<BlockView, Fault>(BlockView::Leaf { found: flat(found), forw }),
{
    lemma_magic(b);
    lemma_be32(b, 0);
    if sb.version == 5 {
        lemma_be64(b, 48);
        lemma_be16(b, 56);
    } else {
        lemma_be16(b, 12);
    }
    lemma_leaf_names_from(sb, b, ino, fsb, found, 0);
    assert(found.skip(0) =~= found);
}

/// The bytes of a large value that a block has room for.
pub open spec fn value_room(sb: Superblock) -> int {
    if sb.version == 5 {
        sb.block_size - 56
    } else {
        sb.block_size as int
    }
}

/// The part of a value that its `i`th block holds.
pub open spec fn value_part(sb: Superblock, value: Seq<u8>, i: int) -> Seq<u8> {
    let from = i * value_room(sb);
    let to = from + value_room(sb);
    value.subrange(from, if to < value.len() {
        to
    } else {
        value.len() as int
    })
}

/// Whether a block holds a part of a value: after `XARM`, the part's length, a
/// checksum and an owner where blocks have these, and else from its first byte
/// on.
pub open spec fn is_value_block(sb: Superblock, b: Seq<u8>, ino: u64, part: Seq<u8>) -> bool {
    if sb.version == 5 {
        &&& 56 + part.len() <= b.len()
        &&& b.subrange(0, 4) == seq![0x58u8, 0x41u8, 0x52u8, 0x4du8]
        &&& part.len() <= u32::MAX
        &&& b.subrange(8, 12) == be32_bytes(part.len() as u32)
        &&& crc::is_sealed(b, 12)
        &&& b.subrange(32, 40) == be64_bytes(ino)
        &&& b.subrange(56, 56 + part.len() as int) == part
    } else {
        &&& part.len() <= b.len()
        &&& b.subrange(0, part.len() as int) == part
    }
}

/// Whether the blocks of a large value, from block `blk` of an attribute fork
/// on, hold it: each of them as much as there is room for.
pub open spec fn holds_value(
    sb: Superblock,
    img: Seq<u8>,
    ino: u64,
    extents: Seq<Extent>,
    blk: u32,
    value: Seq<u8>,
) -> bool {
    forall|i: int|
        0 <= i && i * value_room(sb) < value.len() ==> {
            let got = #[trigger] mapped(sb, img, extents, (blk + i) as u64, 1);
            got is Ok && got->Ok_0.len() == sb.block_size && is_value_block(sb, got->Ok_0, ino, value_part(sb, value, i))
        }
}

/// One block of a large value reads back: its part of the value.
pub proof fn lemma_value_block_reads_back(sb: Superblock, b: Seq<u8>, ino: u64, want: nat, part: Seq<u8>)
    requires
        is_value_block(sb, b, ino, part),
        sb.version != 5 ==> part.len() == if want < b.len() {
            want
        } else {
            b.len()
        },
    ensures
        remote_payload_of(sb, b, ino, want) == Ok::<Seq<u8>, Fault>(part),
{
    if sb.version == 5 {
        let s = b.subrange(0, 4);
        assert(s[0] == b[0] && s[1] == b[1] && s[2] == b[2] && s[3] == b[3]);
        lemma_be32(b, 8);
        lemma_be64(b, 32);
    } else {
        assert(b.subrange(0, b.len() as int) =~= b);
    }
}

/// A block of a large value that is taken for one, where blocks have owners, is
/// one of its inode's, and holds what is read of it.
pub proof fn lemma_value_block_is_as_written(sb: Superblock, b: Seq<u8>, ino: u64, want: nat)
    requires
        sb.version == 5,
        56 <= b.len(),
        remote_payload_of(sb, b, ino, want) is Ok,
    ensures
        is_value_block(sb, b, ino, remote_payload_of(sb, b, ino, want)->Ok_0),
{
    assert(b.subrange(0, 4) =~= seq![0x58u8, 0x41u8, 0x52u8, 0x4du8]);
    lemma_be32(b, 8);
    lemma_be64(b, 32);
}

proof fn lemma_more_blocks(len: int, room: int, i: int)
    requires
        room > 0,
        0 <= len,
        0 <= i,
    ensures
        i < (len + room - 1) / room <==> i * room < len,
{
    let q = (len + room - 1) / room;
    assert(i < q <==> i * room < len) by (nonlinear_arith)
        requires
            room > 0,
            q == (len + room - 1) / room,
    ;
}

proof fn lemma_value_from(
    sb: Superblock,
    img: Seq<u8>,
    ino: u64,
    extents: Seq<Extent>,
    blk: u32,
    value: Seq<u8>,
    i: int,
    acc: Seq<u8>,
)
    requires
        sb.wf(),
        holds_value(sb, img, ino, extents, blk, value),
        value.len() <= u32::MAX,
        0 <= i,
        acc == if i * value_room(sb) < value.len() {
            value.take(i * value_room(sb))
        } else {
            value
        },
    ensures
        remote_bytes(sb, img, ino, extents, blk, value.len() as u32, i, acc) == Ok::<Seq<u8>, Fault>(value),
    decreases value.len() - i,
{
    let room = value_room(sb);
    let len = value.len() as int;
    lemma_more_blocks(len, room, i);
    if i * room < len {
        let got = mapped(sb, img, extents, (blk + i) as u64, 1);
        let b = got->Ok_0;
        assert(i <= i * room) by (nonlinear_arith)
            requires
                0 <= i,
                room >= 1,
        ;
        assert((i + 1) * room == i * room + room) by (nonlinear_arith);
        let part = value_part(sb, value, i);
        let want = still_wanted(value.len() as u32, acc.len());
        assert(acc.len() == i * room);
        lemma_value_block_reads_back(sb, b, ino, want, part);
        let next = acc + part;
        assert(next =~= if (i + 1) * room < len {
            value.take((i + 1) * room)
        } else {
            value
        });
        lemma_value_from(sb, img, ino, extents, blk, value, i + 1, next);
    }
}

/// A large value that is written in blocks of its own reads back.
pub proof fn lemma_large_value_reads_back(
    sb: Superblock,
    img: Seq<u8>,
    ino: u64,
    extents: Seq<Extent>,
    blk: u32,
    value: Seq<u8>,
)
    requires
        sb.wf(),
        holds_value(sb, img, ino, extents, blk, value),
        0 < value.len() <= u32::MAX,
    ensures
        remote_bytes(sb, img, ino, extents, blk, value.len() as u32, 0, Seq::empty()) == Ok::<Seq<u8>, Fault>(value),
{
    assert(value.take(0) =~= Seq::<u8>::empty());
    assert(0 * value_room(sb) == 0);
    lemma_value_from(sb, img, ino, extents, blk, value, 0, Seq::empty());
}

/// Whether attribute blocks are leaves, each saying that the next comes after
/// it and the last that none does, and what each of them finds.
pub open spec fn are_leaves(
    sb: Superblock,
    img: Seq<u8>,
    ino: u64,
    extents: Seq<Extent>,
    blocks: Seq<u32>,
    found: Seq<Seq<FoundView>>,
) -> bool {
    &&& blocks.len() == found.len()
    &&& blocks.no_duplicates()
    &&& forall|i: int| 0 <= i < blocks.len() ==> #[trigger] is_leaf_of(sb, img, ino, extents, blocks, found, i)
    &&& forall|i: int| 1 <= i < blocks.len() ==> #[trigger] blocks[i] != 0
}

/// Whether the `i`th of attribute blocks is a leaf that has the next after it.
pub open spec fn is_leaf_of(
    sb: Superblock,
    img: Seq<u8>,
    ino: u64,
    extents: Seq<Extent>,
    blocks: Seq<u32>,
    found: Seq<Seq<FoundView>>,
    i: int,
) -> bool {
    let next = if i + 1 < blocks.len() {
        blocks[i + 1]
    } else {
        0
    };
    is_leaf_at(sb, img, ino, extents, blocks[i], found[i], next)
}

/// Whether an attribute fork has, at `blk`, a leaf with `found` in it and `next`
/// after it.
pub open spec fn is_leaf_at(
    sb: Superblock,
    img: Seq<u8>,
    ino: u64,
    extents: Seq<Extent>,
    blk: u32,
    found: Seq<FoundView>,
    next: u32,
) -> bool {
    match mapped(sb, img, extents, blk as u64, 1) {
        Ok(b) => block_of(sb, b, ino, blk as u64) == Ok::<BlockView, Fault>(BlockView::Leaf { found, forw: next }),
        Err(_) => false,
    }
}

proof fn lemma_one_leaf(
    sb: Superblock,
    img: Seq<u8>,
    ino: u64,
    extents: Seq<Extent>,
    blk: u32,
    found: Seq<FoundView>,
    next: u32,
    seen: Seq<u32>,
)
    requires
        is_leaf_at(sb, img, ino, extents, blk, found, next),
        !seen.contains(blk),
        seen.len() < 0x10_0000,
    ensures
        chained(sb, img, ino, extents, blk, seen) == if next == 0 {
            Ok::<Seq<FoundView>, Fault>(found)
        } else {
            prefixed(found, chained(sb, img, ino, extents, next, seen.push(blk)))
        },
{
}

/// Leaves are read one after another to the last, and all they find is found,
/// in their order.
pub proof fn lemma_leaves_read_back(
    sb: Superblock,
    img: Seq<u8>,
    ino: u64,
    extents: Seq<Extent>,
    blocks: Seq<u32>,
    found: Seq<Seq<FoundView>>,
    i: int,
    seen: Seq<u32>,
)
    requires
        are_leaves(sb, img, ino, extents, blocks, found),
        0 <= i < blocks.len(),
        forall|j: int| i <= j < blocks.len() ==> !seen.contains(#[trigger] blocks[j]),
        seen.len() + blocks.len() - i <= 0x10_0000,
    ensures
        chained(sb, img, ino, extents, blocks[i], seen) == Ok::<Seq<FoundView>, Fault>(flat(found.skip(i))),
    decreases blocks.len() - i,
{
    let next = if i + 1 < blocks.len() {
        blocks[i + 1]
    } else {
        0
    };
    assert(is_leaf_of(sb, img, ino, extents, blocks, found, i));
    lemma_one_leaf(sb, img, ino, extents, blocks[i], found[i], next, seen);
    assert(found.skip(i)[0] == found[i]);
    assert(found.skip(i).skip(1) =~= found.skip(i + 1));
    if i + 1 < blocks.len() {
        let more = seen.push(blocks[i]);
        assert forall|j: int| i + 1 <= j < blocks.len() implies !more.contains(#[trigger] blocks[j]) by {
            if more.contains(blocks[j]) {
                let k = choose|k: int| 0 <= k < more.len() && more[k] == blocks[j];
                if k < seen.len() {
                    assert(seen.contains(blocks[j]));
                } else {
                    assert(blocks[i] == blocks[j]);
                }
            }
        }
        lemma_leaves_read_back(sb, img, ino, extents, blocks, found, i + 1, more);
    } else {
        assert(flat(found.skip(i + 1)) =~= Seq::<FoundView>::empty());
        assert(found[i] + Seq::<FoundView>::empty() =~= found[i]);
    }
}

/// What a node leads to is what its leftmost child leads to.
pub proof fn lemma_node_leads_left(
    sb: Superblock,
    img: Seq<u8>,
    ino: u64,
    extents: Seq<Extent>,
    blk: u32,
    seen: Seq<u32>,
    child: u32,
)
    requires
        !seen.contains(blk),
        seen.len() < 0x10_0000,
        match mapped(sb, img, extents, blk as u64, 1) {
            Ok(b) => block_of(sb, b, ino, blk as u64) == Ok::<BlockView, Fault>(BlockView::Node { first_child: child }),
            Err(_) => false,
        },
    ensures
        chained(sb, img, ino, extents, blk, seen) == chained(sb, img, ino, extents, child, seen.push(blk)),
{
}

/// Whether a name is that of an attribute of a user, of one that is trusted or
/// of security, and not that of a list of access rights.
pub open spec fn is_plain_name(name: Seq<char>) -> bool {
    "user."@.is_prefix_of(name) || "trusted."@.is_prefix_of(name) || "security."@.is_prefix_of(name)
}

/// Values are shown as they are kept, but for the two lists of access rights,
/// which are shown as Linux has them.
pub proof fn lemma_shown_values(name: Seq<char>, value: Seq<u8>)
    ensures
        is_plain_name(name) ==> shown_value(name, value) == Ok::<Seq<u8>, Fault>(value),
        name == "system.posix_acl_access"@ || name == "system.posix_acl_default"@ ==> shown_value(name, value)
            == posix_acl_of(value),
{
    reveal_strlit("user.");
    reveal_strlit("trusted.");
    reveal_strlit("security.");
    reveal_strlit("system.posix_acl_");
    reveal_strlit("system.posix_acl_access");
    reveal_strlit("system.posix_acl_default");
    let acl = "system.posix_acl_"@;
    if acl.is_prefix_of(name) {
        assert(acl[0] == name.subrange(0, acl.len() as int)[0]);
        assert(acl[1] == name.subrange(0, acl.len() as int)[1]);
        assert(name[0] == 's' && name[1] == 'y');
    }
    if "user."@.is_prefix_of(name) {
        assert("user."@[0] == name.subrange(0, 5)[0]);
    }
    if "trusted."@.is_prefix_of(name) {
        assert("trusted."@[0] == name.subrange(0, 8)[0]);
    }
    if "security."@.is_prefix_of(name) {
        assert("security."@[1] == name.subrange(0, 9)[1]);
    }
    if name == "system.posix_acl_access"@ || name == "system.posix_acl_default"@ {
        assert(acl =~= name.subrange(0, acl.len() as int));
    }
}

/// Whether `xattrs` are what is found, with the values that are kept with their
/// names.
pub open spec fn are_as_found(xattrs: Seq<XattrView>, found: Seq<FoundView>) -> bool {
    &&& xattrs.len() == found.len()
    &&& forall|i: int|
        0 <= i < found.len() ==> (#[trigger] xattrs[i]).name == found[i].name && found[i].value == ValueView::Inline(
            xattrs[i].value,
        )
}

proof fn lemma_inline_values(sb: Superblock, img: Seq<u8>, inode: InodeView, found: Seq<FoundView>)
    requires
        forall|i: int|
            0 <= i < found.len() ==> (#[trigger] found[i]).value is Inline && is_plain_name(found[i].name),
    ensures
        with_values(sb, img, inode, found) is Ok,
        are_as_found(with_values(sb, img, inode, found)->Ok_0, found),
    decreases found.len(),
{
    if found.len() > 0 {
        let rest = found.skip(1);
        assert forall|i: int| 0 <= i < rest.len() implies (#[trigger] rest[i]).value is Inline && is_plain_name(
            rest[i].name,
        ) by {
            assert(rest[i] == found[i + 1]);
        }
        lemma_inline_values(sb, img, inode, rest);
        assert(found[0].value is Inline && is_plain_name(found[0].name));
        lemma_shown_values(found[0].name, found[0].value->Inline_0);
        let xattrs = with_values(sb, img, inode, found)->Ok_0;
        let more = with_values(sb, img, inode, rest)->Ok_0;
        assert forall|i: int| 0 <= i < found.len() implies (#[trigger] xattrs[i]).name == found[i].name
            && found[i].value == ValueView::Inline(xattrs[i].value) by {
            if i > 0 {
                assert(xattrs[i] == more[i - 1]);
                assert(rest[i - 1] == found[i]);
            }
        }
    }
}

/// Attributes that are written in an inode are listed with the names they have
/// for their users and the values they have, as long as none is a list of
/// access rights.
pub proof fn lemma_small_attributes_are_listed(
    sb: Superblock,
    img: Seq<u8>,
    inode: InodeView,
    used: u16,
    kept: Seq<Kept>,
)
    requires
        inode.aformat == Some(Format::Local),
        4 <= used <= inode.attr_fork.len(),
        inode.attr_fork.subrange(0, 2) == be16_bytes(used),
        inode.attr_fork[2] == kept.len(),
        are_short_attrs(inode.attr_fork.subrange(4, used as int), kept),
        forall|i: int| 0 <= i < found_among(kept).len() ==> is_plain_name((#[trigger] found_among(kept)[i]).name),
    ensures
        xattrs_of(sb, img, inode) is Ok,
        are_as_found(xattrs_of(sb, img, inode)->Ok_0, found_among(kept)),
{
    lemma_short_attrs_read_back(inode.attr_fork, used, kept);
    lemma_found_are_inline(kept);
    lemma_inline_values(sb, img, inode, found_among(kept));
}

proof fn lemma_found_are_inline(kept: Seq<Kept>)
    ensures
        forall|i: int| 0 <= i < found_among(kept).len() ==> (#[trigger] found_among(kept)[i]).value is Inline,
    decreases kept.len(),
{
    if kept.len() > 0 {
        lemma_found_are_inline(kept.skip(1));
        let rest = found_among(kept.skip(1));
        let all = found_among(kept);
        let shift = all.len() - rest.len();
        assert forall|i: int| 0 <= i < all.len() implies (#[trigger] all[i]).value is Inline by {
            if i >= shift {
                assert(all[i] == rest[i - shift]);
            }
        }
    }
}

/// An inode without an attribute fork, or with one made ready and never used,
/// has no attributes.
pub proof fn lemma_no_attributes(sb: Superblock, img: Seq<u8>, inode: InodeView)
    requires
        inode.aformat is None || (inode.aformat == Some(Format::Extents) && inode.anextents == 0),
    ensures
        xattrs_of(sb, img, inode) == Ok::<Seq<XattrView>, Fault>(Seq::empty()),
{
}

} // verus!
