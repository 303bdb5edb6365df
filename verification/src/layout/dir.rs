//! Directories as written: small ones in the inode, and data blocks.

use vstd::arithmetic::power2::{lemma_pow2_pos, pow2};
use vstd::prelude::*;

use crate::bmap::Extent;
use crate::bytes::{be16_at, be32_at};
use crate::crc;
use crate::dir::{
    data_block_names, entry_len, names_from, short_entries, shortform_of, type_len, FileType, RawName,
};
use crate::error::{lemma_prefixed, prefixed, Fault};
use crate::inode::{Format, InodeView};
use crate::layout::kinds::type_byte;
use crate::layout::{be16_bytes, be32_bytes, be64_bytes, lemma_be16, lemma_be32, lemma_be64};
use crate::sb::Superblock;
use crate::volume::map::{fork_map, mapped};
use crate::volume::names::{any_touches, child_of, dot, dot_dot, first_named, names_from_block, names_of, touches};

verus! {

/// An inode number in a small directory: eight bytes where any of them needs
/// more than four.
pub open spec fn short_number(ino: u64, wide: bool) -> Seq<u8> {
    if wide {
        be64_bytes(ino)
    } else {
        be32_bytes(ino as u32)
    }
}

/// Whether a name can stand in a directory: it is up to 255 bytes long, its
/// type is known only where types are recorded, and its inode number fits.
pub open spec fn is_storable(e: RawName, typed: bool, wide: bool) -> bool {
    &&& 1 <= e.name.len() <= 255
    &&& !typed ==> e.ftype == FileType::Unknown
    &&& !wide ==> e.ino <= u32::MAX
}

/// The bytes a name takes in a small directory.
pub open spec fn short_len(e: RawName, typed: bool, wide: bool) -> int {
    3 + e.name.len() + (if typed {
        1int
    } else {
        0int
    }) + (if wide {
        8int
    } else {
        4int
    })
}

/// Whether `b` is a name in a small directory: its length, two bytes that order
/// a listing, the name, its type where types are recorded and its inode number.
pub open spec fn is_short_name(b: Seq<u8>, e: RawName, typed: bool, wide: bool) -> bool {
    let n = e.name.len() as int;
    let after = if typed {
        4 + n
    } else {
        3 + n
    };
    &&& b.len() == short_len(e, typed, wide)
    &&& b[0] == n
    &&& b.subrange(3, 3 + n) == e.name
    &&& typed ==> b[3 + n] == type_byte(e.ftype)
    &&& b.subrange(after, b.len() as int) == short_number(e.ino, wide)
}

/// Whether `b` is names in a small directory, one after another.
pub open spec fn are_short_names(b: Seq<u8>, names: Seq<RawName>, typed: bool, wide: bool) -> bool
    decreases names.len(),
{
    if names.len() == 0 {
        b.len() == 0
    } else {
        let n = short_len(names[0], typed, wide);
        &&& is_storable(names[0], typed, wide)
        &&& n <= b.len()
        &&& is_short_name(b.subrange(0, n), names[0], typed, wide)
        &&& are_short_names(b.subrange(n, b.len() as int), names.skip(1), typed, wide)
    }
}

/// Whether `b` is a small directory: how many names there are, how many of them
/// need wide inode numbers, the parent and the names.
pub open spec fn is_short_directory(b: Seq<u8>, parent: u64, names: Seq<RawName>, typed: bool) -> bool {
    let wide = b[1] != 0;
    let n: int = if wide {
        10
    } else {
        6
    };
    &&& n <= b.len()
    &&& b[0] == names.len()
    &&& !wide ==> parent <= u32::MAX
    &&& b.subrange(2, n) == short_number(parent, wide)
    &&& are_short_names(b.subrange(n, b.len() as int), names, typed, wide)
}

proof fn lemma_short_names(sb: Superblock, buf: Seq<u8>, p: int, names: Seq<RawName>, wide: bool)
    requires
        0 <= p <= buf.len(),
        are_short_names(buf.subrange(p, buf.len() as int), names, sb.spec_has_ftype(), wide),
    ensures
        short_entries(
            sb,
            buf,
            p,
            if wide {
                8
            } else {
                4
            },
            names.len(),
        ) == Ok::<Seq<RawName>, Fault>(names),
    decreases names.len(),
{
    let typed = sb.spec_has_ftype();
    let rest = buf.subrange(p, buf.len() as int);
    if names.len() == 0 {
        assert(names =~= Seq::<RawName>::empty());
    } else {
        let e = names[0];
        let n = short_len(e, typed, wide);
        let isz: int = if wide {
            8
        } else {
            4
        };
        let b = rest.subrange(0, n);
        let k = e.name.len() as int;
        assert forall|i: int| 0 <= i < n implies #[trigger] b[i] == buf[p + i] by {}
        assert(b[0] == buf[p]);
        assert(typed ==> b[3 + k] == buf[p + 3 + k]);
        assert(buf.subrange(p + 3, p + 3 + k) =~= b.subrange(3, 3 + k));
        let after = 3 + k + type_len(sb);
        assert(buf.subrange(p + after, p + after + isz) =~= b.subrange(after, n));
        if wide {
            lemma_be64(buf, p + after);
        } else {
            lemma_be32(buf, p + after);
        }
        assert(rest.subrange(n, rest.len() as int) =~= buf.subrange(p + n, buf.len() as int));
        lemma_short_names(sb, buf, p + n, names.skip(1), wide);
        assert(seq![e] + names.skip(1) =~= names);
    }
}

/// A small directory that is written reads back: its parent, and its names in
/// their order with their inodes and types.
pub proof fn lemma_short_directory_reads_back(
    sb: Superblock,
    fork: Seq<u8>,
    size: u64,
    parent: u64,
    names: Seq<RawName>,
)
    requires
        6 <= size <= fork.len(),
        is_short_directory(fork.subrange(0, size as int), parent, names, sb.spec_has_ftype()),
    ensures
        shortform_of(sb, fork, size) == Ok::<(u64, Seq<RawName>), Fault>((parent, names)),
{
    let buf = fork.subrange(0, size as int);
    let wide = buf[1] != 0;
    if wide {
        lemma_be64(buf, 2);
        lemma_short_names(sb, buf, 10, names, true);
    } else {
        lemma_be32(buf, 2);
        lemma_short_names(sb, buf, 6, names, false);
    }
}

/// What a directory's data block is made of.
pub enum Piece {
    /// A name.
    Name(RawName),
    /// So many bytes of free space.
    Free(int),
}

/// The bytes a piece takes, which are a multiple of eight.
pub open spec fn piece_len(piece: Piece, typed: bool) -> int {
    match piece {
        Piece::Name(e) => {
            let n = 8 + 1 + e.name.len() + (if typed {
                1int
            } else {
                0int
            }) + 2;
            n + (8 - n % 8) % 8
        },
        Piece::Free(n) => n,
    }
}

/// Whether `b` is a piece of a data block: an inode number, the length of a
/// name, the name, its type where types are recorded and, at the end, two bytes
/// that say where it is; or two bytes `0xff`, a length and as much free space.
pub open spec fn is_piece(b: Seq<u8>, piece: Piece, typed: bool) -> bool {
    &&& b.len() == piece_len(piece, typed)
    &&& match piece {
        Piece::Name(e) => {
            let n = e.name.len() as int;
            &&& is_storable(e, typed, true)
            &&& e.ino < 0xffff_0000_0000_0000
            &&& b.subrange(0, 8) == be64_bytes(e.ino)
            &&& b[8] == n
            &&& b.subrange(9, 9 + n) == e.name
            &&& typed ==> b[9 + n] == type_byte(e.ftype)
        },
        Piece::Free(n) => {
            &&& 8 <= n < 0x1_0000
            &&& n % 8 == 0
            &&& b.subrange(0, 2) == seq![0xffu8, 0xffu8]
            &&& b.subrange(2, 4) == be16_bytes(n as u16)
        },
    }
}

/// Whether `b` is pieces of a data block, one after another.
pub open spec fn are_pieces(b: Seq<u8>, pieces: Seq<Piece>, typed: bool) -> bool
    decreases pieces.len(),
{
    if pieces.len() == 0 {
        b.len() == 0
    } else {
        let n = piece_len(pieces[0], typed);
        &&& 0 <= n <= b.len()
        &&& is_piece(b.subrange(0, n), pieces[0], typed)
        &&& are_pieces(b.subrange(n, b.len() as int), pieces.skip(1), typed)
    }
}

/// The names among pieces.
pub open spec fn names_among(pieces: Seq<Piece>) -> Seq<RawName>
    decreases pieces.len(),
{
    if pieces.len() == 0 {
        Seq::empty()
    } else {
        (match pieces[0] {
            Piece::Name(e) => seq![e],
            Piece::Free(_) => Seq::empty(),
        }) + names_among(pieces.skip(1))
    }
}

proof fn lemma_name_piece(sb: Superblock, buf: Seq<u8>, ino: u64, p: int, end: int, e: RawName)
    requires
        0 <= p,
        p + piece_len(Piece::Name(e), sb.spec_has_ftype()) <= end <= buf.len(),
        is_piece(
            buf.subrange(p, p + piece_len(Piece::Name(e), sb.spec_has_ftype())),
            Piece::Name(e),
            sb.spec_has_ftype(),
        ),
    ensures
        ({
            let n = piece_len(Piece::Name(e), sb.spec_has_ftype());
            let rest = names_from(sb, buf, ino, p + n, end);
            names_from(sb, buf, ino, p, end) == (seq![e] + rest.0, rest.1)
        }),
{
    let typed = sb.spec_has_ftype();
    let n = piece_len(Piece::Name(e), typed);
    let b = buf.subrange(p, p + n);
    let k = e.name.len() as int;
    assert(b[8] == buf[p + 8]);
    assert(typed ==> b[9 + k] == buf[p + 9 + k]);
    assert(buf.subrange(p, p + 8) =~= b.subrange(0, 8));
    lemma_be64(buf, p);
    assert(buf.subrange(p + 9, p + 9 + k) =~= b.subrange(9, 9 + k));
    assert(be16_at(buf, p) != 0xffff) by {
        let hi = be16_at(buf, p) as int;
        assert(be32_at(buf, p) >= hi * 0x1_0000);
        assert(e.ino >= be32_at(buf, p) * 0x1_0000_0000);
    }
}

proof fn lemma_free_piece(sb: Superblock, buf: Seq<u8>, ino: u64, p: int, end: int, n: int)
    requires
        0 <= p,
        0 <= n,
        p + n <= end <= buf.len(),
        is_piece(buf.subrange(p, p + n), Piece::Free(n), sb.spec_has_ftype()),
    ensures
        names_from(sb, buf, ino, p, end) == names_from(sb, buf, ino, p + n, end),
{
    let b = buf.subrange(p, p + n);
    assert(buf.subrange(p, p + 2) =~= b.subrange(0, 2));
    assert(buf.subrange(p + 2, p + 4) =~= b.subrange(2, 4));
    assert(be16_bytes(0xffff) =~= seq![0xffu8, 0xffu8]) by {
        reveal(be16_bytes);
    }
    lemma_be16(buf, p);
    lemma_be16(buf, p + 2);
}

/// The pieces of a data block that are written read back: the names among
/// them, in their order, and nothing to complain of.
pub proof fn lemma_pieces_read_back(sb: Superblock, buf: Seq<u8>, ino: u64, p: int, end: int, pieces: Seq<Piece>)
    requires
        0 <= p <= end <= buf.len(),
        are_pieces(buf.subrange(p, end), pieces, sb.spec_has_ftype()),
    ensures
        names_from(sb, buf, ino, p, end) == (names_among(pieces), None::<Fault>),
    decreases pieces.len(),
{
    if pieces.len() > 0 {
        let b = buf.subrange(p, end);
        let n = piece_len(pieces[0], sb.spec_has_ftype());
        assert(buf.subrange(p, p + n) =~= b.subrange(0, n));
        assert(buf.subrange(p + n, end) =~= b.subrange(n, b.len() as int));
        lemma_pieces_read_back(sb, buf, ino, p + n, end, pieces.skip(1));
        match pieces[0] {
            Piece::Name(e) => {
                lemma_name_piece(sb, buf, ino, p, end, e);
            },
            Piece::Free(_) => {
                lemma_free_piece(sb, buf, ino, p, end, n);
                assert(Seq::<RawName>::empty() + names_among(pieces.skip(1)) =~= names_among(pieces.skip(1)));
            },
        }
    } else {
        assert(names_among(pieces) =~= Seq::<RawName>::empty());
    }
}

/// Whether a data block begins with `XD2D` or, where blocks have a checksum and
/// an owner, with `XDD3` and these; with `XD2B` or `XDB3` where an index of
/// `leaves` entries and a tail that counts them end the block.
pub open spec fn is_data_header(sb: Superblock, b: Seq<u8>, ino: u64, leaves: Option<u32>) -> bool {
    let letter: u8 = if leaves is Some {
        0x42
    } else {
        0x44
    };
    &&& sb.version == 5 ==> {
        &&& 64 <= b.len()
        &&& b.subrange(0, 4) == seq![0x58u8, 0x44u8, letter, 0x33u8]
        &&& crc::is_sealed(b, 4)
        &&& b.subrange(40, 48) == be64_bytes(ino)
    }
    &&& sb.version != 5 ==> {
        &&& 16 <= b.len()
        &&& b.subrange(0, 4) == seq![0x58u8, 0x44u8, 0x32u8, letter]
    }
    &&& leaves matches Some(n) ==> b.subrange(b.len() - 8, b.len() - 4) == be32_bytes(n)
}

/// Where the pieces of a data block begin.
pub open spec fn pieces_begin(sb: Superblock) -> int {
    if sb.version == 5 {
        64
    } else {
        16
    }
}

/// Where the pieces of a data block end.
pub open spec fn pieces_end(b: Seq<u8>, leaves: Option<u32>) -> int {
    match leaves {
        Some(n) => b.len() - 8 - 8 * n,
        None => b.len() as int,
    }
}

/// A data block that is written reads back: the names among its pieces.
pub proof fn lemma_data_block_reads_back(
    sb: Superblock,
    b: Seq<u8>,
    ino: u64,
    leaves: Option<u32>,
    pieces: Seq<Piece>,
)
    requires
        is_data_header(sb, b, ino, leaves),
        pieces_begin(sb) <= pieces_end(b, leaves),
        are_pieces(b.subrange(pieces_begin(sb), pieces_end(b, leaves)), pieces, sb.spec_has_ftype()),
    ensures
        data_block_names(sb, b, ino) == (names_among(pieces), None::<Fault>),
{
    lemma_magics(b);
    lemma_be32(b, 0);
    if sb.version == 5 {
        lemma_be64(b, 40);
    }
    if leaves is Some {
        lemma_be32(b, b.len() - 8);
    }
    lemma_pieces_read_back(sb, b, ino, pieces_begin(sb), pieces_end(b, leaves), pieces);
}

proof fn lemma_magics(b: Seq<u8>)
    requires
        4 <= b.len(),
    ensures
        b.subrange(0, 4) == seq![0x58u8, 0x44u8, 0x44u8, 0x33u8] ==> be32_at(b, 0) == 0x5844_4433,
        b.subrange(0, 4) == seq![0x58u8, 0x44u8, 0x42u8, 0x33u8] ==> be32_at(b, 0) == 0x5844_4233,
        b.subrange(0, 4) == seq![0x58u8, 0x44u8, 0x32u8, 0x44u8] ==> be32_at(b, 0) == 0x5844_3244,
        b.subrange(0, 4) == seq![0x58u8, 0x44u8, 0x32u8, 0x42u8] ==> be32_at(b, 0) == 0x5844_3242,
{
    let s = b.subrange(0, 4);
    assert(s[0] == b[0] && s[1] == b[1] && s[2] == b[2] && s[3] == b[3]);
}

/// A data block that nothing is complained of in is one of its directory: it
/// begins as one does and, where blocks have owners, says whose it is.
pub proof fn lemma_data_block_is_as_written(sb: Superblock, b: Seq<u8>, ino: u64)
    requires
        64 <= b.len(),
        data_block_names(sb, b, ino).1 is None,
    ensures
        exists|leaves: Option<u32>| #[trigger] is_data_header(sb, b, ino, leaves),
{
    let magic = be32_at(b, 0);
    let leaves: Option<u32> = if magic == 0x5844_4233 || magic == 0x5844_3242 {
        Some(be32_at(b, b.len() - 8))
    } else {
        None
    };
    let letter: u8 = if leaves is Some {
        0x42
    } else {
        0x44
    };
    if sb.version == 5 {
        assert(b.subrange(0, 4) =~= seq![0x58u8, 0x44u8, letter, 0x33u8]);
        lemma_be64(b, 40);
    } else {
        assert(b.subrange(0, 4) =~= seq![0x58u8, 0x44u8, 0x32u8, letter]);
    }
    lemma_be32(b, b.len() - 8);
    assert(is_data_header(sb, b, ino, leaves));
}

/// The blocks that make up a directory block.
pub open spec fn blocks_each(sb: Superblock) -> int {
    pow2(sb.dirblk_log as nat) as int
}

/// Whether a directory's block from logical block `m` on holds `names`, or is a
/// hole and there are none.
pub open spec fn holds_names(
    sb: Superblock,
    img: Seq<u8>,
    ino: u64,
    extents: Seq<Extent>,
    m: int,
    names: Seq<RawName>,
) -> bool {
    let n = blocks_each(sb);
    let got = mapped(sb, img, extents, m as u64, n as u64);
    if is_hole(extents, m, n) {
        names.len() == 0
    } else {
        got is Ok && data_block_names(sb, got->Ok_0, ino) == (names, None::<Fault>)
    }
}

/// Whether no extent has any of the `n` blocks from `m` on.
pub open spec fn is_hole(extents: Seq<Extent>, m: int, n: int) -> bool {
    forall|i: int|
        0 <= i < extents.len() ==> (#[trigger] extents[i]).offset + extents[i].count <= m || m + n <= extents[i].offset
}

/// Whether the `i`th of `lists` has the names of the `i`th of a directory's
/// blocks, one in the first 32 GiB of it.
pub open spec fn lists_block(
    sb: Superblock,
    img: Seq<u8>,
    ino: u64,
    extents: Seq<Extent>,
    lists: Seq<Seq<RawName>>,
    i: int,
) -> bool {
    let m = i * blocks_each(sb);
    m < 0x8_0000_0000int / sb.block_size as int && holds_names(sb, img, ino, extents, m, lists[i])
}

/// The names of all of a directory's blocks, one after another.
pub open spec fn all_names(lists: Seq<Seq<RawName>>) -> Seq<RawName>
    decreases lists.len(),
{
    if lists.len() == 0 {
        Seq::empty()
    } else {
        lists[0] + all_names(lists.skip(1))
    }
}

proof fn lemma_names_from_block(
    sb: Superblock,
    img: Seq<u8>,
    ino: u64,
    extents: Seq<Extent>,
    lists: Seq<Seq<RawName>>,
    k: int,
)
    requires
        0 <= k <= lists.len(),
        blocks_each(sb) > 0,
        lists.len() * blocks_each(sb) >= 0x8_0000_0000int / sb.block_size as int,
        forall|i: int|
            0 <= i < lists.len() ==> #[trigger] lists_block(sb, img, ino, extents, lists, i),
    ensures
        names_from_block(sb, img, ino, extents, k * blocks_each(sb)) == Ok::<Seq<RawName>, Fault>(
            all_names(lists.skip(k)),
        ),
    decreases lists.len() - k,
{
    let n = blocks_each(sb);
    let m = k * n;
    if k < lists.len() {
        lemma_names_from_block(sb, img, ino, extents, lists, k + 1);
        assert((k + 1) * n == m + n) by (nonlinear_arith)
            requires
                m == k * n,
        ;
        assert(0 <= m) by (nonlinear_arith)
            requires
                m == k * n,
                0 <= k,
                0 < n,
        ;
        assert(lists_block(sb, img, ino, extents, lists, k));
        assert(lists.skip(k)[0] == lists[k]);
        assert(lists.skip(k).skip(1) =~= lists.skip(k + 1));
        lemma_one_block(sb, img, ino, extents, m, lists[k]);
        lemma_prefixed(lists[k], Seq::empty(), names_from_block(sb, img, ino, extents, m + n));
    } else {
        assert(m >= 0x8_0000_0000int / sb.block_size as int);
        assert(all_names(lists.skip(k)) =~= Seq::<RawName>::empty());
    }
}

proof fn lemma_one_block(sb: Superblock, img: Seq<u8>, ino: u64, extents: Seq<Extent>, m: int, names: Seq<RawName>)
    requires
        0 <= m < 0x8_0000_0000int / sb.block_size as int,
        blocks_each(sb) > 0,
        holds_names(sb, img, ino, extents, m, names),
    ensures
        names_from_block(sb, img, ino, extents, m) == prefixed(
            names,
            names_from_block(sb, img, ino, extents, m + blocks_each(sb)),
        ),
{
    let n = blocks_each(sb);
    lemma_holes(extents, m, n);
    if is_hole(extents, m, n) {
        assert(names =~= Seq::<RawName>::empty());
        lemma_prefixed(names, names, names_from_block(sb, img, ino, extents, m + n));
    }
}

proof fn lemma_holes(extents: Seq<Extent>, m: int, n: int)
    ensures
        is_hole(extents, m, n) <==> !any_touches(extents, m, n),
{
    if is_hole(extents, m, n) && any_touches(extents, m, n) {
        let i = choose|i: int| 0 <= i < extents.len() && touches(#[trigger] extents[i], m, n);
        assert(extents[i].offset + extents[i].count <= m || m + n <= extents[i].offset);
    }
    if !any_touches(extents, m, n) {
        assert forall|i: int| 0 <= i < extents.len() implies (#[trigger] extents[i]).offset + extents[i].count <= m || m
            + n <= extents[i].offset by {
            assert(!touches(extents[i], m, n));
        }
    }
}

/// A directory in blocks of its own reads back: the names of every one of its
/// blocks in the first 32 GiB, in their order, holes left out. What is further
/// on is its index.
pub proof fn lemma_directory_reads_back(
    sb: Superblock,
    img: Seq<u8>,
    dir: InodeView,
    lists: Seq<Seq<RawName>>,
)
    requires
        dir.is_dir(),
        dir.format != Format::Local,
        fork_map(sb, img, dir, false) is Ok,
        lists.len() * blocks_each(sb) >= 0x8_0000_0000int / sb.block_size as int,
        forall|i: int|
            0 <= i < lists.len() ==> #[trigger] lists_block(
                sb,
                img,
                dir.ino,
                fork_map(sb, img, dir, false)->Ok_0,
                lists,
                i,
            ),
    ensures
        names_of(sb, img, dir) == Ok::<Seq<RawName>, Fault>(all_names(lists)),
{
    lemma_pow2_pos(sb.dirblk_log as nat);
    lemma_names_from_block(sb, img, dir.ino, fork_map(sb, img, dir, false)->Ok_0, lists, 0);
    assert(lists.skip(0) =~= lists);
    assert(0 * blocks_each(sb) == 0);
}

/// A small directory has itself under `.` and its parent under `..`, and then
/// the names that are written in it.
pub proof fn lemma_small_directory_reads_back(
    sb: Superblock,
    img: Seq<u8>,
    dir: InodeView,
    parent: u64,
    names: Seq<RawName>,
)
    requires
        dir.is_dir(),
        dir.format == Format::Local,
        6 <= dir.size <= dir.data_fork.len(),
        is_short_directory(dir.data_fork.subrange(0, dir.size as int), parent, names, sb.spec_has_ftype()),
    ensures
        child_of(sb, img, dir, seq![0x2eu8]) == Ok::<Option<u64>, Fault>(Some(dir.ino)),
        child_of(sb, img, dir, seq![0x2eu8, 0x2eu8]) == Ok::<Option<u64>, Fault>(Some(parent)),
        names_of(sb, img, dir) is Ok,
        names_of(sb, img, dir)->Ok_0.skip(2) == names,
{
    lemma_short_directory_reads_back(sb, dir.data_fork, dir.size, parent, names);
    let all = names_of(sb, img, dir)->Ok_0;
    assert(all.skip(2) =~= names);
    assert(seq![0x2eu8] =~= dot());
    assert(seq![0x2eu8, 0x2eu8] =~= dot_dot());
    assert(all[0].name == dot() && all[1].name == dot_dot());
    assert(dot().len() != dot_dot().len());
    reveal_with_fuel(first_named, 3);
    assert(all.skip(1)[0] == all[1]);
}

/// Whether each of `names` has a name to go by, of 255 bytes at most.
pub open spec fn all_named(names: Seq<RawName>) -> bool {
    forall|i: int| 0 <= i < names.len() ==> 1 <= (#[trigger] names[i]).name.len() <= 255
}

proof fn lemma_short_entries_are_named(sb: Superblock, buf: Seq<u8>, p: int, isz: int, n: nat)
    requires
        0 <= p,
        isz == 4 || isz == 8,
    ensures
        short_entries(sb, buf, p, isz, n) matches Ok(names) ==> all_named(names),
    decreases n,
{
    if n > 0 {
        lemma_short_entries_are_named(sb, buf, p + 3 + buf[p] + type_len(sb) + isz, isz, (n - 1) as nat);
    }
}

proof fn lemma_block_names_are_named(sb: Superblock, buf: Seq<u8>, ino: u64, p: int, end: int)
    requires
        0 <= p,
        end <= buf.len(),
    ensures
        all_named(names_from(sb, buf, ino, p, end).0),
    decreases
        if p < end {
            end - p
        } else {
            0
        },
{
    if p < end {
        let free = be16_at(buf, p + 2) as int;
        if free >= 8 {
            lemma_block_names_are_named(sb, buf, ino, p + free, end);
        }
        let len = entry_len(sb, buf[p + 8] as int);
        lemma_block_names_are_named(sb, buf, ino, p + len, end);
    }
}

/// No name in a directory is empty, nor longer than 255 bytes.
pub proof fn lemma_names_are_named(sb: Superblock, b: Seq<u8>, ino: u64, size: u64)
    ensures
        shortform_of(sb, b, size) matches Ok((_, names)) ==> all_named(names),
        64 <= b.len() ==> all_named(data_block_names(sb, b, ino).0),
{
    if 6 <= size <= b.len() {
        let buf = b.subrange(0, size as int);
        lemma_short_entries_are_named(sb, buf, 10, 8, buf[0] as nat);
        lemma_short_entries_are_named(sb, buf, 6, 4, buf[0] as nat);
    }
    if 64 <= b.len() {
        let end = crate::dir::names_end(b);
        if end <= b.len() {
            lemma_block_names_are_named(sb, b, ino, pieces_begin(sb), end);
        }
    }
}

} // verus!
