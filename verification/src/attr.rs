//! Extended attributes: short form in the inode, or leaf and node blocks in
//! the attribute fork, with large values in blocks of their own.

use vstd::prelude::*;
use vstd::slice::slice_subrange;
use vstd::string::*;
use vstd::utf8::{
    decode_utf8, decode_utf8_encode_utf8, encode_utf8, encode_utf8_decode_utf8, encode_utf8_valid_utf8, valid_utf8,
};

use crate::bytes::{
    be16, be16_at, be32, be32_at, be64, be64_at, cut, le16_bytes, le32_bytes, lemma_views_push, push_le16,
    push_le32, views,
};
use crate::crc;
use crate::error::{corrupt, lemma_prefixed, list_outcome, numbered, outcome, prefixed, Error, Fault, Result};
use crate::inode::{inode_error, inode_fault};
use crate::sb::Superblock;
use crate::text::{
    decimal, has_controls, is_control, is_control_at, lemma_controls, lossy, lossy_text, numeral, plain_text, push_decimal, push_numeral, same_text,
};

verus! {

/// One extended attribute.
#[derive(Debug, Clone, PartialEq, Eq)]
pub struct Xattr {
    /// The full name, such as `security.selinux`.
    pub name: String,
    /// The value, which is bytes rather than text.
    pub value: Vec<u8>,
}

/// An [`Xattr`] as contracts speak of it.
#[verifier::ext_equal]
pub struct XattrView {
    pub name: Seq<char>,
    pub value: Seq<u8>,
}

impl View for Xattr {
    type V = XattrView;

    open spec fn view(&self) -> XattrView {
        XattrView { name: self.name@, value: self.value@ }
    }
}

// Namespace and state bits of an attribute entry.
pub const LOCAL: u8 = 0x01;

pub const ROOT: u8 = 0x02;

pub const SECURE: u8 = 0x04;

pub const PARENT: u8 = 0x08;

pub const INCOMPLETE: u8 = 0x80;

pub const LEAF_MAGIC_V4: u16 = 0xfbee;

pub const LEAF_MAGIC_V5: u16 = 0x3bee;

pub const NODE_MAGIC_V4: u16 = 0xfebe;

pub const NODE_MAGIC_V5: u16 = 0x3ebe;

pub const RMT_MAGIC: u32 = 0x5841_524d;

/// Header length of a v5 remote value block.
pub const RMT_HDR: usize = 56;

/// An attribute's name and where its value is.
pub enum Value {
    /// The value, stored with the name.
    Inline(Vec<u8>),
    /// Stored in blocks of its own in the attribute fork.
    Remote {
        /// The first logical block.
        blk: u32,
        /// Its length in bytes.
        len: u32,
    },
}

/// A name as found, before its value is fetched.
pub struct Found {
    /// The full name.
    pub name: String,
    /// The value, or where it is.
    pub value: Value,
}

/// What an attribute fork block turned out to be.
pub enum Block {
    /// A leaf.
    Leaf {
        /// Its names.
        found: Vec<Found>,
        /// The next leaf's block; 0 for none.
        forw: u32,
    },
    /// An interior node.
    Node {
        /// Its leftmost child's block.
        first_child: u32,
    },
}

/// A [`Value`] as contracts speak of it.
pub enum ValueView {
    Inline(Seq<u8>),
    Remote { blk: u32, len: u32 },
}

/// A [`Found`] as contracts speak of it.
pub struct FoundView {
    pub name: Seq<char>,
    pub value: ValueView,
}

/// A [`Block`] as contracts speak of it.
pub enum BlockView {
    Leaf { found: Seq<FoundView>, forw: u32 },
    Node { first_child: u32 },
}

impl View for Value {
    type V = ValueView;

    open spec fn view(&self) -> ValueView {
        match *self {
            Value::Inline(v) => ValueView::Inline(v@),
            Value::Remote { blk, len } => ValueView::Remote { blk, len },
        }
    }
}

impl View for Found {
    type V = FoundView;

    open spec fn view(&self) -> FoundView {
        FoundView { name: self.name@, value: self.value@ }
    }
}

impl View for Block {
    type V = BlockView;

    open spec fn view(&self) -> BlockView {
        match *self {
            Block::Leaf { found, forw } => BlockView::Leaf { found: views(found@), forw },
            Block::Node { first_child } => BlockView::Node { first_child },
        }
    }
}

/// The full name of an attribute whose name reads as `text`, or `None` for
/// entries that are not user-visible attributes at all.
///
/// Linux shows XFS's own ACL attributes as the POSIX ones; the value is
/// converted to match by [`posix_acl`].
pub open spec fn namespaced(flags: u8, text: Seq<char>) -> Option<Seq<char>> {
    if flags & (INCOMPLETE | PARENT) != 0 {
        None
    } else if flags & SECURE != 0 {
        Some("security."@ + text)
    } else if flags & ROOT != 0 {
        if text == "SGI_ACL_FILE"@ {
            Some("system.posix_acl_access"@)
        } else if text == "SGI_ACL_DEFAULT"@ {
            Some("system.posix_acl_default"@)
        } else {
            Some("trusted."@ + text)
        }
    } else {
        Some("user."@ + text)
    }
}

/// The name a namespace bit gives an on-disk attribute name, or `None` for
/// entries that are not user-visible attributes at all.
pub open spec fn full_name_of(flags: u8, name: Seq<u8>) -> Option<Seq<char>> {
    namespaced(flags, lossy_text(name))
}

/// The full name of an attribute whose name reads as `text`, or `None` for
/// entries that are not user-visible attributes at all.
pub fn in_namespace(flags: u8, text: &str) -> (r: Option<String>)
    ensures
        match r {
            Some(s) => namespaced(flags, text@) == Some(s@),
            None => namespaced(flags, text@) is None,
        },
{
    if flags & (INCOMPLETE | PARENT) != 0 {
        return None;
    }
    Some(
        if flags & SECURE != 0 {
            String::from_str("security.").concat(text)
        } else if flags & ROOT != 0 {
            if same_text(text, "SGI_ACL_FILE") {
                String::from_str("system.posix_acl_access")
            } else if same_text(text, "SGI_ACL_DEFAULT") {
                String::from_str("system.posix_acl_default")
            } else {
                String::from_str("trusted.").concat(text)
            }
        } else {
            String::from_str("user.").concat(text)
        },
    )
}

/// The name a namespace bit gives an on-disk attribute name, or `None` for
/// entries that are not user-visible attributes at all.
pub fn full_name(flags: u8, name: &[u8]) -> (r: Option<String>)
    ensures
        match r {
            Some(s) => full_name_of(flags, name@) == Some(s@),
            None => full_name_of(flags, name@) is None,
        },
{
    let text = lossy(name);
    in_namespace(flags, text.as_str())
}

/// A value without the zero byte that may end a text.
pub open spec fn without_nul(value: Seq<u8>) -> Seq<u8> {
    if value.len() > 0 && value.last() == 0 {
        value.drop_last()
    } else {
        value
    }
}

/// What a value says, if it is text that can be shown: UTF-8 without control
/// characters, but for a zero byte at its end.
pub open spec fn readable_of(value: Seq<u8>) -> Option<Seq<char>> {
    let text = without_nul(value);
    if valid_utf8(text) && !has_controls(text) {
        Some(decode_utf8(text))
    } else {
        None
    }
}

/// What a value says, if it is text that can be shown.
pub fn readable(value: &[u8]) -> (r: Option<String>)
    ensures
        match r {
            Some(s) => readable_of(value@) == Some(s@),
            None => readable_of(value@) is None,
        },
{
    let n: usize = value.len();
    if n > 0 && value[n - 1] == 0 {
        assert(value@.drop_last() =~= value@.subrange(0, n - 1));
        return plain_text(slice_subrange(value, 0, n - 1));
    }
    plain_text(value)
}

/// Entry `i` of an ACL as Linux reports it: the tag, the permissions and the
/// ID. Only named users and groups carry an ID; the rest read as -1.
pub open spec fn acl_entry(xfs: Seq<u8>, i: int) -> Seq<u8> {
    let at = 4 + i * 12;
    let tag = be32_at(xfs, at);
    let id = if tag == 0x02 || tag == 0x08 {
        be32_at(xfs, at + 4)
    } else {
        u32::MAX
    };
    le16_bytes((tag % 0x1_0000) as u16) + le16_bytes(be16_at(xfs, at + 8)) + le32_bytes(id)
}

/// The first `n` entries of an ACL as Linux reports them.
pub open spec fn acl_entries(xfs: Seq<u8>, n: nat) -> Seq<u8>
    decreases n,
{
    if n == 0 {
        Seq::empty()
    } else {
        acl_entries(xfs, (n - 1) as nat) + acl_entry(xfs, n - 1)
    }
}

/// An XFS on-disk ACL as the value Linux reports for it: version 2, then the
/// entries.
pub open spec fn posix_acl_of(xfs: Seq<u8>) -> core::result::Result<Seq<u8>, Fault> {
    if xfs.len() < 4 {
        Err(Fault::Corrupt("ACL shorter than its count"@))
    } else if xfs.len() < 4 + be32_at(xfs, 0) * 12 {
        Err(Fault::Corrupt("ACL shorter than its entries"@))
    } else {
        Ok(le32_bytes(2) + acl_entries(xfs, be32_at(xfs, 0) as nat))
    }
}

/// Rewrite an XFS on-disk ACL into the `system.posix_acl_*` value Linux
/// reports for it.
pub fn posix_acl(xfs: &[u8]) -> (r: Result<Vec<u8>>)
    ensures
        outcome(r) == posix_acl_of(xfs@),
{
    if xfs.len() < 4 {
        return Err(corrupt("ACL shorter than its count"));
    }
    let count: u32 = be32(xfs, 0);
    if (xfs.len() as u64) < 4 + count as u64 * 12 {
        return Err(corrupt("ACL shorter than its entries"));
    }
    let n: usize = count as usize;
    let mut out: Vec<u8> = Vec::new();
    push_le32(&mut out, 2);
    let mut i: usize = 0;
    proof {
        assert(out@ =~= le32_bytes(2));
        assert(out@ + Seq::<u8>::empty() =~= out@);
    }
    while i < n
        invariant
            i <= n,
            4 + n * 12 <= xfs.len(),
            out@ == le32_bytes(2) + acl_entries(xfs@, i as nat),
        decreases n - i,
    {
        let at: usize = 4 + i * 12;
        let tag: u32 = be32(xfs, at);
        let id: u32 = if tag == 0x02 || tag == 0x08 {
            be32(xfs, at + 4)
        } else {
            u32::MAX
        };
        push_le16(&mut out, (tag % 0x1_0000) as u16);
        push_le16(&mut out, be16(xfs, at + 8));
        push_le32(&mut out, id);
        i += 1;
        assert(out@ =~= le32_bytes(2) + acl_entries(xfs@, i as nat));
    }
    Ok(out)
}

/// An attribute called `name` on disk, as a list: empty if it is not a
/// user-visible one.
pub open spec fn found_as(flags: u8, name: Seq<u8>, value: ValueView) -> Seq<FoundView> {
    match full_name_of(flags, name) {
        Some(full) => seq![FoundView { name: full, value }],
        None => Seq::empty(),
    }
}

/// The `n` attributes that start at byte `p` of a short-form fork, of which
/// `total` bytes are used: the lengths of name and value, flags, then both.
pub open spec fn short_attrs(fork: Seq<u8>, total: int, p: int, n: nat) -> core::result::Result<
    Seq<FoundView>,
    Fault,
>
    decreases n,
{
    let value_at = p + 3 + fork[p];
    let end = value_at + fork[p + 1];
    if n == 0 {
        Ok(Seq::empty())
    } else if p + 3 > total || end > total {
        Err(Fault::Corrupt("short-form attribute runs off the fork"@))
    } else {
        prefixed(
            found_as(
                fork[p + 2],
                fork.subrange(p + 3, value_at),
                ValueView::Inline(fork.subrange(value_at, end)),
            ),
            short_attrs(fork, total, end, (n - 1) as nat),
        )
    }
}

/// The attributes of a short-form fork.
pub open spec fn shortform_of(fork: Seq<u8>) -> core::result::Result<Seq<FoundView>, Fault> {
    if fork.len() < 4 {
        Err(Fault::Corrupt("short-form attributes: no header"@))
    } else {
        let used = be16_at(fork, 0) as int;
        let total = if used < fork.len() {
            used
        } else {
            fork.len() as int
        };
        short_attrs(fork, total, 4, fork[2] as nat)
    }
}

/// Whether a name is one that Linux reports an attribute under.
pub open spec fn is_reported_name(name: Seq<char>) -> bool {
    ||| "user."@.is_prefix_of(name)
    ||| "trusted."@.is_prefix_of(name)
    ||| "security."@.is_prefix_of(name)
    ||| name == "system.posix_acl_access"@
    ||| name == "system.posix_acl_default"@
}

/// Whether every one of `found` has a name that Linux reports.
pub open spec fn all_reported(found: Seq<FoundView>) -> bool {
    forall|i: int| 0 <= i < found.len() ==> is_reported_name((#[trigger] found[i]).name)
}

/// Whether the value of every one of `found` is stored with its name.
pub open spec fn all_inline(found: Seq<FoundView>) -> bool {
    forall|i: int| 0 <= i < found.len() ==> (#[trigger] found[i]).value is Inline
}

/// An attribute that is seen at all has a name that Linux reports.
pub proof fn lemma_namespaced(flags: u8, text: Seq<char>)
    ensures
        namespaced(flags, text) matches Some(name) ==> is_reported_name(name),
{
    if let Some(name) = namespaced(flags, text) {
        if flags & SECURE != 0 {
            assert("security."@ =~= name.subrange(0, "security."@.len() as int));
        } else if flags & ROOT != 0 {
            if text != "SGI_ACL_FILE"@ && text != "SGI_ACL_DEFAULT"@ {
                assert("trusted."@ =~= name.subrange(0, "trusted."@.len() as int));
            }
        } else {
            assert("user."@ =~= name.subrange(0, "user."@.len() as int));
        }
    }
}

proof fn lemma_short_attrs(fork: Seq<u8>, total: int, p: int, n: nat)
    ensures
        short_attrs(fork, total, p, n) matches Ok(found) ==> all_inline(found) && all_reported(found),
    decreases n,
{
    if n > 0 {
        let value_at = p + 3 + fork[p];
        let end = value_at + fork[p + 1];
        lemma_short_attrs(fork, total, end, (n - 1) as nat);
        lemma_namespaced(fork[p + 2], lossy_text(fork.subrange(p + 3, value_at)));
    }
}

/// The attributes of a short-form fork have their values with them, and names
/// that Linux reports.
pub proof fn lemma_shortform(fork: Seq<u8>)
    ensures
        shortform_of(fork) matches Ok(found) ==> all_inline(found) && all_reported(found),
{
    if fork.len() >= 4 {
        let used = be16_at(fork, 0) as int;
        let total = if used < fork.len() {
            used
        } else {
            fork.len() as int
        };
        lemma_short_attrs(fork, total, 4, fork[2] as nat);
    }
}

proof fn lemma_leaf_names(sb: Superblock, buf: Seq<u8>, ino: u64, fsb: u64, i: int)
    ensures
        leaf_names(sb, buf, ino, fsb, i) matches Ok(found) ==> all_reported(found),
    decreases be16_at(buf, count_at(sb)) - i,
{
    if i < be16_at(buf, count_at(sb)) {
        let e = leaf_entries_at(sb) + i * 8;
        let at = be16_at(buf, e + 4) as int;
        lemma_leaf_names(sb, buf, ino, fsb, i + 1);
        lemma_namespaced(buf[e + 6], lossy_text(buf.subrange(at + 3, at + 3 + buf[at + 2])));
        lemma_namespaced(buf[e + 6], lossy_text(buf.subrange(at + 9, at + 9 + buf[at + 8])));
    }
}

/// The names in an attribute leaf are names that Linux reports.
pub proof fn lemma_leaf(sb: Superblock, buf: Seq<u8>, ino: u64, fsb: u64)
    ensures
        block_of(sb, buf, ino, fsb) matches Ok(BlockView::Leaf { found, forw }) ==> all_reported(found),
{
    lemma_leaf_names(sb, buf, ino, fsb, 0);
}

/// Add to `found` the attribute called `name` on disk, if it is a
/// user-visible one.
fn note(found: &mut Vec<Found>, flags: u8, name: &[u8], value: Value)
    ensures
        views(final(found)@) == views(old(found)@) + found_as(flags, name@, value@),
{
    if let Some(full) = full_name(flags, name) {
        let f = Found { name: full, value };
        proof {
            lemma_views_push(found@, f);
            assert(views(found@).push(f@) =~= views(found@) + seq![f@]);
        }
        found.push(f);
    } else {
        assert(views(found@) =~= views(found@) + found_as(flags, name@, value@));
    }
}

/// Parse a short-form attribute fork.
pub fn parse_shortform(fork: &[u8]) -> (r: Result<Vec<Found>>)
    ensures
        list_outcome(r) == shortform_of(fork@),
{
    if fork.len() < 4 {
        return Err(corrupt("short-form attributes: no header"));
    }
    let used: usize = be16(fork, 0) as usize;
    let total: usize = if used < fork.len() {
        used
    } else {
        fork.len()
    };
    let count: usize = fork[2] as usize;
    let mut p: usize = 4;
    let mut out: Vec<Found> = Vec::new();
    let mut i: usize = 0;
    proof {
        assert(views(out@) =~= Seq::<FoundView>::empty());
        lemma_prefixed(views(out@), views(out@), short_attrs(fork@, total as int, 4, count as nat));
    }
    while i < count
        invariant
            i <= count,
            total <= fork.len(),
            4 <= p,
            p <= total || p == 4,
            shortform_of(fork@) == prefixed(
                views(out@),
                short_attrs(fork@, total as int, p as int, (count - i) as nat),
            ),
        decreases count - i,
    {
        if p > total || total - p < 3 {
            return Err(corrupt("short-form attribute runs off the fork"));
        }
        let namelen: usize = fork[p] as usize;
        let valuelen: usize = fork[p + 1] as usize;
        let flags: u8 = fork[p + 2];
        let name_at: usize = p + 3;
        if namelen + valuelen > total - name_at {
            return Err(corrupt("short-form attribute runs off the fork"));
        }
        let value_at: usize = name_at + namelen;
        let end: usize = value_at + valuelen;
        let value = Value::Inline(cut(fork, value_at, end));
        proof {
            lemma_prefixed(
                views(out@),
                found_as(flags, fork@.subrange(name_at as int, value_at as int), value@),
                short_attrs(fork@, total as int, end as int, (count - i - 1) as nat),
            );
        }
        note(&mut out, flags, slice_subrange(fork, name_at, value_at), value);
        p = end;
        i += 1;
    }
    assert(views(out@) + Seq::<FoundView>::empty() =~= views(out@));
    Ok(out)
}

/// The complaint that something is wrong with attribute structure `fsb`,
/// called `which`, of inode `ino`.
pub open spec fn attr_fault(ino: u64, which: Seq<char>, fsb: u64, what: Seq<char>) -> Fault {
    inode_fault(ino, which + decimal(fsb as nat) + what)
}

/// A complaint about attribute structure `fsb`, called `which`, of inode
/// `ino`.
fn attr_error(ino: u64, which: &str, fsb: u64, what: &str) -> (r: Error)
    ensures
        r@ == attr_fault(ino, which@, fsb, what@),
{
    let text = numbered(which, fsb, what);
    inode_error(ino, text.as_str())
}

/// Whether a buffer is long enough for what its first bytes make it out to be.
pub open spec fn is_long_enough(sb: Superblock, buf: Seq<u8>, ino: u64) -> bool {
    let magic = be16_at(buf, 8);
    &&& 10 <= buf.len()
    &&& sb.spec_is_v5() && (magic == LEAF_MAGIC_V5 || magic == NODE_MAGIC_V5) && crc::is_sealed(buf, 12) ==> 56
        <= buf.len()
    &&& block_refusal(sb, buf, ino, 0) is None ==> {
        &&& count_at(sb) + 2 <= buf.len()
        &&& (magic == NODE_MAGIC_V5 || magic == NODE_MAGIC_V4) && be16_at(buf, count_at(sb)) != 0
            ==> node_entries_at(sb) + 8 <= buf.len()
    }
}

/// Why the header of an attribute fork block is refused, if it is.
pub open spec fn block_refusal(sb: Superblock, buf: Seq<u8>, ino: u64, fsb: u64) -> Option<Fault> {
    let magic = be16_at(buf, 8);
    let which = ": attribute block "@;
    if (if sb.spec_is_v5() {
        magic != LEAF_MAGIC_V5 && magic != NODE_MAGIC_V5
    } else {
        magic != LEAF_MAGIC_V4 && magic != NODE_MAGIC_V4
    }) {
        Some(attr_fault(ino, which, fsb, " magic 0x"@ + numeral(magic as nat, 16)))
    } else if sb.spec_is_v5() && !crc::is_sealed(buf, 12) {
        Some(attr_fault(ino, which, fsb, " checksum"@))
    } else if sb.spec_is_v5() && be64_at(buf, 48) != ino {
        Some(attr_fault(ino, which, fsb, " owned by "@ + decimal(be64_at(buf, 48) as nat)))
    } else {
        None
    }
}

/// Where the count of entries is in an attribute fork block.
pub open spec fn count_at(sb: Superblock) -> int {
    if sb.spec_is_v5() {
        56
    } else {
        12
    }
}

/// Where the entries of a leaf start.
pub open spec fn leaf_entries_at(sb: Superblock) -> int {
    if sb.spec_is_v5() {
        80
    } else {
        32
    }
}

/// Where the entries of a node start.
pub open spec fn node_entries_at(sb: Superblock) -> int {
    if sb.spec_is_v5() {
        64
    } else {
        16
    }
}

/// What the leaf entry at byte `e` names. It gives the place of the name and
/// flags; a local value has its length, the name's and both there, a remote
/// one its block, its length, the name's and the name.
pub open spec fn leaf_entry(buf: Seq<u8>, e: int) -> Option<Seq<FoundView>> {
    let at = be16_at(buf, e + 4) as int;
    let flags = buf[e + 6];
    if flags & LOCAL != 0 {
        let value_at = at + 3 + buf[at + 2];
        let end = value_at + be16_at(buf, at);
        if at + 3 > buf.len() || end > buf.len() {
            None
        } else {
            Some(
                found_as(
                    flags,
                    buf.subrange(at + 3, value_at),
                    ValueView::Inline(buf.subrange(value_at, end)),
                ),
            )
        }
    } else {
        let end = at + 9 + buf[at + 8];
        if at + 9 > buf.len() || end > buf.len() {
            None
        } else {
            Some(
                found_as(
                    flags,
                    buf.subrange(at + 9, end),
                    ValueView::Remote { blk: be32_at(buf, at), len: be32_at(buf, at + 4) },
                ),
            )
        }
    }
}

/// The names of a leaf from entry `i` on.
pub open spec fn leaf_names(sb: Superblock, buf: Seq<u8>, ino: u64, fsb: u64, i: int) -> core::result::Result<
    Seq<FoundView>,
    Fault,
>
    decreases be16_at(buf, count_at(sb)) - i,
{
    if i >= be16_at(buf, count_at(sb)) {
        Ok(Seq::empty())
    } else {
        match leaf_entry(buf, leaf_entries_at(sb) + i * 8) {
            Some(found) => prefixed(found, leaf_names(sb, buf, ino, fsb, i + 1)),
            None => Err(attr_fault(ino, ": attribute leaf "@, fsb, " entry "@ + decimal(i as nat))),
        }
    }
}

/// What an attribute fork block holds.
pub open spec fn block_of(sb: Superblock, buf: Seq<u8>, ino: u64, fsb: u64) -> core::result::Result<
    BlockView,
    Fault,
> {
    let magic = be16_at(buf, 8);
    let count = be16_at(buf, count_at(sb));
    if block_refusal(sb, buf, ino, fsb) is Some {
        Err(block_refusal(sb, buf, ino, fsb)->Some_0)
    } else if magic == NODE_MAGIC_V5 || magic == NODE_MAGIC_V4 {
        if count == 0 {
            Err(attr_fault(ino, ": empty attribute node "@, fsb, ""@))
        } else {
            Ok(BlockView::Node { first_child: be32_at(buf, node_entries_at(sb) + 4) })
        }
    } else if leaf_entries_at(sb) + count * 8 > buf.len() {
        Err(attr_fault(ino, ": attribute leaf "@, fsb, " count "@ + decimal(count as nat)))
    } else {
        match leaf_names(sb, buf, ino, fsb, 0) {
            Ok(found) => Ok(BlockView::Leaf { found, forw: be32_at(buf, 0) }),
            Err(f) => Err(f),
        }
    }
}

/// Check the header of an attribute fork block.
fn check_block(sb: &Superblock, buf: &[u8], ino: u64, fsb: u64) -> (r: Result<()>)
    requires
        is_long_enough(*sb, buf@, ino),
    ensures
        match r {
            Ok(_) => block_refusal(*sb, buf@, ino, fsb) is None,
            Err(e) => block_refusal(*sb, buf@, ino, fsb) == Some(e@),
        },
{
    let magic: u16 = be16(buf, 8);
    let good: bool = if sb.is_v5() {
        magic == LEAF_MAGIC_V5 || magic == NODE_MAGIC_V5
    } else {
        magic == LEAF_MAGIC_V4 || magic == NODE_MAGIC_V4
    };
    if !good {
        let mut what = String::from_str(" magic 0x");
        push_numeral(&mut what, magic as u128, 16);
        return Err(attr_error(ino, ": attribute block ", fsb, what.as_str()));
    }
    if sb.is_v5() {
        if !crc::verify(buf, 12) {
            return Err(attr_error(ino, ": attribute block ", fsb, " checksum"));
        }
        let owner: u64 = be64(buf, 48);
        if owner != ino {
            let mut what = String::from_str(" owned by ");
            push_decimal(&mut what, owner);
            return Err(attr_error(ino, ": attribute block ", fsb, what.as_str()));
        }
    }
    Ok(())
}

/// Add what the leaf entry at byte `e` names to `found`; false if it runs off
/// the block.
fn note_leaf_entry(buf: &[u8], e: usize, found: &mut Vec<Found>) -> (r: bool)
    requires
        e + 8 <= buf.len(),
    ensures
        match leaf_entry(buf@, e as int) {
            Some(more) => r && views(final(found)@) == views(old(found)@) + more,
            None => !r,
        },
{
    let len: usize = buf.len();
    let at: usize = be16(buf, e + 4) as usize;
    let flags: u8 = buf[e + 6];
    if flags & LOCAL != 0 {
        if at > len || len - at < 3 {
            return false;
        }
        let valuelen: usize = be16(buf, at) as usize;
        let namelen: usize = buf[at + 2] as usize;
        let name_at: usize = at + 3;
        if namelen + valuelen > len - name_at {
            return false;
        }
        let value_at: usize = name_at + namelen;
        let value = Value::Inline(cut(buf, value_at, value_at + valuelen));
        note(found, flags, slice_subrange(buf, name_at, value_at), value);
    } else {
        if at > len || len - at < 9 {
            return false;
        }
        let value = Value::Remote { blk: be32(buf, at), len: be32(buf, at + 4) };
        let namelen: usize = buf[at + 8] as usize;
        let name_at: usize = at + 9;
        if namelen > len - name_at {
            return false;
        }
        note(found, flags, slice_subrange(buf, name_at, name_at + namelen), value);
    }
    true
}

/// Parse one attribute fork block (`fsb` is for messages).
pub fn parse_block(sb: &Superblock, buf: &[u8], ino: u64, fsb: u64) -> (r: Result<Block>)
    requires
        is_long_enough(*sb, buf@, ino),
    ensures
        outcome(r) == block_of(*sb, buf@, ino, fsb),
{
    check_block(sb, buf, ino, fsb)?;
    let len: usize = buf.len();
    let v5: bool = sb.is_v5();
    let magic: u16 = be16(buf, 8);
    let count: usize = be16(
        buf,
        if v5 {
            56
        } else {
            12
        },
    ) as usize;
    if magic == NODE_MAGIC_V5 || magic == NODE_MAGIC_V4 {
        if count == 0 {
            return Err(attr_error(ino, ": empty attribute node ", fsb, ""));
        }
        let entries: usize = if v5 {
            64
        } else {
            16
        };
        return Ok(Block::Node { first_child: be32(buf, entries + 4) });
    }
    let entries: usize = if v5 {
        80
    } else {
        32
    };
    if entries > len || count * 8 > len - entries {
        let mut what = String::from_str(" count ");
        push_decimal(&mut what, count as u64);
        return Err(attr_error(ino, ": attribute leaf ", fsb, what.as_str()));
    }
    let mut found: Vec<Found> = Vec::new();
    let mut i: usize = 0;
    proof {
        assert(views(found@) =~= Seq::<FoundView>::empty());
        lemma_prefixed(views(found@), views(found@), leaf_names(*sb, buf@, ino, fsb, 0));
    }
    while i < count
        invariant
            i <= count,
            count == be16_at(buf@, count_at(*sb)),
            entries == leaf_entries_at(*sb),
            entries + count * 8 <= buf.len(),
            leaf_names(*sb, buf@, ino, fsb, 0) == prefixed(
                views(found@),
                leaf_names(*sb, buf@, ino, fsb, i as int),
            ),
            block_of(*sb, buf@, ino, fsb) == match leaf_names(*sb, buf@, ino, fsb, 0) {
                Ok(found) => Ok(BlockView::Leaf { found, forw: be32_at(buf@, 0) }),
                Err(f) => Err(f),
            },
        decreases count - i,
    {
        let e: usize = entries + i * 8;
        proof {
            if let Some(more) = leaf_entry(buf@, e as int) {
                lemma_prefixed(views(found@), more, leaf_names(*sb, buf@, ino, fsb, i + 1));
            }
        }
        if !note_leaf_entry(buf, e, &mut found) {
            let mut what = String::from_str(" entry ");
            push_decimal(&mut what, i as u64);
            return Err(attr_error(ino, ": attribute leaf ", fsb, what.as_str()));
        }
        i += 1;
    }
    assert(views(found@) + Seq::<FoundView>::empty() =~= views(found@));
    Ok(Block::Leaf { found, forw: be32(buf, 0) })
}

/// How many bytes of a value one remote value block can hold.
pub open spec fn remote_room(sb: Superblock) -> int {
    if sb.spec_is_v5() {
        sb.block_size - RMT_HDR
    } else {
        sb.block_size as int
    }
}

/// Blocks a remote value of `len` bytes occupies: the fewest that hold it.
pub open spec fn remote_blocks_of(sb: Superblock, len: nat) -> int {
    (len + remote_room(sb) - 1) / remote_room(sb)
}

/// Blocks a remote value of `len` bytes occupies.
pub fn remote_blocks(sb: &Superblock, len: u32) -> (r: u64)
    requires
        remote_room(*sb) > 0,
    ensures
        r == remote_blocks_of(*sb, len as nat),
        r <= len,
{
    let per: u64 = if sb.is_v5() {
        sb.block_size as u64 - RMT_HDR as u64
    } else {
        sb.block_size as u64
    };
    proof {
        let n: int = len as int;
        let q: int = (n + per - 1) / (per as int);
        assert(0 <= q <= n) by (nonlinear_arith)
            requires
                q == (n + per - 1) / (per as int),
                n >= 0,
                per >= 1,
        ;
    }
    (len as u64 + per - 1) / per
}

/// The value bytes of one remote value block, if it is a good one.
pub open spec fn remote_payload_of(sb: Superblock, buf: Seq<u8>, ino: u64, want: nat) -> core::result::Result<
    Seq<u8>,
    Fault,
> {
    let bytes = be32_at(buf, 8) as int;
    if !sb.spec_is_v5() {
        if want < buf.len() {
            Ok(buf.subrange(0, want as int))
        } else {
            Ok(buf)
        }
    } else if be32_at(buf, 0) != RMT_MAGIC || !crc::is_sealed(buf, 12) || be64_at(buf, 32) != ino {
        Err(inode_fault(ino, ": remote attribute value block"@))
    } else if RMT_HDR + bytes > buf.len() {
        Err(inode_fault(ino, ": remote attribute value of "@ + decimal(bytes as nat) + " bytes"@))
    } else {
        Ok(buf.subrange(RMT_HDR as int, RMT_HDR + bytes))
    }
}

/// The value bytes of one remote value block, checked.
pub fn remote_payload<'a>(sb: &Superblock, buf: &'a [u8], ino: u64, want: usize) -> (r: Result<&'a [u8]>)
    requires
        sb.spec_is_v5() ==> 4 <= buf@.len() && (be32_at(buf@, 0) == RMT_MAGIC && crc::is_sealed(buf@, 12) ==> 40
            <= buf@.len()),
    ensures
        outcome(r) == remote_payload_of(*sb, buf@, ino, want as nat),
{
    if !sb.is_v5() {
        if want < buf.len() {
            return Ok(slice_subrange(buf, 0, want));
        }
        return Ok(buf);
    }
    if be32(buf, 0) != RMT_MAGIC || !crc::verify(buf, 12) || be64(buf, 32) != ino {
        return Err(inode_error(ino, ": remote attribute value block"));
    }
    let bytes: u32 = be32(buf, 8);
    if buf.len() < RMT_HDR || bytes as u64 > (buf.len() - RMT_HDR) as u64 {
        let what = numbered(": remote attribute value of ", bytes as u64, " bytes");
        return Err(inode_error(ino, what.as_str()));
    }
    Ok(slice_subrange(buf, RMT_HDR, RMT_HDR + bytes as usize))
}

/// A text without control characters is shown as it is, with or without a zero
/// byte after it, and nothing else is shown: what is shown of a value is the
/// text it is, but for a zero byte at its end.
pub proof fn lemma_text_is_readable(text: Seq<char>, value: Seq<u8>)
    ensures
        (forall|i: int| 0 <= i < text.len() ==> !is_control(#[trigger] text[i])) ==> readable_of(encode_utf8(text))
            == Some(text) && readable_of(encode_utf8(text).push(0)) == Some(text),
        readable_of(value) == Some(text) ==> {
            &&& value == encode_utf8(text) || value == encode_utf8(text).push(0)
            &&& forall|i: int| 0 <= i < text.len() ==> !is_control(#[trigger] text[i])
        },
{
    let bytes = encode_utf8(text);
    encode_utf8_valid_utf8(text);
    encode_utf8_decode_utf8(text);
    lemma_controls(bytes);
    if forall|i: int| 0 <= i < text.len() ==> !is_control(#[trigger] text[i]) {
        if bytes.len() > 0 {
            assert(!is_control_at(bytes, bytes.len() - 1));
        }
        assert(bytes.push(0).drop_last() =~= bytes);
    }
    if readable_of(value) == Some(text) {
        let shown = without_nul(value);
        decode_utf8_encode_utf8(shown);
        if shown.len() < value.len() {
            assert(value =~= shown.push(0));
        }
    }
}

} // verus!
