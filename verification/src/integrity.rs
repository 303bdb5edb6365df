//! What checksums buy: damage to a single byte of a version 5 structure never
//! goes unnoticed.

use vstd::prelude::*;

use crate::attr::{block_of, remote_payload_of};
use crate::bmap::btree_block_of;
use crate::bytes::be16_at;
use crate::crc::{is_sealed, lemma_damage_is_noticed};
use crate::dir::data_block_names;
use crate::error::Fault;
use crate::inode::inode_of;
use crate::sb::{refusal, version_at, Superblock};
use crate::volume::links::is_link_run;

verus! {

/// Whether `b` is `a` with the byte at `k`, and no other, changed.
pub open spec fn differ_at(a: Seq<u8>, b: Seq<u8>, k: int) -> bool {
    &&& a.len() == b.len()
    &&& 0 <= k < a.len()
    &&& a[k] != b[k]
    &&& forall|i: int| 0 <= i < a.len() && i != k ==> a[i] == b[i]
}

/// A good version 5 superblock with one byte of its sector changed is refused,
/// unless the byte is one of those that say which version it is and how long
/// the sector is.
pub proof fn lemma_damaged_superblock(a: Seq<u8>, b: Seq<u8>, k: int)
    requires
        refusal(a) is None,
        version_at(a) == 5,
        differ_at(a, b, k),
        k < be16_at(a, 102),
        k < 100 || k >= 104,
    ensures
        refusal(b) is Some,
        k >= 4 ==> refusal(b) == Some(Fault::Corrupt("superblock checksum"@)),
{
    let sect = be16_at(a, 102) as int;
    let sa = a.subrange(0, sect);
    let sb = b.subrange(0, sect);
    assert(be16_at(b, 100) == be16_at(a, 100));
    assert(be16_at(b, 102) == be16_at(a, 102));
    assert(is_sealed(sa, 224));
    lemma_damage_is_noticed(sa, sb, 224, k);
}

/// A good inode of a version 5 filesystem with one byte changed is refused.
pub proof fn lemma_damaged_inode(sb: Superblock, ino: u64, a: Seq<u8>, b: Seq<u8>, k: int)
    requires
        256 <= sb.inode_size,
        sb.spec_is_v5(),
        inode_of(sb, ino, a) is Ok,
        differ_at(a, b, k),
        k < sb.inode_size,
    ensures
        inode_of(sb, ino, b) matches Err(Fault::Corrupt(_)),
{
    let size = sb.inode_size as int;
    let sa = a.subrange(0, size);
    let sb2 = b.subrange(0, size);
    assert(sa[4] == 3);
    assert(is_sealed(sa, 100));
    lemma_damage_is_noticed(sa, sb2, 100, k);
}

/// A good B+tree block of a version 5 filesystem with one byte changed is
/// refused.
pub proof fn lemma_damaged_btree_block(sb: Superblock, fsb: u64, owner: u64, a: Seq<u8>, b: Seq<u8>, k: int)
    requires
        sb.spec_is_v5(),
        btree_block_of(sb, a, fsb, owner) is Ok,
        differ_at(a, b, k),
    ensures
        btree_block_of(sb, b, fsb, owner) is Err,
{
    lemma_damage_is_noticed(a, b, 64, k);
}

/// A good directory data block of a version 5 filesystem with one byte changed
/// gives no name at all.
pub proof fn lemma_damaged_directory_block(sb: Superblock, ino: u64, a: Seq<u8>, b: Seq<u8>, k: int)
    requires
        sb.spec_is_v5(),
        data_block_names(sb, a, ino).1 is None,
        differ_at(a, b, k),
    ensures
        data_block_names(sb, b, ino).0.len() == 0,
        data_block_names(sb, b, ino).1 is Some,
{
    lemma_damage_is_noticed(a, b, 4, k);
}

/// A good attribute block of a version 5 filesystem with one byte changed is
/// refused.
pub proof fn lemma_damaged_attribute_block(sb: Superblock, ino: u64, fsb: u64, a: Seq<u8>, b: Seq<u8>, k: int)
    requires
        sb.spec_is_v5(),
        block_of(sb, a, ino, fsb) is Ok,
        differ_at(a, b, k),
    ensures
        block_of(sb, b, ino, fsb) is Err,
{
    lemma_damage_is_noticed(a, b, 12, k);
}

/// A good remote value block of a version 5 filesystem with one byte changed
/// is refused.
pub proof fn lemma_damaged_value_block(sb: Superblock, ino: u64, want: nat, a: Seq<u8>, b: Seq<u8>, k: int)
    requires
        sb.spec_is_v5(),
        remote_payload_of(sb, a, ino, want) is Ok,
        differ_at(a, b, k),
    ensures
        remote_payload_of(sb, b, ino, want) is Err,
{
    lemma_damage_is_noticed(a, b, 12, k);
}

/// A good run of symlink blocks of a version 5 filesystem with one byte changed
/// is refused.
pub proof fn lemma_damaged_symlink_run(ino: u64, at: nat, a: Seq<u8>, b: Seq<u8>, k: int)
    requires
        is_link_run(a, ino, at),
        differ_at(a, b, k),
    ensures
        !is_link_run(b, ino, at),
{
    lemma_damage_is_noticed(a, b, 12, k);
}

} // verus!
