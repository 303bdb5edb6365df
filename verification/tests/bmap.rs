//! Block maps.

use fio_xfs::bmap::{btree_root, find, finish, inline_extents, Extent};

#[test]
fn decode_packs_the_fields() {
    // offset 5, block 0x123456789, count 7, unwritten.
    let (off, blk, cnt) = (5u64, 0x1_2345_6789u64, 7u64);
    let l0 = 1u64 << 63 | off << 9 | blk >> 43;
    let l1 = (blk & ((1 << 43) - 1)) << 21 | cnt;
    let mut rec = [0u8; 16];
    rec[..8].copy_from_slice(&l0.to_be_bytes());
    rec[8..].copy_from_slice(&l1.to_be_bytes());
    let e = Extent::decode(&rec);
    assert_eq!(e, Extent { offset: off, block: blk, count: cnt, unwritten: true });
}

#[test]
fn find_by_logical_block() {
    let x = |offset, count| Extent { offset, block: 100 + offset, count, unwritten: false };
    let v = vec![x(0, 2), x(4, 3), x(10, 1)];
    assert_eq!(find(&v, 1).unwrap().offset, 0);
    assert!(find(&v, 2).is_none());
    assert_eq!(find(&v, 6).unwrap().offset, 4);
    assert!(find(&v, 7).is_none());
    assert_eq!(find(&v, 10).unwrap().offset, 10);
    assert!(find(&v, 11).is_none());
}

fn extent(offset: u64, block: u64, count: u64) -> Extent {
    Extent { offset, block, count, unwritten: false }
}

#[test]
fn extents_end_after_their_last_block() {
    let e = extent(5, 100, 7);
    assert_eq!(e.end(), 12);
    assert_eq!(extent(u64::MAX, 0, 0).end(), u64::MAX);
}

#[test]
fn finishing_sorts_and_leaves_out_what_is_empty() {
    let v = finish(vec![extent(9, 1, 2), extent(4, 2, 5), extent(6, 3, 0), extent(0, 4, 4)]).unwrap();
    assert_eq!(v, [extent(0, 4, 4), extent(4, 2, 5), extent(9, 1, 2)]);
    assert!(finish(Vec::new()).unwrap().is_empty());
    let e = finish(vec![extent(9, 1, 2), extent(4, 2, 6)]).unwrap_err();
    assert_eq!(e.message(), "corrupt filesystem: overlapping extents at logical blocks 4 and 9");
    // Of two that start together, the first given stays first.
    let e = finish(vec![extent(3, 1, 1), extent(3, 2, 1)]).unwrap_err();
    assert_eq!(e.message(), "corrupt filesystem: overlapping extents at logical blocks 3 and 3");
    // One that reaches past the last block number overlaps what follows.
    assert!(finish(vec![extent(5, 1, u64::MAX), extent(7, 1, 1)]).is_err());
    assert!(finish(vec![extent(5, 1, u64::MAX)]).is_ok());
}

#[test]
fn inline_extents_must_fit() {
    let mut fork = vec![0u8; 40];
    fork[15] = 3;
    fork[31] = 1;
    let v = inline_extents(&fork, 2).unwrap();
    assert_eq!(v, [extent(0, 0, 3), extent(0, 0, 1)]);
    assert!(inline_extents(&fork, 0).unwrap().is_empty());
    assert_eq!(
        inline_extents(&fork, 3).unwrap_err().message(),
        "corrupt filesystem: 3 extents do not fit in the fork"
    );
    assert_eq!(
        inline_extents(&fork, u64::MAX).unwrap_err().message(),
        "corrupt filesystem: 18446744073709551615 extents do not fit in the fork"
    );
}

#[test]
fn tree_roots_keep_pointers_in_the_second_half() {
    // Room for two records: keys at 4 and 12, pointers at 20 and 28.
    let mut fork = vec![0u8; 40];
    fork[1] = 2;
    fork[3] = 1;
    fork[27] = 9;
    assert_eq!(btree_root(&fork).unwrap(), (2, vec![9]));
    fork[3] = 3;
    assert_eq!(
        btree_root(&fork).unwrap_err().message(),
        "corrupt filesystem: B+tree root: level 2, 3 records"
    );
    assert_eq!(
        btree_root(&fork[..3]).unwrap_err().message(),
        "corrupt filesystem: B+tree root in a tiny fork"
    );
}
