//! Access control lists: what Linux reports of one, entry by entry.

use vstd::prelude::*;

use crate::attr::{acl_entries, acl_entry, posix_acl_of};
use crate::bytes::{be16_at, be32_at, le32_at, le32_bytes, lemma_le32_round_trip};

verus! {

/// The 16-bit little-endian field at byte `o` of `b`.
pub open spec fn le16_at(b: Seq<u8>, o: int) -> int {
    b[o] + b[o + 1] * 0x100
}

/// The tag of a named user's entry.
pub open spec fn named_user() -> u32 {
    2
}

/// The tag of a named group's entry.
pub open spec fn named_group() -> u32 {
    8
}

/// Whether the eight bytes at `to` of `out` say what the twelve at `from` of
/// `xfs` do: the tag, the permissions, and whose they are where the entry is
/// about somebody named.
pub open spec fn is_same_entry(xfs: Seq<u8>, from: int, out: Seq<u8>, to: int) -> bool {
    let tag = be32_at(xfs, from);
    &&& le16_at(out, to) == tag % 0x1_0000
    &&& le16_at(out, to + 2) == be16_at(xfs, from + 8)
    &&& le32_at(out, to + 4) == if tag == named_user() || tag == named_group() {
        be32_at(xfs, from + 4)
    } else {
        0xffff_ffff
    }
}

proof fn lemma_entry(xfs: Seq<u8>, i: int)
    requires
        0 <= i,
    ensures
        acl_entry(xfs, i).len() == 8,
        is_same_entry(xfs, 4 + 12 * i, acl_entry(xfs, i), 0),
{
    let e = acl_entry(xfs, i);
    let at = 4 + i * 12;
    let tag = be32_at(xfs, at);
    let id = if tag == 2 || tag == 8 {
        be32_at(xfs, at + 4)
    } else {
        0xffff_ffff
    };
    lemma_le32_round_trip(id);
    let w = le32_bytes(id);
    assert(w.len() == 4);
    assert(e[4] == w[0] && e[5] == w[1] && e[6] == w[2] && e[7] == w[3]);
}

proof fn lemma_entries(xfs: Seq<u8>, n: nat, i: int)
    requires
        0 <= i < n,
    ensures
        acl_entries(xfs, n).len() == 8 * n,
        is_same_entry(xfs, 4 + 12 * i, acl_entries(xfs, n), 8 * i),
    decreases n,
{
    let m = (n - 1) as nat;
    let all = acl_entries(xfs, n);
    let front = acl_entries(xfs, m);
    let last = acl_entry(xfs, n - 1);
    lemma_entry(xfs, n - 1);
    if m > 0 {
        lemma_entries(xfs, m, if i < m {
            i
        } else {
            0
        });
    }
    assert(front.len() == 8 * m);
    assert forall|k: int| 0 <= k < 8 implies #[trigger] all[8 * i + k] == if i < m {
        front[8 * i + k]
    } else {
        last[k]
    } by {}
    assert(all[8 * i + 0] == all[8 * i]);
    assert(all[8 * i + 1] == all[8 * i + 1]);
    assert(all[8 * i + 2] == all[8 * i + 2]);
    assert(all[8 * i + 3] == all[8 * i + 2 + 1]);
    assert(all[8 * i + 4] == all[8 * i + 4]);
    assert(all[8 * i + 5] == all[8 * i + 4 + 1]);
    assert(all[8 * i + 6] == all[8 * i + 4 + 2]);
    assert(all[8 * i + 7] == all[8 * i + 4 + 3]);
    if i < m {
        assert(front[8 * i + 0] == front[8 * i]);
        assert(front[8 * i + 3] == front[8 * i + 2 + 1]);
        assert(front[8 * i + 5] == front[8 * i + 4 + 1]);
    }
}

/// What Linux reports of an ACL that holds all its entries is version 2 and
/// then every entry in its order; one that lacks some of them is refused.
pub proof fn lemma_acl_is_kept(xfs: Seq<u8>)
    ensures
        posix_acl_of(xfs) is Ok <==> 4 <= xfs.len() && 4 + 12 * be32_at(xfs, 0) <= xfs.len(),
        posix_acl_of(xfs) matches Ok(out) ==> {
            &&& out.len() == 4 + 8 * be32_at(xfs, 0)
            &&& le32_at(out, 0) == 2
            &&& forall|i: int| 0 <= i < be32_at(xfs, 0) ==> #[trigger] is_same_entry(xfs, 4 + 12 * i, out, 4 + 8 * i)
        },
{
    if posix_acl_of(xfs) is Ok {
        let out = posix_acl_of(xfs)->Ok_0;
        let n = be32_at(xfs, 0) as nat;
        let head = le32_bytes(2);
        let body = acl_entries(xfs, n);
        lemma_le32_round_trip(2);
        assert(head.len() == 4);
        assert(forall|k: int| 0 <= k < 4 ==> out[k] == head[k]);
        if n > 0 {
            lemma_entries(xfs, n, 0);
        }
        assert forall|i: int| 0 <= i < n implies #[trigger] is_same_entry(xfs, 4 + 12 * i, out, 4 + 8 * i) by {
            lemma_entries(xfs, n, i);
            let to = 4 + 8 * i;
            assert(out[to] == body[8 * i] && out[to + 1] == body[8 * i + 1] && out[to + 2] == body[8 * i + 2]
                && out[to + 2 + 1] == body[8 * i + 2 + 1] && out[to + 4] == body[8 * i + 4] && out[to + 4 + 1]
                == body[8 * i + 4 + 1] && out[to + 4 + 2] == body[8 * i + 4 + 2] && out[to + 4 + 3] == body[8 * i + 4
                + 3]);
        }
    }
}

} // verus!
