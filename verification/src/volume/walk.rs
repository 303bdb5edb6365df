//! Walking a tree: every name under a directory.

use std::collections::HashSet;
use vstd::prelude::*;
use vstd::string::*;

use crate::arith::{lemma_numbers_are_few, WRAP};
use crate::bytes::{cut, extend, lemma_views_push, views};
use crate::device::{settled, BlockDevice};

use crate::error::{list_outcome, numbered, Error, Fault, Result};
use crate::inode::{Inode, InodeView};
use crate::sb::Superblock;
use crate::sort::{
    arranged, flipped, is_ranking, lemma_arranged_is_in_order, lemma_views_of_arranged, rank, sorted, Ranked,
};
use crate::text::{lossy, lossy_text};
use crate::volume::blocks::{inode_from, lemma_inode_from};
use crate::volume::names::listing;
use crate::volume::paths::{inode_at, SLASH};
use crate::volume::{stat_of, Entry, EntryView, Volume, WalkEntry, WalkView};

verus! {

/// Whether `a` does not come after `b` in byte order.
pub open spec fn bytes_le(a: Seq<u8>, b: Seq<u8>) -> bool
    decreases a.len(),
{
    if a.len() == 0 {
        true
    } else if b.len() == 0 {
        false
    } else {
        a[0] < b[0] || (a[0] == b[0] && bytes_le(a.skip(1), b.skip(1)))
    }
}

proof fn lemma_bytes_total(a: Seq<u8>, b: Seq<u8>)
    ensures
        bytes_le(a, b) || bytes_le(b, a),
    decreases a.len(),
{
    if a.len() > 0 && b.len() > 0 {
        lemma_bytes_total(a.skip(1), b.skip(1));
    }
}

proof fn lemma_bytes_chain(a: Seq<u8>, b: Seq<u8>, c: Seq<u8>)
    requires
        bytes_le(a, b),
        bytes_le(b, c),
    ensures
        bytes_le(a, c),
    decreases a.len(),
{
    if a.len() > 0 && a[0] == b[0] && b[0] == c[0] {
        lemma_bytes_chain(a.skip(1), b.skip(1), c.skip(1));
    }
}

/// Byte order is that of the first byte in which two names differ, and a name
/// comes before those it begins.
pub proof fn lemma_byte_order(a: Seq<u8>, b: Seq<u8>, k: int)
    requires
        0 <= k <= a.len(),
        k <= b.len(),
        forall|i: int| 0 <= i < k ==> a[i] == b[i],
    ensures
        k < a.len() && k < b.len() && a[k] < b[k] ==> bytes_le(a, b) && !bytes_le(b, a),
        k == a.len() ==> bytes_le(a, b),
        k == a.len() && k < b.len() ==> !bytes_le(b, a),
    decreases k,
{
    if k > 0 {
        let (c, d) = (a.skip(1), b.skip(1));
        assert forall|i: int| 0 <= i < k - 1 implies c[i] == d[i] by {
            assert(a[i + 1] == b[i + 1]);
        }
        lemma_byte_order(c, d, k - 1);
    }
}

/// Whether `a` does not come after `b` in byte order.
fn bytes_not_after(a: &[u8], b: &[u8]) -> (r: bool)
    ensures
        r == bytes_le(a@, b@),
{
    let mut i: usize = 0;
    assert(a@.skip(0) =~= a@);
    assert(b@.skip(0) =~= b@);
    while i < a.len() && i < b.len()
        invariant
            i <= a@.len(),
            i <= b@.len(),
            bytes_le(a@, b@) == bytes_le(a@.skip(i as int), b@.skip(i as int)),
        decreases a@.len() - i,
    {
        assert(a@.skip(i as int).skip(1) =~= a@.skip(i + 1));
        assert(b@.skip(i as int).skip(1) =~= b@.skip(i + 1));
        if a[i] != b[i] {
            return a[i] < b[i];
        }
        i += 1;
    }
    i == a.len()
}

/// The order in which names are stacked up: the last in byte order first.
pub open spec fn descending() -> spec_fn(EntryView, EntryView) -> bool {
    |a: EntryView, b: EntryView| bytes_le(b.raw_name, a.raw_name)
}

impl Ranked for Entry {
    open spec fn ranks_le(self, other: Self) -> bool {
        bytes_le(other.raw_name@, self.raw_name@)
    }

    proof fn lemma_total(a: Self, b: Self) {
        lemma_bytes_total(a.raw_name@, b.raw_name@);
    }

    proof fn lemma_chains(a: Self, b: Self, c: Self) {
        lemma_bytes_chain(c.raw_name@, b.raw_name@, a.raw_name@);
    }

    fn not_after(&self, other: &Self) -> (r: bool) {
        bytes_not_after(other.raw_name.as_slice(), self.raw_name.as_slice())
    }
}

/// The entries of a directory in byte order.
pub open spec fn children_of(sb: Superblock, img: Seq<u8>, dir: InodeView) -> core::result::Result<
    Seq<EntryView>,
    Fault,
> {
    match listing(sb, img, dir) {
        Err(f) => Err(f),
        Ok(entries) => Ok(arranged(entries, descending()).reverse()),
    }
}

proof fn lemma_descending()
    ensures
        is_ranking(descending()),
{
    let le = descending();
    assert forall|a: EntryView, b: EntryView| #[trigger] le(a, b) || le(b, a) by {
        lemma_bytes_total(a.raw_name, b.raw_name);
    }
    assert forall|a: EntryView, b: EntryView, c: EntryView| #[trigger] le(a, b) && #[trigger] le(b, c) implies le(
        a,
        c,
    ) by {
        lemma_bytes_chain(c.raw_name, b.raw_name, a.raw_name);
    }
}

/// Entries in byte order, those of one name in the order they came.
pub open spec fn by_name(entries: Seq<EntryView>) -> Seq<EntryView> {
    arranged(entries.reverse(), descending()).reverse()
}

/// Entries in byte order, those of one name in the order they came.
pub fn in_name_order(entries: Vec<Entry>) -> (r: Vec<Entry>)
    ensures
        views(r@) == by_name(views(entries@)),
        views(r@).to_multiset() == views(entries@).to_multiset(),
        forall|i: int, j: int| 0 <= i < j < r@.len() ==> bytes_le((#[trigger] r@[i]).raw_name@, (#[trigger] r@[j]).raw_name@),
{
    let ghost given = views(entries@);
    let back = flipped(entries);
    proof {
        assert(views(back@) =~= given.reverse());
        lemma_views_of_arranged(back@, rank::<Entry>(), descending());
    }
    let down = sorted(back);
    let r = flipped(down);
    proof {
        let le = descending();
        let s = arranged(given.reverse(), le);
        assert(views(r@) =~= s.reverse());
        lemma_descending();
        lemma_arranged_is_in_order(given.reverse(), le);
        s.lemma_reverse_to_multiset();
        given.lemma_reverse_to_multiset();
        assert forall|i: int, j: int| 0 <= i < j < r@.len() implies bytes_le(
            (#[trigger] r@[i]).raw_name@,
            (#[trigger] r@[j]).raw_name@,
        ) by {
            assert(le(s[s.len() - 1 - j], s[s.len() - 1 - i]));
            assert(views(r@)[i] == s[s.len() - 1 - i]);
            assert(views(r@)[j] == s[s.len() - 1 - j]);
        }
    }
    r
}

/// The children of a directory are its entries, in byte order.
pub proof fn lemma_children(sb: Superblock, img: Seq<u8>, dir: InodeView)
    requires
        children_of(sb, img, dir) is Ok,
    ensures
        listing(sb, img, dir) is Ok,
        children_of(sb, img, dir)->Ok_0.to_multiset() == listing(sb, img, dir)->Ok_0.to_multiset(),
        forall|i: int, j: int|
            0 <= i < j < children_of(sb, img, dir)->Ok_0.len() ==> bytes_le(
                (#[trigger] children_of(sb, img, dir)->Ok_0[i]).raw_name,
                (#[trigger] children_of(sb, img, dir)->Ok_0[j]).raw_name,
            ),
{
    let le = descending();
    lemma_descending();
    let entries = listing(sb, img, dir)->Ok_0;
    let down = arranged(entries, le);
    let up = children_of(sb, img, dir)->Ok_0;
    lemma_arranged_is_in_order(entries, le);
    down.lemma_reverse_to_multiset();
    assert forall|i: int, j: int| 0 <= i < j < up.len() implies bytes_le(
        (#[trigger] up[i]).raw_name,
        (#[trigger] up[j]).raw_name,
    ) by {
        assert(le(down[down.len() - 1 - j], down[down.len() - 1 - i]));
    }
}

/// The path of the name `name` in the directory whose path is `prefix`.
pub open spec fn joined(prefix: Seq<u8>, name: Seq<u8>) -> Seq<u8> {
    if prefix.len() == 0 {
        name
    } else {
        prefix.push(SLASH) + name
    }
}

/// The path of the name `name` in the directory whose path is `prefix`.
fn join(prefix: &[u8], name: &[u8]) -> (r: Vec<u8>)
    ensures
        r@ == joined(prefix@, name@),
{
    let mut r: Vec<u8> = cut(prefix, 0, prefix.len());
    assert(r@ =~= prefix@);
    if r.len() > 0 {
        r.push(SLASH);
    }
    extend(&mut r, name);
    assert(r@ =~= joined(prefix@, name@));
    r
}

/// The entries of the directory whose path is `prefix`, each as its path and
/// inode.
pub open spec fn queued(prefix: Seq<u8>, entries: Seq<EntryView>) -> Seq<(Seq<u8>, u64)> {
    Seq::new(entries.len(), |i: int| (joined(prefix, entries[i].raw_name), entries[i].inode))
}

/// What the walk says of a path and its inode.
pub open spec fn item_of(sb: Superblock, path: Seq<u8>, inode: InodeView) -> WalkView {
    WalkView { path: lossy_text(path), raw_path: path, stat: stat_of(sb, inode) }
}

/// What a walk comes to that has `todo` before it, directories `visited` being
/// behind it: what it finds, and what stopped it short, if anything did. What
/// is in a directory comes right after it.
#[verifier::opaque]
pub open spec fn walked(sb: Superblock, img: Seq<u8>, todo: Seq<(Seq<u8>, u64)>, visited: Set<u64>) -> (
    Seq<(WalkView, InodeView)>,
    Option<Fault>,
)
    decreases WRAP - visited.len(), todo.len(),
{
    if todo.len() == 0 {
        (Seq::empty(), None)
    } else {
        let (path, ino) = todo[0];
        match inode_from(sb, img, ino) {
            Err(f) => (Seq::empty(), Some(f)),
            Ok(inode) => {
                let item = (item_of(sb, path, inode), inode);
                if !inode.is_dir() {
                    let rest = walked(sb, img, todo.skip(1), visited);
                    (seq![item] + rest.0, rest.1)
                } else if visited.contains(inode.ino) {
                    (seq![item], Some(reached_twice(inode.ino)))
                } else {
                    match children_of(sb, img, inode) {
                        Err(f) => (seq![item], Some(f)),
                        Ok(entries) => {
                            proof {
                                lemma_numbers_are_few(visited);
                                lemma_numbers_are_few(visited.insert(inode.ino));
                            }
                            let rest = walked(
                                sb,
                                img,
                                queued(path, entries) + todo.skip(1),
                                visited.insert(inode.ino),
                            );
                            (seq![item] + rest.0, rest.1)
                        },
                    }
                }
            },
        }
    }
}

/// The complaint that a directory is in two places.
pub open spec fn reached_twice(ino: u64) -> Fault {
    Fault::Corrupt(crate::error::around("directory "@, ino as nat, " reached twice"@))
}

/// What walking the directory at a path comes to.
#[verifier::opaque]
pub open spec fn walk_of(sb: Superblock, img: Seq<u8>, root: Seq<char>) -> (
    Seq<(WalkView, InodeView)>,
    Option<Fault>,
) {
    match inode_at(sb, img, root, true) {
        Err(f) => (Seq::empty(), Some(f)),
        Ok(top) => if !top.is_dir() {
            (Seq::empty(), Some(Fault::NotADirectory(root)))
        } else {
            match children_of(sb, img, top) {
                Err(f) => (Seq::empty(), Some(f)),
                Ok(entries) => walked(sb, img, queued(Seq::empty(), entries), set![top.ino]),
            }
        },
    }
}

/// What walking the directory at a path finds, if nothing stops it short.
pub open spec fn tree_of(sb: Superblock, img: Seq<u8>, root: Seq<char>) -> core::result::Result<
    Seq<WalkView>,
    Fault,
> {
    match walk_of(sb, img, root) {
        (items, None) => Ok(Seq::new(items.len(), |i: int| items[i].0)),
        (_, Some(f)) => Err(f),
    }
}

proof fn lemma_walked(sb: Superblock, img: Seq<u8>, todo: Seq<(Seq<u8>, u64)>, visited: Set<u64>)
    ensures
        ({
            let (items, end) = walked(sb, img, todo, visited);
            &&& forall|i: int|
                0 <= i < items.len() ==> (#[trigger] items[i]).0 == item_of(sb, items[i].0.raw_path, items[i].1)
                    && inode_from(sb, img, items[i].1.ino) == Ok::<InodeView, Fault>(items[i].1)
            &&& end is None ==> forall|i: int|
                0 <= i < items.len() && (#[trigger] items[i]).1.is_dir() ==> !visited.contains(items[i].1.ino)
            &&& end is None ==> forall|i: int, j: int|
                0 <= i < j < items.len() && (#[trigger] items[i]).1.is_dir() && (#[trigger] items[j]).1.is_dir()
                    ==> items[i].1.ino != items[j].1.ino
        }),
    decreases WRAP - visited.len(), todo.len(),
{
    reveal(walked);
    if todo.len() > 0 {
        let (path, ino) = todo[0];
        if let Ok(inode) = inode_from(sb, img, ino) {
            lemma_inode_from(sb, img, ino);
            let (items, end) = walked(sb, img, todo, visited);
            if !inode.is_dir() {
                lemma_walked(sb, img, todo.skip(1), visited);
                let rest = walked(sb, img, todo.skip(1), visited).0;
                assert(forall|i: int| 1 <= i < items.len() ==> #[trigger] items[i] == rest[i - 1]);
            } else if !visited.contains(inode.ino) {
                if let Ok(entries) = children_of(sb, img, inode) {
                    let more = queued(path, entries) + todo.skip(1);
                    lemma_numbers_are_few(visited);
                    lemma_numbers_are_few(visited.insert(inode.ino));
                    lemma_walked(sb, img, more, visited.insert(inode.ino));
                    let rest = walked(sb, img, more, visited.insert(inode.ino)).0;
                    assert(forall|i: int| 1 <= i < items.len() ==> #[trigger] items[i] == rest[i - 1]);
                }
            }
        }
    }
}

/// A walk that nothing stops meets no directory twice, nor the one it started
/// from, and what it says of each name is what that name's inode says.
pub proof fn lemma_walk(sb: Superblock, img: Seq<u8>, root: Seq<char>)
    requires
        walk_of(sb, img, root).1 is None,
    ensures
        ({
            let items = walk_of(sb, img, root).0;
            let top = inode_at(sb, img, root, true)->Ok_0;
            &&& inode_at(sb, img, root, true) is Ok
            &&& forall|i: int|
                0 <= i < items.len() ==> (#[trigger] items[i]).0 == item_of(sb, items[i].0.raw_path, items[i].1)
                    && inode_from(sb, img, items[i].1.ino) == Ok::<InodeView, Fault>(items[i].1)
            &&& forall|i: int|
                0 <= i < items.len() && (#[trigger] items[i]).1.is_dir() ==> items[i].1.ino != top.ino
            &&& forall|i: int, j: int|
                0 <= i < j < items.len() && (#[trigger] items[i]).1.is_dir() && (#[trigger] items[j]).1.is_dir()
                    ==> items[i].1.ino != items[j].1.ino
        }),
{
    reveal(walk_of);
    let top = inode_at(sb, img, root, true)->Ok_0;
    let entries = children_of(sb, img, top)->Ok_0;
    lemma_walked(sb, img, queued(Seq::empty(), entries), set![top.ino]);
}

/// Whether a walk meets, from its `from`th item on, inode `ino` at `path`.
pub open spec fn meets(items: Seq<(WalkView, InodeView)>, from: int, path: Seq<u8>, ino: u64) -> bool {
    exists|j: int| from <= j < items.len() && (#[trigger] items[j]).0.raw_path == path && items[j].1.ino == ino
}

/// Whether a walk goes on, after each directory it meets, to all that is in
/// it.
pub open spec fn goes_down(sb: Superblock, img: Seq<u8>, items: Seq<(WalkView, InodeView)>) -> bool {
    forall|i: int|
        0 <= i < items.len() && (#[trigger] items[i]).1.is_dir() ==> goes_into(sb, img, items, i + 1, items[i].0.raw_path, items[i].1)
}

/// Whether a walk meets, from its `from`th item on, all that is in the
/// directory `dir`, whose path is `path`.
pub open spec fn goes_into(
    sb: Superblock,
    img: Seq<u8>,
    items: Seq<(WalkView, InodeView)>,
    from: int,
    path: Seq<u8>,
    dir: InodeView,
) -> bool {
    match children_of(sb, img, dir) {
        Ok(entries) => forall|c: int|
            0 <= c < entries.len() ==> #[trigger] meets(
                items,
                from,
                joined(path, entries[c].raw_name),
                entries[c].inode,
            ),
        Err(_) => false,
    }
}

proof fn lemma_meets_later(
    items: Seq<(WalkView, InodeView)>,
    rest: Seq<(WalkView, InodeView)>,
    from: int,
    path: Seq<u8>,
    ino: u64,
)
    requires
        0 <= from,
        items.len() > 0,
        rest == items.skip(1),
        meets(rest, from, path, ino),
    ensures
        meets(items, from + 1, path, ino),
{
    let j = choose|j: int| from <= j < rest.len() && (#[trigger] rest[j]).0.raw_path == path && rest[j].1.ino == ino;
    assert(items[j + 1] == rest[j]);
}

proof fn lemma_goes_down_later(
    sb: Superblock,
    img: Seq<u8>,
    items: Seq<(WalkView, InodeView)>,
    rest: Seq<(WalkView, InodeView)>,
)
    requires
        items.len() > 0,
        rest == items.skip(1),
        goes_down(sb, img, rest),
        items[0].1.is_dir() ==> goes_into(sb, img, items, 1, items[0].0.raw_path, items[0].1),
    ensures
        goes_down(sb, img, items),
{
    assert forall|i: int| 0 <= i < items.len() && (#[trigger] items[i]).1.is_dir() implies goes_into(
        sb,
        img,
        items,
        i + 1,
        items[i].0.raw_path,
        items[i].1,
    ) by {
        if i > 0 {
            assert(rest[i - 1] == items[i]);
            let path = items[i].0.raw_path;
            let entries = children_of(sb, img, items[i].1)->Ok_0;
            assert forall|c: int| 0 <= c < entries.len() implies #[trigger] meets(
                items,
                i + 1,
                joined(path, entries[c].raw_name),
                entries[c].inode,
            ) by {
                assert(meets(rest, i, joined(path, entries[c].raw_name), entries[c].inode));
                lemma_meets_later(items, rest, i, joined(path, entries[c].raw_name), entries[c].inode);
            }
        }
    }
}

/// What a walk that nothing stops has before it once it has met its next
/// item.
pub open spec fn after_next(sb: Superblock, img: Seq<u8>, todo: Seq<(Seq<u8>, u64)>, inode: InodeView) -> Seq<(Seq<u8>, u64)> {
    if inode.is_dir() {
        queued(todo[0].0, children_of(sb, img, inode)->Ok_0) + todo.skip(1)
    } else {
        todo.skip(1)
    }
}

/// The directories behind a walk once it has met its next item.
pub open spec fn visited_after(visited: Set<u64>, inode: InodeView) -> Set<u64> {
    if inode.is_dir() {
        visited.insert(inode.ino)
    } else {
        visited
    }
}

/// What a walk that nothing stops meets next, and what it then has before it.
#[verifier::rlimit(60)]
pub proof fn lemma_walked_next(
    sb: Superblock,
    img: Seq<u8>,
    todo: Seq<(Seq<u8>, u64)>,
    visited: Set<u64>,
) -> (inode: InodeView)
    requires
        walked(sb, img, todo, visited).1 is None,
        todo.len() > 0,
    ensures
        inode.ino == todo[0].1,
        inode_from(sb, img, inode.ino) == Ok::<InodeView, Fault>(inode),
        inode.is_dir() ==> children_of(sb, img, inode) is Ok && visited_after(visited, inode).len() == visited.len()
            + 1 && visited.len() < WRAP,
        ({
            let items = walked(sb, img, todo, visited).0;
            let rest = walked(sb, img, after_next(sb, img, todo, inode), visited_after(visited, inode));
            &&& items.len() > 0
            &&& items[0].0.raw_path == todo[0].0
            &&& items[0].1 == inode
            &&& rest.0 == items.skip(1)
            &&& rest.1 is None
        }),
{
    reveal(walked);
    let (path, ino) = todo[0];
    let inode = inode_from(sb, img, ino)->Ok_0;
    lemma_inode_from(sb, img, ino);
    lemma_numbers_are_few(visited);
    lemma_numbers_are_few(visited.insert(inode.ino));
    let items = walked(sb, img, todo, visited).0;
    let item = (item_of(sb, path, inode), inode);
    let rest = walked(sb, img, after_next(sb, img, todo, inode), visited_after(visited, inode)).0;
    assert(inode_from(sb, img, ino) is Ok);
    if inode.is_dir() {
        assert(!visited.contains(inode.ino));
        assert(children_of(sb, img, inode) is Ok);
        assert(items == seq![item] + rest);
    } else {
        assert(items == seq![item] + rest);
    }
    assert(rest =~= items.skip(1));
    inode
}

proof fn lemma_walked_goes_down(sb: Superblock, img: Seq<u8>, todo: Seq<(Seq<u8>, u64)>, visited: Set<u64>)
    requires
        walked(sb, img, todo, visited).1 is None,
    ensures
        goes_down(sb, img, walked(sb, img, todo, visited).0),
        forall|k: int|
            0 <= k < todo.len() ==> meets(walked(sb, img, todo, visited).0, 0, (#[trigger] todo[k]).0, todo[k].1),
    decreases WRAP - visited.len(), todo.len(),
{
    let items = walked(sb, img, todo, visited).0;
    if todo.len() == 0 {
        reveal(walked);
    } else {
        let inode = lemma_walked_next(sb, img, todo, visited);
        let path = todo[0].0;
        let more = after_next(sb, img, todo, inode);
        let seen = visited_after(visited, inode);
        let rest = walked(sb, img, more, seen).0;
        lemma_walked_goes_down(sb, img, more, seen);
        assert forall|k: int| 0 <= k < more.len() implies meets(items, 1, (#[trigger] more[k]).0, more[k].1) by {
            assert(meets(rest, 0, more[k].0, more[k].1));
            lemma_meets_later(items, rest, 0, more[k].0, more[k].1);
        }
        if inode.is_dir() {
            let entries = children_of(sb, img, inode)->Ok_0;
            assert forall|c: int| 0 <= c < entries.len() implies #[trigger] meets(
                items,
                1,
                joined(path, entries[c].raw_name),
                entries[c].inode,
            ) by {
                assert(more[c] == (joined(path, entries[c].raw_name), entries[c].inode));
            }
        }
        lemma_goes_down_later(sb, img, items, rest);
        assert forall|k: int| 0 <= k < todo.len() implies meets(items, 0, (#[trigger] todo[k]).0, todo[k].1) by {
            if k == 0 {
                assert(items[0].0.raw_path == path);
            } else {
                let at = more.len() - todo.len() + k;
                assert(more[at] == todo[k]);
                let j = choose|j: int|
                    1 <= j < items.len() && (#[trigger] items[j]).0.raw_path == more[at].0 && items[j].1.ino
                        == more[at].1;
                assert(items[j].0.raw_path == todo[k].0);
            }
        }
    }
}

/// A walk that nothing stops misses nothing: it meets all that is in the
/// directory it started from and, after each directory it meets, all that is
/// in that one.
pub proof fn lemma_walk_misses_nothing(sb: Superblock, img: Seq<u8>, root: Seq<char>)
    requires
        walk_of(sb, img, root).1 is None,
    ensures
        inode_at(sb, img, root, true) is Ok,
        goes_into(sb, img, walk_of(sb, img, root).0, 0, Seq::empty(), inode_at(sb, img, root, true)->Ok_0),
        goes_down(sb, img, walk_of(sb, img, root).0),
{
    reveal(walk_of);
    let top = inode_at(sb, img, root, true)->Ok_0;
    let entries = children_of(sb, img, top)->Ok_0;
    let todo = queued(Seq::empty(), entries);
    lemma_walked_goes_down(sb, img, todo, set![top.ino]);
    let items = walk_of(sb, img, root).0;
    assert forall|c: int| 0 <= c < entries.len() implies #[trigger] meets(
        items,
        0,
        joined(Seq::empty(), entries[c].raw_name),
        entries[c].inode,
    ) by {
        assert(todo[c] == (joined(Seq::empty(), entries[c].raw_name), entries[c].inode));
    }
}

/// What a walk has before it and behind it.
struct Progress {
    /// Paths and inodes still to come, the next one last.
    stack: Vec<(Vec<u8>, u64)>,
    /// The directories met.
    visited: HashSet<u64>,
}

impl Progress {
    /// What the walk still comes to.
    spec fn left(&self, sb: Superblock, img: Seq<u8>) -> (Seq<(WalkView, InodeView)>, Option<Fault>) {
        walked(sb, img, views(self.stack@).reverse(), self.visited@)
    }

    /// Whether the walk, which came to `left`, has just met `item`.
    #[verifier::opaque]
    spec fn just_met(
        &self,
        sb: Superblock,
        img: Seq<u8>,
        left: (Seq<(WalkView, InodeView)>, Option<Fault>),
        item: WalkView,
        inode: InodeView,
    ) -> bool {
        &&& inode_from(sb, img, inode.ino) == Ok::<InodeView, Fault>(inode)
        &&& item == item_of(sb, item.raw_path, inode)
        &&& left == walked(
            sb,
            img,
            seq![(item.raw_path, inode.ino)] + views(self.stack@).reverse(),
            self.visited@,
        )
    }
}

proof fn lemma_nothing_left(p: Progress, sb: Superblock, img: Seq<u8>)
    requires
        p.stack@.len() == 0,
    ensures
        p.left(sb, img) == (Seq::<(WalkView, InodeView)>::empty(), None::<Fault>),
{
    reveal(walked);
    assert(views(p.stack@).reverse() =~= Seq::<(Seq<u8>, u64)>::empty());
}

/// Stack up the entries of the directory whose path is `prefix`.
fn queue(stack: &mut Vec<(Vec<u8>, u64)>, prefix: &[u8], entries: &Vec<Entry>)
    ensures
        views(final(stack)@).reverse() == queued(prefix@, views(entries@).reverse()) + views(old(stack)@).reverse(),
{
    let ghost before = views(stack@);
    let ghost all = queued(prefix@, views(entries@));
    let mut i: usize = 0;
    assert(before + all.subrange(0, 0) =~= before);
    while i < entries.len()
        invariant
            i <= entries@.len(),
            all == queued(prefix@, views(entries@)),
            views(stack@) == before + all.subrange(0, i as int),
        decreases entries@.len() - i,
    {
        let next: (Vec<u8>, u64) = (join(prefix, entries[i].raw_name.as_slice()), entries[i].inode);
        proof {
            lemma_views_push(stack@, next);
            assert(next@ == all[i as int]);
            assert(all.subrange(0, i + 1) =~= all.subrange(0, i as int).push(all[i as int]));
            assert(views(stack@).push(next@) =~= before + all.subrange(0, i + 1));
        }
        stack.push(next);
        i += 1;
    }
    proof {
        assert(all.subrange(0, i as int) =~= all);
        assert((before + all).reverse() =~= all.reverse() + before.reverse());
        assert(all.reverse() =~= queued(prefix@, views(entries@).reverse()));
    }
}

impl<D: BlockDevice> Volume<D> {
    /// The entries of a directory, the last in byte order first.
    fn sorted_children(&self, dir: &Inode) -> (r: Result<Vec<Entry>>)
        ensures
            settled(
                &self.dev(),
                match r {
                    Ok(v) => Ok(views(v@).reverse()),
                    Err(e) => Err(e@),
                },
                children_of(self.sb(), self.img(), dir@),
            ),
    {
        let names = self.read_dir_inode(dir)?;
        proof {
            lemma_views_of_arranged(names@, rank::<Entry>(), descending());
        }
        Ok(sorted(names))
    }

    /// Start walking the directory at a path.
    fn set_out(&self, root: &str) -> (r: Result<Progress>)
        ensures
            match r {
                Ok(p) => p.left(self.sb(), self.img()) == walk_of(self.sb(), self.img(), root@),
                Err(e) => self.dev().may_fail(e@) || walk_of(self.sb(), self.img(), root@) == (
                    Seq::<(WalkView, InodeView)>::empty(),
                    Some(e@),
                ),
            },
    {
        broadcast use vstd::std_specs::hash::group_hash_axioms;

        reveal(walk_of);
        let top = self.inode_by_path(root, true)?;
        if !top.is_dir() {
            return Err(Error::NotADirectory(String::from_str(root)));
        }
        let children = self.sorted_children(&top)?;
        let mut visited: HashSet<u64> = HashSet::new();
        visited.insert(top.ino);
        let mut stack: Vec<(Vec<u8>, u64)> = Vec::new();
        let here: Vec<u8> = Vec::new();
        queue(&mut stack, here.as_slice(), &children);
        proof {
            assert(here@ =~= Seq::<u8>::empty());
            assert(visited@ =~= set![top.ino]);
            let entries = views(children@).reverse();
            assert(views(stack@).reverse() =~= queued(Seq::empty(), entries));
        }
        Ok(Progress { stack, visited })
    }

    /// The next name of a walk and its inode. There must be one.
    fn step(&self, p: &mut Progress) -> (r: Result<(WalkEntry, Inode)>)
        requires
            old(p).stack@.len() > 0,
        ensures
            final(p).visited@ == old(p).visited@,
            final(p).stack@.len() == old(p).stack@.len() - 1,
            ({
                let left = old(p).left(self.sb(), self.img());
                match r {
                    Ok((item, inode)) => left.0.len() > 0 && left.0[0] == (item@, inode@) && final(p).just_met(
                        self.sb(),
                        self.img(),
                        left,
                        item@,
                        inode@,
                    ),
                    Err(e) => self.dev().may_fail(e@) || (left.0.len() == 0 && left.1 == Some(e@)),
                }
            }),
    {
        reveal(walked);
        reveal(Progress::just_met);
        let ghost todo = views(p.stack@).reverse();
        let (raw_path, ino): (Vec<u8>, u64) = match p.stack.pop() {
            Some(next) => next,
            None => (Vec::new(), 0),
        };
        proof {
            assert(todo[0] == (raw_path@, ino));
            assert(views(p.stack@).reverse() =~= todo.skip(1));
            assert(todo =~= seq![(raw_path@, ino)] + todo.skip(1));
        }
        let inode = self.inode(ino)?;
        let item = WalkEntry { path: lossy(raw_path.as_slice()), raw_path, stat: self.stat_inode(&inode) };
        proof {
            lemma_inode_from(self.sb(), self.img(), ino);
        }
        Ok((item, inode))
    }

    /// Go into the directory just met, if it is one.
    fn enter(
        &self,
        p: &mut Progress,
        item: &WalkEntry,
        inode: &Inode,
        Ghost(left): Ghost<(Seq<(WalkView, InodeView)>, Option<Fault>)>,
    ) -> (r: Result<()>)
        requires
            old(p).just_met(self.sb(), self.img(), left, item@, inode@),
        ensures
            match r {
                Ok(_) => {
                    &&& final(p).left(self.sb(), self.img()) == (left.0.skip(1), left.1)
                    &&& final(p).visited@.len() == old(p).visited@.len() + 1 || *final(p) == *old(p)
                    &&& final(p).visited@.len() <= WRAP
                },
                Err(e) => self.dev().may_fail(e@) || (left.0.len() == 1 && left.1 == Some(e@)),
            },
    {
        broadcast use vstd::std_specs::hash::group_hash_axioms;

        reveal(walked);
        reveal(Progress::just_met);
        let ghost visited = p.visited@;
        let ghost rest = views(p.stack@).reverse();
        let ghost todo = seq![(item@.raw_path, inode@.ino)] + rest;
        proof {
            assert(todo.skip(1) =~= rest);
            lemma_numbers_are_few(visited);
            lemma_numbers_are_few(visited.insert(inode@.ino));
        }
        if inode.is_dir() {
            if !p.visited.insert(inode.ino) {
                return Err(Error::Corrupt(numbered("directory ", inode.ino, " reached twice")));
            }
            let children = self.sorted_children(inode)?;
            queue(&mut p.stack, item.raw_path.as_slice(), &children);
        }
        assert(left.0.skip(1) =~= p.left(self.sb(), self.img()).0);
        Ok(())
    }

    /// Every name under a directory, depth first in sorted order, the
    /// directory itself excluded. Symlinks are listed, not followed.
    pub fn walk(&self, root: &str) -> (r: Result<Vec<WalkEntry>>)
        ensures
            settled(&self.dev(), list_outcome(r), tree_of(self.sb(), self.img(), root@)),
    {
        let mut p = self.set_out(root)?;
        let mut out: Vec<WalkEntry> = Vec::new();
        let ghost w = walk_of(self.sb(), self.img(), root@);
        assert(w.0.skip(0) =~= w.0);
        while p.stack.len() > 0
            invariant
                w == walk_of(self.sb(), self.img(), root@),
                out@.len() <= w.0.len(),
                forall|i: int| 0 <= i < out@.len() ==> #[trigger] out@[i]@ == w.0[i].0,
                p.left(self.sb(), self.img()) == (w.0.skip(out@.len() as int), w.1),
            decreases WRAP - p.visited@.len(), p.stack@.len(),
        {
            let ghost left = p.left(self.sb(), self.img());
            proof {
                lemma_numbers_are_few(p.visited@);
            }
            let (item, inode) = self.step(&mut p)?;
            self.enter(&mut p, &item, &inode, Ghost(left))?;
            proof {
                assert(left.0[0] == w.0[out@.len() as int]);
                assert(left.0.skip(1) =~= w.0.skip((out@.len() + 1) as int));
            }
            out.push(item);
        }
        proof {
            lemma_nothing_left(p, self.sb(), self.img());
            assert(w.0.skip(out@.len() as int).len() == 0);
            assert(views(out@) =~= Seq::new(w.0.len(), |i: int| w.0[i].0));
        }
        Ok(out)
    }

    /// Walk like [`Volume::walk`], handing each name and its inode to `f`
    /// as it is found rather than collecting them.
    ///
    /// Nothing is asked of `f` but to take the names that the walk finds, so
    /// nothing else is handed to it.
    pub fn walk_each<F>(&self, root: &str, f: F) -> (r: Result<()>) where F: FnMut(&WalkEntry, &Inode) -> Result<()>
        requires
            takes_all(f, walk_of(self.sb(), self.img(), root@).0),
        ensures
            ({
                let (items, end) = walk_of(self.sb(), self.img(), root@);
                match r {
                    Ok(_) => end is None && accepted(f, items, items.len() as int),
                    Err(x) => self.dev().may_fail(x@) || (end == Some(x@) && accepted(f, items, items.len() as int))
                        || exists|k: int| 0 <= k < items.len() && accepted(f, items, k) && #[trigger] refused(
                        f,
                        items[k],
                        x,
                    ),
                }
            }),
    {
        let mut visit = f;
        let mut p = self.set_out(root)?;
        let ghost w = walk_of(self.sb(), self.img(), root@);
        let ghost mut n: int = 0;
        assert(w.0.skip(0) =~= w.0);
        while p.stack.len() > 0
            invariant
                visit == f,
                takes_all(f, w.0),
                w == walk_of(self.sb(), self.img(), root@),
                0 <= n <= w.0.len(),
                accepted(f, w.0, n),
                p.left(self.sb(), self.img()) == (w.0.skip(n), w.1),
            decreases WRAP - p.visited@.len(), p.stack@.len(),
        {
            let ghost left = p.left(self.sb(), self.img());
            proof {
                lemma_numbers_are_few(p.visited@);
            }
            let (item, inode) = self.step(&mut p)?;
            assert(left.0[0] == w.0[n]);
            let answer: Result<()> = visit(&item, &inode);
            match answer {
                Ok(u) => {
                    assert(answer == Ok::<(), Error>(()));
                },
                Err(x) => {
                    assert(refused(f, w.0[n], x));
                    return Err(x);
                },
            }
            proof {
                assert(taken(f, w.0[n]));
                n = n + 1;
            }
            self.enter(&mut p, &item, &inode, Ghost(left))?;
            assert(left.0.skip(1) =~= w.0.skip(n));
        }
        proof {
            lemma_nothing_left(p, self.sb(), self.img());
            assert(w.0.skip(n).len() == 0);
        }
        Ok(())
    }
}

/// Whether `f` can be handed each of `items`, a name and its inode.
pub open spec fn takes_all<F>(f: F, items: Seq<(WalkView, InodeView)>) -> bool where
    F: FnMut(&WalkEntry, &Inode) -> Result<()>,
 {
    forall|e: &WalkEntry, n: &Inode, k: int|
        0 <= k < items.len() && e@ == items[k].0 && n@ == (#[trigger] items[k]).1 ==> #[trigger] call_requires(f, (e, n))
}

/// Whether `f` may take a name and its inode.
pub open spec fn taken<F>(f: F, item: (WalkView, InodeView)) -> bool where
    F: FnMut(&WalkEntry, &Inode) -> Result<()>,
 {
    exists|e: WalkEntry, n: Inode|
        e@ == item.0 && n@ == item.1 && #[trigger] call_ensures(f, (&e, &n), Ok::<(), Error>(()))
}

/// Whether `f` may refuse a name and its inode with `x`.
pub open spec fn refused<F>(f: F, item: (WalkView, InodeView), x: Error) -> bool where
    F: FnMut(&WalkEntry, &Inode) -> Result<()>,
 {
    exists|e: WalkEntry, n: Inode|
        e@ == item.0 && n@ == item.1 && #[trigger] call_ensures(f, (&e, &n), Err::<(), Error>(x))
}

/// Whether `f` took the first `n` of `items`.
pub open spec fn accepted<F>(f: F, items: Seq<(WalkView, InodeView)>, n: int) -> bool where
    F: FnMut(&WalkEntry, &Inode) -> Result<()>,
 {
    forall|i: int| 0 <= i < n ==> taken(f, #[trigger] items[i])
}

} // verus!
