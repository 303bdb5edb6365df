//! How listing, looking up and walking agree.

use vstd::prelude::*;

use crate::arith::WRAP;
use crate::dir::RawName;
use crate::error::Fault;
use crate::inode::{mode, InodeView};
use crate::sb::Superblock;
use crate::text::lossy_text;
use crate::volume::blocks::inode_from;
use crate::volume::links::target_of;
use crate::volume::names::{child_of, dot, dot_dot, entries_of, first_named, lemma_no_dots, listing, names_of};
use crate::volume::paths::{
    components, components_from, inode_at, kept, led, lemma_inode_at, lemma_next_slash, next_slash, resolved,
    MAX_SYMLINKS, SLASH,
};
use crate::volume::walk::{
    after_next, children_of, joined, lemma_children, lemma_walked_next, queued, visited_after, walk_of, walked,
};

verus! {

/// Whether no two of `names` are the same.
pub open spec fn all_differ(names: Seq<RawName>) -> bool {
    forall|i: int, j: int| 0 <= i < j < names.len() ==> (#[trigger] names[i]).name != (#[trigger] names[j]).name
}

proof fn lemma_first_named(names: Seq<RawName>, k: int)
    requires
        0 <= k < names.len(),
    ensures
        first_named(names, names[k].name) is Some,
        all_differ(names) ==> first_named(names, names[k].name) == Some(names[k].ino),
    decreases names.len(),
{
    if k > 0 {
        let rest = names.skip(1);
        lemma_first_named(rest, k - 1);
        assert(rest[k - 1] == names[k]);
        if all_differ(names) {
            assert forall|i: int, j: int| 0 <= i < j < rest.len() implies (#[trigger] rest[i]).name != (
            #[trigger] rest[j]).name by {
                assert(names[i + 1] == rest[i]);
                assert(names[j + 1] == rest[j]);
            }
            assert(names[0].name != names[k].name);
        }
    }
}

/// What a directory gives for a name is the inode of the first of its names that
/// is the same, and nothing just when none is.
pub proof fn lemma_first_name_counts(sb: Superblock, img: Seq<u8>, dir: InodeView, name: Seq<u8>, k: int)
    requires
        names_of(sb, img, dir) is Ok,
        0 <= k <= names_of(sb, img, dir)->Ok_0.len(),
        forall|i: int| 0 <= i < k ==> (#[trigger] names_of(sb, img, dir)->Ok_0[i]).name != name,
    ensures
        ({
            let names = names_of(sb, img, dir)->Ok_0;
            &&& k == names.len() ==> child_of(sb, img, dir, name) == Ok::<Option<u64>, Fault>(None)
            &&& k < names.len() && names[k].name == name ==> child_of(sb, img, dir, name) == Ok::<Option<u64>, Fault>(
                Some(names[k].ino),
            )
        }),
{
    lemma_first_of(names_of(sb, img, dir)->Ok_0, name, k);
}

proof fn lemma_first_of(names: Seq<RawName>, name: Seq<u8>, k: int)
    requires
        0 <= k <= names.len(),
        forall|i: int| 0 <= i < k ==> (#[trigger] names[i]).name != name,
    ensures
        k == names.len() ==> first_named(names, name) is None,
        k < names.len() && names[k].name == name ==> first_named(names, name) == Some(names[k].ino),
    decreases k,
{
    if k > 0 {
        let rest = names.skip(1);
        assert forall|i: int| 0 <= i < k - 1 implies (#[trigger] rest[i]).name != name by {
            assert(rest[i] == names[i + 1]);
        }
        assert(names[0].name != name);
        lemma_first_of(rest, name, k - 1);
    }
}

/// Every name a directory lists can be looked up in it, and where no name is
/// there twice, gives the inode it is listed with.
pub proof fn lemma_listed_is_found(sb: Superblock, img: Seq<u8>, dir: InodeView, i: int)
    requires
        listing(sb, img, dir) is Ok,
        0 <= i < listing(sb, img, dir)->Ok_0.len(),
    ensures
        ({
            let e = listing(sb, img, dir)->Ok_0[i];
            let found = child_of(sb, img, dir, e.raw_name);
            &&& found matches Ok(Some(_))
            &&& all_differ(names_of(sb, img, dir)->Ok_0) ==> found == Ok::<Option<u64>, Fault>(Some(e.inode))
        }),
{
    let names = names_of(sb, img, dir)->Ok_0;
    lemma_no_dots(sb, img, names);
    let e = listing(sb, img, dir)->Ok_0[i];
    let k = choose|k: int| 0 <= k < names.len() && (#[trigger] names[k]).name == e.raw_name && names[k].ino == e.inode;
    lemma_first_named(names, k);
}

proof fn lemma_entries_are_complete(sb: Superblock, img: Seq<u8>, names: Seq<RawName>, k: int)
    requires
        entries_of(sb, img, names) is Ok,
        0 <= k < names.len(),
        names[k].name != dot(),
        names[k].name != dot_dot(),
    ensures
        exists|i: int|
            0 <= i < entries_of(sb, img, names)->Ok_0.len() && (#[trigger] entries_of(sb, img, names)->Ok_0[i]).raw_name
                == names[k].name && entries_of(sb, img, names)->Ok_0[i].inode == names[k].ino,
    decreases names.len(),
{
    let rest = names.skip(1);
    let all = entries_of(sb, img, names)->Ok_0;
    let more = entries_of(sb, img, rest)->Ok_0;
    let shift = all.len() - more.len();
    if k == 0 {
        assert(all[0].raw_name == names[0].name);
    } else {
        lemma_entries_are_complete(sb, img, rest, k - 1);
        assert(rest[k - 1] == names[k]);
        let i = choose|i: int|
            0 <= i < more.len() && (#[trigger] more[i]).raw_name == rest[k - 1].name && more[i].inode == rest[k
                - 1].ino;
        assert(all[i + shift] == more[i]);
    }
}

/// Every name in a directory but `.` and `..` is listed.
pub proof fn lemma_listing_is_complete(sb: Superblock, img: Seq<u8>, dir: InodeView, k: int)
    requires
        listing(sb, img, dir) is Ok,
        0 <= k < names_of(sb, img, dir)->Ok_0.len(),
        names_of(sb, img, dir)->Ok_0[k].name != dot(),
        names_of(sb, img, dir)->Ok_0[k].name != dot_dot(),
    ensures
        exists|i: int|
            0 <= i < listing(sb, img, dir)->Ok_0.len() && (#[trigger] listing(sb, img, dir)->Ok_0[i]).raw_name
                == names_of(sb, img, dir)->Ok_0[k].name && listing(sb, img, dir)->Ok_0[i].inode == names_of(
                sb,
                img,
                dir,
            )->Ok_0[k].ino,
{
    lemma_entries_are_complete(sb, img, names_of(sb, img, dir)->Ok_0, k);
}

/// Whether `name` can stand for itself in a path: not empty and without a
/// slash.
pub open spec fn is_plain(name: Seq<u8>) -> bool {
    name.len() > 0 && !name.contains(SLASH)
}

/// The first `/` is where none comes before it.
pub proof fn lemma_no_slash_from(path: Seq<u8>, i: int, to: int)
    requires
        0 <= i <= to <= path.len(),
        forall|k: int| i <= k < to ==> path[k] != SLASH,
        to == path.len() || path[to] == SLASH,
    ensures
        next_slash(path, i) == to,
    decreases to - i,
{
    if i < to {
        lemma_no_slash_from(path, i + 1, to);
    }
}

/// What is before the end of a prefix is split as in the prefix alone, as long
/// as a slash ends it.
proof fn lemma_components_of_joined(prefix: Seq<u8>, name: Seq<u8>, i: int)
    requires
        is_plain(name),
        name != dot(),
        0 <= i <= prefix.len(),
    ensures
        components_from(prefix.push(SLASH) + name, i) == components_from(prefix, i).push(name),
    decreases prefix.len() - i,
{
    let whole = prefix.push(SLASH) + name;
    lemma_next_slash(prefix, i);
    let j = next_slash(prefix, i);
    assert forall|k: int| i <= k < j implies whole[k] != SLASH by {
        assert(whole[k] == prefix[k]);
    }
    assert(whole[j] == SLASH) by {
        if j < prefix.len() {
            lemma_next_slash_is_slash(prefix, i);
            assert(whole[j] == prefix[j]);
        }
    }
    lemma_no_slash_from(whole, i, j);
    assert(whole.subrange(i, j) =~= prefix.subrange(i, j));
    let piece = kept(prefix.subrange(i, j));
    if j < prefix.len() {
        lemma_components_of_joined(prefix, name, j + 1);
        let rest = components_from(prefix, j + 1);
        assert(piece + rest.push(name) =~= (piece + rest).push(name));
    } else {
        let at = (prefix.len() + 1) as int;
        assert(components_from(prefix, j + 1) =~= Seq::<Seq<u8>>::empty());
        assert(whole.subrange(at, whole.len() as int) =~= name);
        lemma_last_component(whole, at, name);
        assert(piece + seq![name] =~= (piece + Seq::<Seq<u8>>::empty()).push(name));
    }
}

/// What stops a component before the end of a path is a `/`.
pub proof fn lemma_next_slash_is_slash(path: Seq<u8>, i: int)
    requires
        0 <= i <= path.len(),
        next_slash(path, i) < path.len(),
    ensures
        path[next_slash(path, i)] == SLASH,
    decreases path.len() - i,
{
    if i < path.len() && path[i] != SLASH {
        lemma_next_slash_is_slash(path, i + 1);
    }
}

proof fn lemma_last_component(path: Seq<u8>, at: int, name: Seq<u8>)
    requires
        0 <= at <= path.len(),
        path.subrange(at, path.len() as int) == name,
        is_plain(name),
        name != dot(),
    ensures
        components_from(path, at) == seq![name],
{
    let end = path.len() as int;
    assert forall|k: int| at <= k < end implies path[k] != SLASH by {
        assert(name[k - at] == path[k]);
    }
    lemma_no_slash_from(path, at, end);
    assert(components_from(path, end + 1) =~= Seq::<Seq<u8>>::empty());
    assert(kept(name) + Seq::<Seq<u8>>::empty() =~= seq![name]);
}

/// The components of a path in a directory are those of the directory's path
/// and the name.
pub proof fn lemma_joined_components(prefix: Seq<u8>, name: Seq<u8>)
    requires
        is_plain(name),
        name != dot(),
    ensures
        components(joined(prefix, name)) == components(prefix).push(name),
{
    if prefix.len() == 0 {
        lemma_no_slash_from(prefix, 0, 0);
        assert(prefix.subrange(0, 0) =~= Seq::<u8>::empty());
        assert(components_from(prefix, 1) =~= Seq::<Seq<u8>>::empty());
        assert(components(prefix) =~= Seq::<Seq<u8>>::empty());
        assert(name.subrange(0, name.len() as int) =~= name);
        lemma_last_component(name, 0, name);
        assert(Seq::<Seq<u8>>::empty().push(name) =~= seq![name]);
    } else {
        lemma_components_of_joined(prefix, name, 0);
    }
}

/// Where components lead to a directory, one more leads to what the directory
/// has under it.
proof fn lemma_one_more(
    sb: Superblock,
    img: Seq<u8>,
    shown: Seq<char>,
    cur: u64,
    comps: Seq<Seq<u8>>,
    links: int,
    dir: InodeView,
    name: Seq<u8>,
    child: u64,
)
    requires
        links <= MAX_SYMLINKS,
        led(sb, img, shown, false, cur, comps, links) == Ok::<u64, Fault>(dir.ino),
        inode_from(sb, img, dir.ino) == Ok::<InodeView, Fault>(dir),
        dir.is_dir(),
        child_of(sb, img, dir, name) == Ok::<Option<u64>, Fault>(Some(child)),
    ensures
        led(sb, img, shown, false, cur, comps.push(name), links) == Ok::<u64, Fault>(child),
    decreases MAX_SYMLINKS - links, comps.len(),
{
    let longer = comps.push(name);
    assert(mode::IFDIR != mode::IFLNK);
    if comps.len() == 0 {
        assert(longer[0] == name);
    } else {
        assert(longer[0] == comps[0]);
        let here = inode_from(sb, img, cur)->Ok_0;
        let next = child_of(sb, img, here, comps[0])->Ok_0->Some_0;
        assert(longer.skip(1) =~= comps.skip(1).push(name));
        if comps.len() == 1 {
            assert(next == dir.ino);
            assert(comps.skip(1).len() == 0);
            lemma_one_more(sb, img, shown, next, comps.skip(1), links, dir, name, child);
        } else {
            let inode = inode_from(sb, img, next)->Ok_0;
            if inode.file_type() == mode::IFLNK {
                let target = target_of(sb, img, inode)->Ok_0;
                let from = if target.len() > 0 && target[0] == SLASH {
                    sb.root_ino
                } else {
                    cur
                };
                let more = components(target) + comps.skip(1);
                assert(components(target) + longer.skip(1) =~= more.push(name));
                lemma_one_more(sb, img, shown, from, more, links + 1, dir, name, child);
            } else {
                lemma_one_more(sb, img, shown, next, comps.skip(1), links, dir, name, child);
            }
        }
    }
}

/// Whether the names in a directory are all different, and each can stand for
/// itself in a path.
pub open spec fn is_well_named(sb: Superblock, img: Seq<u8>, dir: InodeView) -> bool {
    &&& names_of(sb, img, dir) is Ok
    &&& all_differ(names_of(sb, img, dir)->Ok_0)
    &&& forall|k: int|
        0 <= k < names_of(sb, img, dir)->Ok_0.len() ==> is_plain(
            (#[trigger] names_of(sb, img, dir)->Ok_0[k]).name,
        )
}

/// Whether a path leads from directory `top` to inode `ino`.
pub open spec fn leads(sb: Superblock, img: Seq<u8>, shown: Seq<char>, top: u64, path: Seq<u8>, ino: u64) -> bool {
    led(sb, img, shown, false, top, components(path), 0) == Ok::<u64, Fault>(ino)
}

/// The paths of all that is in a directory lead to it, if the directory's own
/// does.
proof fn lemma_children_are_led_to(
    sb: Superblock,
    img: Seq<u8>,
    shown: Seq<char>,
    top: u64,
    path: Seq<u8>,
    dir: InodeView,
    c: int,
)
    requires
        leads(sb, img, shown, top, path, dir.ino),
        inode_from(sb, img, dir.ino) == Ok::<InodeView, Fault>(dir),
        dir.is_dir(),
        is_well_named(sb, img, dir),
        children_of(sb, img, dir) is Ok,
        0 <= c < children_of(sb, img, dir)->Ok_0.len(),
    ensures
        ({
            let e = children_of(sb, img, dir)->Ok_0[c];
            leads(sb, img, shown, top, joined(path, e.raw_name), e.inode)
        }),
{
    broadcast use vstd::seq_lib::group_to_multiset_ensures;

    let entries = listing(sb, img, dir)->Ok_0;
    let children = children_of(sb, img, dir)->Ok_0;
    let e = children[c];
    lemma_children(sb, img, dir);
    assert(children.contains(e));
    assert(children.to_multiset().count(e) > 0);
    assert(entries.contains(e));
    let i = choose|i: int| 0 <= i < entries.len() && entries[i] == e;
    lemma_listed_is_found(sb, img, dir, i);
    let names = names_of(sb, img, dir)->Ok_0;
    lemma_no_dots(sb, img, names);
    assert(entries[i].raw_name != dot());
    let k = choose|k: int| 0 <= k < names.len() && (#[trigger] names[k]).name == e.raw_name && names[k].ino == e.inode;
    assert(is_plain(names[k].name));
    lemma_joined_components(path, e.raw_name);
    lemma_one_more(sb, img, shown, top, components(path), 0, dir, e.raw_name, e.inode);
}

proof fn lemma_walked_is_led_to(
    sb: Superblock,
    img: Seq<u8>,
    shown: Seq<char>,
    top: u64,
    todo: Seq<(Seq<u8>, u64)>,
    visited: Set<u64>,
)
    requires
        walked(sb, img, todo, visited).1 is None,
        forall|k: int| 0 <= k < todo.len() ==> leads(sb, img, shown, top, (#[trigger] todo[k]).0, todo[k].1),
        forall|i: int|
            0 <= i < walked(sb, img, todo, visited).0.len() && (#[trigger] walked(
                sb,
                img,
                todo,
                visited,
            ).0[i]).1.is_dir() ==> is_well_named(sb, img, walked(sb, img, todo, visited).0[i].1),
    ensures
        forall|i: int|
            0 <= i < walked(sb, img, todo, visited).0.len() ==> leads(
                sb,
                img,
                shown,
                top,
                (#[trigger] walked(sb, img, todo, visited).0[i]).0.raw_path,
                walked(sb, img, todo, visited).0[i].1.ino,
            ),
    decreases WRAP - visited.len(), todo.len(),
{
    let items = walked(sb, img, todo, visited).0;
    if todo.len() == 0 {
        reveal(walked);
    } else {
        let inode = lemma_walked_next(sb, img, todo, visited);
        let path = todo[0].0;
        let more = after_next(sb, img, todo, inode);
        let seen = visited_after(visited, inode);
        let rest = walked(sb, img, more, seen).0;
        assert(leads(sb, img, shown, top, path, inode.ino));
        assert(items[0].1 == inode);
        let fresh = if inode.is_dir() {
            children_of(sb, img, inode)->Ok_0.len() as int
        } else {
            0
        };
        assert forall|k: int| 0 <= k < more.len() implies leads(
            sb,
            img,
            shown,
            top,
            (#[trigger] more[k]).0,
            more[k].1,
        ) by {
            if k < fresh {
                let e = children_of(sb, img, inode)->Ok_0[k];
                assert(more[k] == (joined(path, e.raw_name), e.inode));
                lemma_children_are_led_to(sb, img, shown, top, path, inode, k);
            } else {
                assert(more[k] == todo[k - fresh + 1]);
            }
        }
        assert forall|i: int| 0 <= i < rest.len() && (#[trigger] rest[i]).1.is_dir() implies is_well_named(
            sb,
            img,
            rest[i].1,
        ) by {
            assert(items[i + 1] == rest[i]);
        }
        lemma_walked_is_led_to(sb, img, shown, top, more, seen);
        assert forall|i: int| 0 <= i < items.len() implies leads(
            sb,
            img,
            shown,
            top,
            (#[trigger] items[i]).0.raw_path,
            items[i].1.ino,
        ) by {
            if i > 0 {
                assert(items[i] == rest[i - 1]);
            } else {
                assert(items[0].0.raw_path == path);
            }
        }
    }
}

/// The path a walk gives a name leads to that name from the directory walked,
/// where the names in each directory are different and plain.
pub proof fn lemma_walked_paths_lead_back(sb: Superblock, img: Seq<u8>, root: Seq<char>, shown: Seq<char>, i: int)
    requires
        walk_of(sb, img, root).1 is None,
        0 <= i < walk_of(sb, img, root).0.len(),
        is_well_named(sb, img, inode_at(sb, img, root, true)->Ok_0),
        forall|k: int|
            0 <= k < walk_of(sb, img, root).0.len() && (#[trigger] walk_of(sb, img, root).0[k]).1.is_dir()
                ==> is_well_named(sb, img, walk_of(sb, img, root).0[k].1),
    ensures
        ({
            let top = inode_at(sb, img, root, true)->Ok_0;
            let item = walk_of(sb, img, root).0[i];
            leads(sb, img, shown, top.ino, item.0.raw_path, item.1.ino)
        }),
{
    reveal(walk_of);
    let top = inode_at(sb, img, root, true)->Ok_0;
    let entries = children_of(sb, img, top)->Ok_0;
    let todo = queued(Seq::empty(), entries);
    lemma_inode_at(sb, img, root, true);
    let here = Seq::<u8>::empty();
    assert(leads(sb, img, shown, top.ino, here, top.ino)) by {
        lemma_no_slash_from(here, 0, 0);
        assert(here.subrange(0, 0) =~= Seq::<u8>::empty());
        assert(components_from(here, 1) =~= Seq::<Seq<u8>>::empty());
        assert(components(here) =~= Seq::<Seq<u8>>::empty());
    }
    assert forall|k: int| 0 <= k < todo.len() implies leads(sb, img, shown, top.ino, (#[trigger] todo[k]).0, todo[k].1) by {
        lemma_children_are_led_to(sb, img, shown, top.ino, here, top, k);
    }
    lemma_walked_is_led_to(sb, img, shown, top.ino, todo, set![top.ino]);
}

/// What a walk of the root directory finds is found again by its path, where
/// the names in each directory are different and plain.
pub proof fn lemma_walked_is_found(sb: Superblock, img: Seq<u8>, root: Seq<char>, i: int)
    requires
        walk_of(sb, img, root).1 is None,
        0 <= i < walk_of(sb, img, root).0.len(),
        inode_at(sb, img, root, true)->Ok_0.ino == sb.root_ino,
        is_well_named(sb, img, inode_at(sb, img, root, true)->Ok_0),
        forall|k: int|
            0 <= k < walk_of(sb, img, root).0.len() && (#[trigger] walk_of(sb, img, root).0[k]).1.is_dir()
                ==> is_well_named(sb, img, walk_of(sb, img, root).0[k].1),
    ensures
        ({
            let item = walk_of(sb, img, root).0[i];
            resolved(sb, img, item.0.raw_path, false) == Ok::<u64, Fault>(item.1.ino)
        }),
{
    let path = walk_of(sb, img, root).0[i].0.raw_path;
    lemma_walked_paths_lead_back(sb, img, root, lossy_text(path), i);
}

} // verus!
