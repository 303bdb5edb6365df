//! How paths lead: a path through a name leads on from what the name is, and a
//! symbolic link stands for its target.

use vstd::prelude::*;

use crate::error::Fault;
use crate::inode::{mode, InodeView};
use crate::sb::Superblock;
use crate::text::lossy_text;
use crate::volume::agreement::{is_plain, lemma_next_slash_is_slash, lemma_no_slash_from};
use crate::volume::blocks::inode_from;
use crate::volume::links::target_of;
use crate::volume::names::{child_of, dot};
use crate::volume::paths::{
    components, components_from, kept, led, lemma_led_however_shown, lemma_led_with_more_left, lemma_next_slash,
    next_slash, resolved, MAX_SYMLINKS, SLASH,
};

verus! {

/// The path `a`, a slash and the path `b`.
pub open spec fn along(a: Seq<u8>, b: Seq<u8>) -> Seq<u8> {
    a.push(SLASH) + b
}

proof fn lemma_next_slash_after(front: Seq<u8>, b: Seq<u8>, k: int)
    requires
        0 <= k <= b.len(),
    ensures
        next_slash(front + b, front.len() + k) == front.len() + next_slash(b, k),
    decreases b.len() - k,
{
    if k < b.len() && b[k] != SLASH {
        lemma_next_slash_after(front, b, k + 1);
    }
}

proof fn lemma_components_after(front: Seq<u8>, b: Seq<u8>, k: int)
    requires
        0 <= k,
    ensures
        components_from(front + b, front.len() + k) == components_from(b, k),
    decreases b.len() + 1 - k,
{
    let whole = front + b;
    let n = front.len() as int;
    if k <= b.len() {
        lemma_next_slash_after(front, b, k);
        lemma_next_slash(b, k);
        let j = next_slash(b, k);
        assert(whole.subrange(n + k, n + j) =~= b.subrange(k, j));
        lemma_components_after(front, b, j + 1);
    }
}

proof fn lemma_components_along_from(a: Seq<u8>, b: Seq<u8>, i: int)
    requires
        0 <= i <= a.len(),
    ensures
        components_from(along(a, b), i) == components_from(a, i) + components(b),
    decreases a.len() - i,
{
    let whole = along(a, b);
    lemma_next_slash(a, i);
    let j = next_slash(a, i);
    assert forall|k: int| i <= k < j implies whole[k] != SLASH by {
        assert(whole[k] == a[k]);
    }
    assert(whole[j] == SLASH) by {
        if j < a.len() {
            lemma_next_slash_is_slash(a, i);
            assert(whole[j] == a[j]);
        }
    }
    lemma_no_slash_from(whole, i, j);
    assert(whole.subrange(i, j) =~= a.subrange(i, j));
    let piece = kept(a.subrange(i, j));
    if j < a.len() {
        lemma_components_along_from(a, b, j + 1);
        let rest = components_from(a, j + 1);
        assert(piece + (rest + components(b)) =~= (piece + rest) + components(b));
    } else {
        lemma_components_after(a.push(SLASH), b, 0);
        assert(components_from(a, j + 1) =~= Seq::<Seq<u8>>::empty());
        assert(piece + components(b) =~= (piece + Seq::<Seq<u8>>::empty()) + components(b));
    }
}

/// What is on either side of a slash is split by itself.
pub proof fn lemma_components_along(a: Seq<u8>, b: Seq<u8>)
    ensures
        components(along(a, b)) == components(a) + components(b),
{
    lemma_components_along_from(a, b, 0);
}

/// A path without a slash is its only component, unless it is empty or `.`,
/// which are none.
pub proof fn lemma_components_without_slash(name: Seq<u8>)
    requires
        !name.contains(SLASH),
    ensures
        components(name) == if name.len() == 0 || name == seq![46u8] {
            Seq::empty()
        } else {
            seq![name]
        },
{
    let end = name.len() as int;
    assert(dot() =~= seq![46u8]);
    assert forall|k: int| 0 <= k < end implies name[k] != SLASH by {
        assert(name.contains(name[k]));
    }
    lemma_no_slash_from(name, 0, end);
    assert(name.subrange(0, end) =~= name);
    assert(components_from(name, end + 1) =~= Seq::<Seq<u8>>::empty());
    assert(components(name) =~= kept(name));
}

/// How many links are followed on the way where components lead.
spec fn links_on_the_way(sb: Superblock, img: Seq<u8>, cur: u64, comps: Seq<Seq<u8>>, links: int) -> int
    decreases MAX_SYMLINKS - links, comps.len(),
{
    if comps.len() == 0 {
        0
    } else {
        let dir = inode_from(sb, img, cur)->Ok_0;
        let child = child_of(sb, img, dir, comps[0])->Ok_0->Some_0;
        let inode = inode_from(sb, img, child)->Ok_0;
        if inode.file_type() == mode::IFLNK {
            if links >= MAX_SYMLINKS {
                0
            } else {
                let target = target_of(sb, img, inode)->Ok_0;
                let from = if target.len() > 0 && target[0] == SLASH {
                    sb.root_ino
                } else {
                    cur
                };
                1 + links_on_the_way(sb, img, from, components(target) + comps.skip(1), links + 1)
            }
        } else {
            links_on_the_way(sb, img, child, comps.skip(1), links)
        }
    }
}

/// Where components lead, more of them lead on.
#[verifier::rlimit(60)]
proof fn lemma_led_on(
    sb: Superblock,
    img: Seq<u8>,
    shown: Seq<char>,
    text: Seq<char>,
    follow: bool,
    cur: u64,
    comps: Seq<Seq<u8>>,
    rest: Seq<Seq<u8>>,
    links: int,
)
    requires
        links <= MAX_SYMLINKS,
        led(sb, img, shown, true, cur, comps, links) is Ok,
        rest.len() > 0,
    ensures
        0 <= links_on_the_way(sb, img, cur, comps, links),
        links + links_on_the_way(sb, img, cur, comps, links) <= MAX_SYMLINKS,
        led(sb, img, text, follow, cur, comps + rest, links) == led(
            sb,
            img,
            text,
            follow,
            led(sb, img, shown, true, cur, comps, links)->Ok_0,
            rest,
            links + links_on_the_way(sb, img, cur, comps, links),
        ),
    decreases MAX_SYMLINKS - links, comps.len(),
{
    let all = comps + rest;
    if comps.len() == 0 {
        assert(all =~= rest);
    } else {
        let dir = inode_from(sb, img, cur)->Ok_0;
        let child = child_of(sb, img, dir, comps[0])->Ok_0->Some_0;
        let inode = inode_from(sb, img, child)->Ok_0;
        assert(all[0] == comps[0]);
        assert(all.skip(1) =~= comps.skip(1) + rest);
        if inode.file_type() == mode::IFLNK {
            let target = target_of(sb, img, inode)->Ok_0;
            let from = if target.len() > 0 && target[0] == SLASH {
                sb.root_ino
            } else {
                cur
            };
            let next = components(target) + comps.skip(1);
            assert(components(target) + all.skip(1) =~= next + rest);
            lemma_led_on(sb, img, shown, text, follow, from, next, rest, links + 1);
        } else {
            lemma_led_on(sb, img, shown, text, follow, child, comps.skip(1), rest, links);
        }
    }
}

/// With one link less to follow, a path leads to the same, or to the complaint
/// that there are too many links.
proof fn lemma_led_with_one_less(
    sb: Superblock,
    img: Seq<u8>,
    shown: Seq<char>,
    follow: bool,
    cur: u64,
    comps: Seq<Seq<u8>>,
    links: int,
    more: int,
)
    requires
        links <= more <= MAX_SYMLINKS,
        led(sb, img, shown, follow, cur, comps, links) is Ok,
    ensures
        led(sb, img, shown, follow, cur, comps, more) == led(sb, img, shown, follow, cur, comps, links) || led(
            sb,
            img,
            shown,
            follow,
            cur,
            comps,
            more,
        ) == Err::<u64, Fault>(Fault::SymlinkLoop(shown)),
    decreases MAX_SYMLINKS - more, comps.len(),
{
    if comps.len() > 0 {
        let dir = inode_from(sb, img, cur)->Ok_0;
        let child = child_of(sb, img, dir, comps[0])->Ok_0->Some_0;
        if comps.len() > 1 || follow {
            let inode = inode_from(sb, img, child)->Ok_0;
            if inode.file_type() == mode::IFLNK {
                let target = target_of(sb, img, inode)->Ok_0;
                let from = if target.len() > 0 && target[0] == SLASH {
                    sb.root_ino
                } else {
                    cur
                };
                let next = components(target) + comps.skip(1);
                if more < MAX_SYMLINKS {
                    lemma_led_with_one_less(sb, img, shown, follow, from, next, links + 1, more + 1);
                }
            } else {
                lemma_led_with_one_less(sb, img, shown, follow, child, comps.skip(1), links, more);
            }
        }
    }
}

/// A symbolic link stands for its target, in the middle of a path as at its
/// end: `p/n/r`, where `n` is a link in the directory that `p` leads to, leads
/// where `p/t/r` does if its target `t` is relative, and where `t/r` does if it
/// is absolute. Only that one link more is counted.
pub proof fn lemma_link_stands_for_target(
    sb: Superblock,
    img: Seq<u8>,
    p: Seq<u8>,
    n: Seq<u8>,
    t: Seq<u8>,
    r: Seq<u8>,
    follow: bool,
    dir: InodeView,
    link: InodeView,
)
    requires
        resolved(sb, img, p, true) == Ok::<u64, Fault>(dir.ino),
        inode_from(sb, img, dir.ino) == Ok::<InodeView, Fault>(dir),
        dir.is_dir(),
        is_plain(n),
        n != dot(),
        child_of(sb, img, dir, n) == Ok::<Option<u64>, Fault>(Some(link.ino)),
        inode_from(sb, img, link.ino) == Ok::<InodeView, Fault>(link),
        link.file_type() == mode::IFLNK,
        target_of(sb, img, link) == Ok::<Seq<u8>, Fault>(t),
        t.len() > 0,
        follow || components(r).len() > 0,
    ensures
        ({
            let through = along(along(p, n), r);
            let instead = if t[0] == SLASH {
                along(t, r)
            } else {
                along(along(p, t), r)
            };
            let a = resolved(sb, img, through, follow);
            let b = resolved(sb, img, instead, follow);
            &&& a is Ok ==> b == a
            &&& b is Ok ==> a == b || a == Err::<u64, Fault>(Fault::SymlinkLoop(lossy_text(through)))
        }),
{
    let through = along(along(p, n), r);
    let instead = if t[0] == SLASH {
        along(t, r)
    } else {
        along(along(p, t), r)
    };
    let (pc, tc, rc) = (components(p), components(t), components(r));
    lemma_components_along(along(p, n), r);
    lemma_components_along(p, n);
    lemma_components_along(along(p, t), r);
    lemma_components_along(p, t);
    lemma_components_along(t, r);
    assert(dot() =~= seq![46u8]);
    lemma_components_without_slash(n);
    let root = sb.root_ino;
    let shown = lossy_text(p);
    let used = links_on_the_way(sb, img, root, pc, 0);
    let rest = seq![n] + rc;
    assert(components(through) =~= pc + rest);
    let a_text = lossy_text(through);
    let b_text = lossy_text(instead);
    lemma_led_on(sb, img, shown, a_text, follow, root, pc, rest, 0);
    assert(resolved(sb, img, through, follow) == led(sb, img, a_text, follow, dir.ino, rest, used));
    assert(rest[0] == n);
    assert(rest.skip(1) =~= rc);
    let tr = tc + rc;
    let from = if t[0] == SLASH {
        root
    } else {
        dir.ino
    };
    let counted = if t[0] == SLASH {
        0
    } else {
        used
    };
    let a = resolved(sb, img, through, follow);
    let b = resolved(sb, img, instead, follow);
    if t[0] == SLASH {
        assert(b == led(sb, img, b_text, follow, from, tr, counted));
    } else {
        assert(components(instead) =~= pc + tr);
        if tr.len() == 0 {
            assert(pc + tr =~= pc);
            lemma_led_however_shown(sb, img, shown, b_text, true, root, pc, 0);
            assert(b == Ok::<u64, Fault>(dir.ino));
        } else {
            lemma_led_on(sb, img, shown, b_text, follow, root, pc, tr, 0);
        }
        assert(b == led(sb, img, b_text, follow, from, tr, counted));
    }
    lemma_led_however_shown(sb, img, a_text, b_text, follow, from, tr, counted);
    if used < MAX_SYMLINKS {
        assert(a == led(sb, img, a_text, follow, from, tr, used + 1));
        if a is Ok {
            lemma_led_with_more_left(sb, img, a_text, follow, from, tr, used + 1, counted);
        }
        if b is Ok {
            lemma_led_with_one_less(sb, img, a_text, follow, from, tr, counted, used + 1);
        }
    }
}

/// What `found`, which a directory has for a name, leads to.
pub open spec fn led_to(
    sb: Superblock,
    img: Seq<u8>,
    shown: Seq<char>,
    follow: bool,
    found: core::result::Result<Option<u64>, Fault>,
    got: core::result::Result<u64, Fault>,
) -> bool {
    match found {
        Err(f) => got == Err::<u64, Fault>(f),
        Ok(None) => got == Err::<u64, Fault>(Fault::NotFound(shown)),
        Ok(Some(child)) => if !follow {
            got == Ok::<u64, Fault>(child)
        } else {
            match inode_from(sb, img, child) {
                Err(f) => got == Err::<u64, Fault>(f),
                Ok(inode) => inode.file_type() != mode::IFLNK ==> got == Ok::<u64, Fault>(child),
            }
        },
    }
}

proof fn lemma_last_name(
    sb: Superblock,
    img: Seq<u8>,
    shown: Seq<char>,
    follow: bool,
    dir: InodeView,
    n: Seq<u8>,
    links: int,
    found: core::result::Result<Option<u64>, Fault>,
)
    requires
        inode_from(sb, img, dir.ino) == Ok::<InodeView, Fault>(dir),
        dir.is_dir(),
        child_of(sb, img, dir, n) == found,
    ensures
        led_to(sb, img, shown, follow, found, led(sb, img, shown, follow, dir.ino, seq![n], links)),
{
    let comps = seq![n];
    assert(comps[0] == n);
    assert(comps.skip(1) =~= Seq::<Seq<u8>>::empty());
    if let Ok(Some(child)) = found {
        assert(led(sb, img, shown, follow, child, comps.skip(1), links) == Ok::<u64, Fault>(child));
    }
}

/// What a path into a directory leads to: the inode the directory has for the
/// name, unless that is a link that is to be followed; nothing where the
/// directory does not have the name; and nothing where it is no directory.
pub proof fn lemma_name_leads_to_child(sb: Superblock, img: Seq<u8>, p: Seq<u8>, n: Seq<u8>, follow: bool, dir: InodeView)
    requires
        resolved(sb, img, p, true) == Ok::<u64, Fault>(dir.ino),
        inode_from(sb, img, dir.ino) == Ok::<InodeView, Fault>(dir),
        is_plain(n),
        n != dot(),
    ensures
        dir.is_dir() ==> led_to(
            sb,
            img,
            lossy_text(along(p, n)),
            follow,
            child_of(sb, img, dir, n),
            resolved(sb, img, along(p, n), follow),
        ),
        !dir.is_dir() ==> resolved(sb, img, along(p, n), follow) == Err::<u64, Fault>(
            Fault::NotADirectory(lossy_text(along(p, n))),
        ),
{
    let path = along(p, n);
    lemma_components_along(p, n);
    assert(dot() =~= seq![46u8]);
    lemma_components_without_slash(n);
    let rest = seq![n];
    let text = lossy_text(path);
    let links = links_on_the_way(sb, img, sb.root_ino, components(p), 0);
    assert(components(path) == components(p) + rest);
    lemma_led_on(sb, img, lossy_text(p), text, follow, sb.root_ino, components(p), rest, 0);
    assert(resolved(sb, img, path, follow) == led(sb, img, text, follow, dir.ino, rest, links));
    if dir.is_dir() {
        lemma_last_name(sb, img, text, follow, dir, n, links, child_of(sb, img, dir, n));
    }
}

/// Whether `names` are links in a directory, each to the next, and the last of
/// them to a name that is none.
pub open spec fn is_chain(sb: Superblock, img: Seq<u8>, dir: InodeView, names: Seq<Seq<u8>>, end: InodeView) -> bool {
    &&& names.len() > 0
    &&& forall|i: int|
        0 <= i < names.len() ==> is_plain(#[trigger] names[i]) && names[i] != dot()
    &&& forall|i: int| 0 <= i && i + 1 < names.len() ==> #[trigger] is_link_to_next(sb, img, dir, names, i)
    &&& child_of(sb, img, dir, names.last()) == Ok::<Option<u64>, Fault>(Some(end.ino))
    &&& inode_from(sb, img, end.ino) == Ok::<InodeView, Fault>(end)
    &&& end.file_type() != mode::IFLNK
}

/// Whether `name` is a link in a directory with the target `target`.
pub open spec fn is_link_to(sb: Superblock, img: Seq<u8>, dir: InodeView, name: Seq<u8>, target: Seq<u8>) -> bool {
    match child_of(sb, img, dir, name) {
        Ok(Some(child)) => match inode_from(sb, img, child) {
            Ok(link) => link.file_type() == mode::IFLNK && target_of(sb, img, link) == Ok::<Seq<u8>, Fault>(target),
            Err(_) => false,
        },
        _ => false,
    }
}

/// Whether the name at `i` is a link in a directory to the one after it.
pub open spec fn is_link_to_next(sb: Superblock, img: Seq<u8>, dir: InodeView, names: Seq<Seq<u8>>, i: int) -> bool {
    is_link_to(sb, img, dir, names[i], names[i + 1])
}

/// Following one link in a directory to another name there.
proof fn lemma_one_link(
    sb: Superblock,
    img: Seq<u8>,
    shown: Seq<char>,
    dir: InodeView,
    name: Seq<u8>,
    next: Seq<u8>,
    links: int,
)
    requires
        inode_from(sb, img, dir.ino) == Ok::<InodeView, Fault>(dir),
        dir.is_dir(),
        is_link_to(sb, img, dir, name, next),
        is_plain(next),
        next != dot(),
        links <= 40,
    ensures
        led(sb, img, shown, true, dir.ino, seq![name], links) == if links < 40 {
            led(sb, img, shown, true, dir.ino, seq![next], links + 1)
        } else {
            Err::<u64, Fault>(Fault::SymlinkLoop(shown))
        },
{
    let comps = seq![name];
    assert(comps[0] == name);
    assert(comps.skip(1) =~= Seq::<Seq<u8>>::empty());
    assert(dot() =~= seq![46u8]);
    lemma_components_without_slash(next);
    assert(next[0] != SLASH) by {
        assert(next.contains(next[0]));
    }
    assert(components(next) + comps.skip(1) =~= seq![next]);
}

proof fn lemma_chain_from(
    sb: Superblock,
    img: Seq<u8>,
    shown: Seq<char>,
    dir: InodeView,
    names: Seq<Seq<u8>>,
    end: InodeView,
    i: int,
)
    requires
        inode_from(sb, img, dir.ino) == Ok::<InodeView, Fault>(dir),
        dir.is_dir(),
        is_chain(sb, img, dir, names, end),
        0 <= i < names.len(),
        i <= 40,
    ensures
        led(sb, img, shown, true, dir.ino, seq![names[i]], i) == if names.len() <= 41 {
            Ok::<u64, Fault>(end.ino)
        } else {
            Err::<u64, Fault>(Fault::SymlinkLoop(shown))
        },
    decreases names.len() - i,
{
    if i + 1 < names.len() {
        assert(is_link_to_next(sb, img, dir, names, i));
        lemma_one_link(sb, img, shown, dir, names[i], names[i + 1], i);
        if i < 40 {
            lemma_chain_from(sb, img, shown, dir, names, end, i + 1);
        }
    } else {
        lemma_last_name(sb, img, shown, true, dir, names[i], i, Ok(Some(end.ino)));
    }
}

/// Forty links are followed on one path, and no more.
pub proof fn lemma_forty_links(sb: Superblock, img: Seq<u8>, dir: InodeView, names: Seq<Seq<u8>>, end: InodeView)
    requires
        dir.ino == sb.root_ino,
        inode_from(sb, img, dir.ino) == Ok::<InodeView, Fault>(dir),
        dir.is_dir(),
        is_chain(sb, img, dir, names, end),
    ensures
        resolved(sb, img, names[0], true) == if names.len() - 1 <= 40 {
            Ok::<u64, Fault>(end.ino)
        } else {
            Err::<u64, Fault>(Fault::SymlinkLoop(lossy_text(names[0])))
        },
{
    assert(dot() =~= seq![46u8]);
    lemma_components_without_slash(names[0]);
    lemma_chain_from(sb, img, lossy_text(names[0]), dir, names, end, 0);
}

} // verus!
