//! A stable sort.

use vstd::prelude::*;

use crate::bytes::views;

verus! {

/// Whether `le` compares any two values, and does so transitively.
pub open spec fn is_ranking<A>(le: spec_fn(A, A) -> bool) -> bool {
    &&& forall|a: A, b: A| #[trigger] le(a, b) || le(b, a)
    &&& forall|a: A, b: A, c: A| #[trigger] le(a, b) && #[trigger] le(b, c) ==> le(a, c)
}

/// `s`, which is in order, with `x` put in after everything it does not
/// come before.
pub open spec fn placed<A>(s: Seq<A>, x: A, le: spec_fn(A, A) -> bool) -> Seq<A>
    decreases s.len(),
{
    if s.len() == 0 || le(s.last(), x) {
        s.push(x)
    } else {
        placed(s.drop_last(), x, le).push(s.last())
    }
}

/// `s` in order, what ranks the same staying in the order it came.
pub open spec fn arranged<A>(s: Seq<A>, le: spec_fn(A, A) -> bool) -> Seq<A>
    decreases s.len(),
{
    if s.len() == 0 {
        s
    } else {
        placed(arranged(s.drop_last(), le), s.last(), le)
    }
}

/// Two sequences in order, as one; what ranks the same comes from `s` first.
pub open spec fn merged<A>(s: Seq<A>, t: Seq<A>, le: spec_fn(A, A) -> bool) -> Seq<A>
    decreases s.len() + t.len(),
{
    if s.len() == 0 {
        t
    } else if t.len() == 0 {
        s
    } else if le(s.last(), t.last()) {
        merged(s, t.drop_last(), le).push(t.last())
    } else {
        merged(s.drop_last(), t, le).push(s.last())
    }
}

/// Whether no value ranks below one before it.
pub open spec fn in_order<A>(s: Seq<A>, le: spec_fn(A, A) -> bool) -> bool {
    forall|i: int, j: int| 0 <= i < j < s.len() ==> le(#[trigger] s[i], #[trigger] s[j])
}

proof fn lemma_placed_in_merged<A>(s: Seq<A>, t: Seq<A>, x: A, le: spec_fn(A, A) -> bool)
    requires
        is_ranking(le),
    ensures
        placed(merged(s, t, le), x, le) == merged(s, placed(t, x, le), le),
    decreases s.len() + t.len(),
{
    reveal_with_fuel(merged, 2);
    assert(t.push(x).drop_last() =~= t);
    if s.len() == 0 {
    } else if t.len() == 0 {
        if !le(s.last(), x) {
            lemma_placed_in_merged(s.drop_last(), t, x, le);
        }
        if s.len() == 1 {
            assert(s.drop_last() =~= t);
        }
    } else {
        let a = s.last();
        let b = t.last();
        let whole = merged(s, t, le);
        if le(a, b) {
            assert(whole.drop_last() =~= merged(s, t.drop_last(), le));
            if le(b, x) {
                assert(le(a, x));
            } else {
                lemma_placed_in_merged(s, t.drop_last(), x, le);
                let rest = placed(t.drop_last(), x, le);
                assert(rest.push(b).drop_last() =~= rest);
            }
        } else {
            assert(le(b, a));
            assert(whole.drop_last() =~= merged(s.drop_last(), t, le));
            if le(a, x) {
                assert(le(b, x));
            } else {
                lemma_placed_in_merged(s.drop_last(), t, x, le);
                let rest = placed(t.drop_last(), x, le);
                assert(rest.push(b).drop_last() =~= rest);
            }
        }
    }
}

proof fn lemma_arranged_by_halves<A>(s: Seq<A>, t: Seq<A>, le: spec_fn(A, A) -> bool)
    requires
        is_ranking(le),
    ensures
        arranged(s + t, le) == merged(arranged(s, le), arranged(t, le), le),
    decreases t.len(),
{
    if t.len() == 0 {
        assert(s + t =~= s);
        assert(arranged(t, le) =~= t);
    } else {
        assert((s + t).drop_last() =~= s + t.drop_last());
        lemma_arranged_by_halves(s, t.drop_last(), le);
        lemma_placed_in_merged(arranged(s, le), arranged(t.drop_last(), le), t.last(), le);
    }
}

proof fn lemma_placed_is_in_order<A>(s: Seq<A>, x: A, le: spec_fn(A, A) -> bool)
    requires
        is_ranking(le),
        in_order(s, le),
    ensures
        in_order(placed(s, x, le), le),
        placed(s, x, le).len() == s.len() + 1,
        placed(s, x, le).to_multiset() == s.to_multiset().insert(x),
        forall|i: int| 0 <= i < placed(s, x, le).len() ==> #[trigger] placed(s, x, le)[i] == x || s.contains(placed(s, x, le)[i]),
    decreases s.len(),
{
    broadcast use vstd::seq_lib::group_to_multiset_ensures;

    if s.len() == 0 || le(s.last(), x) {
        assert forall|i: int, j: int| 0 <= i < j < s.push(x).len() implies le(#[trigger] s.push(x)[i], #[trigger] s.push(x)[j]) by {
            if j == s.len() && i < s.len() - 1 {
                assert(le(s[i], s[s.len() - 1]));
            }
        }
    } else {
        let head = s.drop_last();
        lemma_placed_is_in_order(head, x, le);
        let r = placed(head, x, le);
        assert(head.push(s.last()) =~= s);
        assert(le(x, s.last()));
        assert forall|i: int, j: int| 0 <= i < j < r.push(s.last()).len() implies le(#[trigger] r.push(s.last())[i], #[trigger] r.push(s.last())[j]) by {
            if j == r.len() {
                if r[i] != x {
                    let k = choose|k: int| 0 <= k < head.len() && head[k] == r[i];
                    assert(le(s[k], s[s.len() - 1]));
                }
            }
        }
        assert(s.to_multiset() =~= head.to_multiset().insert(s.last()));
        assert(r.push(s.last()).to_multiset() =~= s.to_multiset().insert(x));
        assert forall|i: int| 0 <= i < r.push(s.last()).len() implies #[trigger] r.push(s.last())[i] == x || s.contains(r.push(s.last())[i]) by {
            if i < r.len() {
                if r[i] != x {
                    let k = choose|k: int| 0 <= k < head.len() && head[k] == r[i];
                    assert(s[k] == r[i]);
                }
            } else {
                assert(s[s.len() - 1] == s.last());
            }
        }
    }
}

/// Sorting puts a sequence in order and neither adds nor loses anything.
pub proof fn lemma_arranged_is_in_order<A>(s: Seq<A>, le: spec_fn(A, A) -> bool)
    requires
        is_ranking(le),
    ensures
        in_order(arranged(s, le), le),
        arranged(s, le).to_multiset() == s.to_multiset(),
        arranged(s, le).len() == s.len(),
    decreases s.len(),
{
    broadcast use vstd::seq_lib::group_to_multiset_ensures;

    if s.len() > 0 {
        lemma_arranged_is_in_order(s.drop_last(), le);
        lemma_placed_is_in_order(arranged(s.drop_last(), le), s.last(), le);
        assert(s.drop_last().push(s.last()) =~= s);
    }
}

proof fn lemma_views_of_placed<T: View>(
    s: Seq<T>,
    x: T,
    le: spec_fn(T, T) -> bool,
    le_view: spec_fn(T::V, T::V) -> bool,
)
    requires
        forall|a: T, b: T| #[trigger] le(a, b) == le_view(a@, b@),
    ensures
        views(placed(s, x, le)) == placed(views(s), x@, le_view),
    decreases s.len(),
{
    if s.len() == 0 || le(s.last(), x) {
        assert(views(s.push(x)) =~= views(s).push(x@));
    } else {
        lemma_views_of_placed(s.drop_last(), x, le, le_view);
        assert(views(s.drop_last()) =~= views(s).drop_last());
        let r = placed(s.drop_last(), x, le);
        assert(views(r.push(s.last())) =~= views(r).push(s.last()@));
    }
}

/// Sorting by something that only the views decide sorts the views.
pub proof fn lemma_views_of_arranged<T: View>(
    s: Seq<T>,
    le: spec_fn(T, T) -> bool,
    le_view: spec_fn(T::V, T::V) -> bool,
)
    requires
        forall|a: T, b: T| #[trigger] le(a, b) == le_view(a@, b@),
    ensures
        views(arranged(s, le)) == arranged(views(s), le_view),
    decreases s.len(),
{
    if s.len() > 0 {
        lemma_views_of_arranged(s.drop_last(), le, le_view);
        assert(views(s.drop_last()) =~= views(s).drop_last());
        lemma_views_of_placed(arranged(s.drop_last(), le), s.last(), le, le_view);
    } else {
        assert(views(s) =~= Seq::<T::V>::empty());
    }
}

/// Something that can be sorted.
pub trait Ranked: Sized {
    /// Whether `self` does not come after `other`.
    spec fn ranks_le(self, other: Self) -> bool;

    /// Any two values compare.
    proof fn lemma_total(a: Self, b: Self)
        ensures
            a.ranks_le(b) || b.ranks_le(a),
    ;

    /// Comparing is transitive.
    proof fn lemma_chains(a: Self, b: Self, c: Self)
        requires
            a.ranks_le(b),
            b.ranks_le(c),
        ensures
            a.ranks_le(c),
    ;

    /// Whether `self` does not come after `other`.
    fn not_after(&self, other: &Self) -> (r: bool)
        ensures
            r == self.ranks_le(*other),
    ;
}

/// The order of a [`Ranked`] type.
pub open spec fn rank<T: Ranked>() -> spec_fn(T, T) -> bool {
    |a: T, b: T| a.ranks_le(b)
}

/// The order of a [`Ranked`] type compares any two values, transitively.
pub proof fn lemma_rank_is_ranking<T: Ranked>()
    ensures
        is_ranking(rank::<T>()),
{
    let le = rank::<T>();
    assert forall|a: T, b: T| #[trigger] le(a, b) || le(b, a) by {
        T::lemma_total(a, b);
    }
    assert forall|a: T, b: T, c: T| #[trigger] le(a, b) && #[trigger] le(b, c) implies le(a, c) by {
        T::lemma_chains(a, b, c);
    }
}

/// `v` back to front.
pub fn flipped<T>(v: Vec<T>) -> (r: Vec<T>)
    ensures
        r@ == v@.reverse(),
{
    let mut left = v;
    let mut r: Vec<T> = Vec::new();
    while left.len() > 0
        invariant
            left@.len() + r@.len() == v@.len(),
            left@ == v@.subrange(0, left@.len() as int),
            forall|i: int| 0 <= i < r@.len() ==> r@[i] == v@[v@.len() - 1 - i],
        decreases left@.len(),
    {
        if let Some(x) = left.pop() {
            r.push(x);
        }
    }
    assert(r@ =~= v@.reverse());
    r
}

fn merge<T: Ranked>(s: Vec<T>, t: Vec<T>) -> (r: Vec<T>)
    ensures
        r@ == merged(s@, t@, rank::<T>()),
{
    let mut a = s;
    let mut b = t;
    let mut back: Vec<T> = Vec::new();
    while a.len() > 0 && b.len() > 0
        invariant
            merged(s@, t@, rank::<T>()) == merged(a@, b@, rank::<T>()) + back@.reverse(),
        decreases a@.len() + b@.len(),
    {
        let from_b: bool = a[a.len() - 1].not_after(&b[b.len() - 1]);
        let ghost a0 = a@;
        let ghost b0 = b@;
        let ghost back0 = back@;
        if from_b {
            if let Some(x) = b.pop() {
                back.push(x);
            }
        } else {
            if let Some(x) = a.pop() {
                back.push(x);
            }
        }
        proof {
            let le = rank::<T>();
            assert(le(a0.last(), b0.last()) == from_b);
            assert(b0.drop_last() =~= b0.subrange(0, b0.len() - 1));
            assert(a0.drop_last() =~= a0.subrange(0, a0.len() - 1));
            let x = back@.last();
            assert(back@.reverse() =~= seq![x] + back0.reverse());
            assert(merged(a0, b0, le) =~= merged(a@, b@, le).push(x));
            assert(merged(a@, b@, le).push(x) + back0.reverse() =~= merged(a@, b@, le) + back@.reverse());
        }
    }
    let mut front: Vec<T> = if a.len() > 0 {
        a
    } else {
        b
    };
    let mut rest = flipped(back);
    front.append(&mut rest);
    front
}

/// `v` in order, what ranks the same staying in the order it came.
pub fn sorted<T: Ranked>(v: Vec<T>) -> (r: Vec<T>)
    ensures
        r@ == arranged(v@, rank::<T>()),
    decreases v@.len(),
{
    let mut left = v;
    let n: usize = left.len();
    if n <= 1 {
        proof {
            if n == 1 {
                assert(v@.drop_last() =~= Seq::<T>::empty());
                assert(arranged(v@.drop_last(), rank::<T>()) =~= Seq::<T>::empty());
                assert(Seq::<T>::empty().push(v@.last()) =~= v@);
            }
        }
        return left;
    }
    let right = left.split_off(n / 2);
    proof {
        assert(v@ =~= left@ + right@);
        lemma_rank_is_ranking::<T>();
        lemma_arranged_by_halves(left@, right@, rank::<T>());
    }
    let a = sorted(left);
    let b = sorted(right);
    merge(a, b)
}

} // verus!
