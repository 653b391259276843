//! Lists of items with counts, written out: every item as often as its list is counted.

use crate::reducer::{copies, counted, pair_of};
use vstd::multiset::Multiset;
use vstd::prelude::*;
use vstd::seq_lib::{lemma_fold_left_permutation, lemma_multiset_commutative, to_multiset_build};

verus! {

/// A value that can be copied, view for view.
pub trait Duplicate: DeepView + Sized {
    /// A value with the view of this one.
    fn duplicate(&self) -> (r: Self)
        ensures
            r.deep_view() == self.deep_view(),
    ;
}

/// `n` times `x`.
pub open spec fn repeated<V>(x: V, n: nat) -> Seq<V> {
    Seq::new(n, |i: int| x)
}

/// The items of `s` in their order, each `n` times in a row.
pub open spec fn repeat_each<V>(s: Seq<V>, n: nat) -> Seq<V>
    decreases s.len(),
{
    if s.len() == 0 {
        Seq::empty()
    } else {
        repeat_each(s.drop_last(), n) + repeated(s.last(), n)
    }
}

/// The lists one after the other, the items of each list repeated as often
/// as the list is counted.
pub open spec fn expand<V>(lists: Seq<(Seq<V>, usize)>) -> Seq<V>
    decreases lists.len(),
{
    if lists.len() == 0 {
        Seq::empty()
    } else {
        expand(lists.drop_last()) + repeat_each(lists.last().0, lists.last().1 as nat)
    }
}

/// Each item once in a row is the list itself.
pub proof fn lemma_repeat_each_once<V>(s: Seq<V>)
    ensures
        repeat_each(s, 1) == s,
    decreases s.len(),
{
    if s.len() > 0 {
        lemma_repeat_each_once(s.drop_last());
        assert(repeated(s.last(), 1) =~= seq![s.last()]);
        assert(s.drop_last() + seq![s.last()] =~= s);
    }
}

/// Lists put together are written out one after the other.
pub proof fn lemma_expand_concat<V>(a: Seq<(Seq<V>, usize)>, b: Seq<(Seq<V>, usize)>)
    ensures
        expand(a + b) == expand(a) + expand(b),
    decreases b.len(),
{
    if b.len() == 0 {
        assert(a + b =~= a);
        assert(expand(a) + expand(b) =~= expand(a));
    } else {
        lemma_expand_concat(a, b.drop_last());
        assert((a + b).drop_last() =~= a + b.drop_last());
        assert((a + b).last() == b.last());
        let tail = repeat_each(b.last().0, b.last().1 as nat);
        assert((expand(a) + expand(b.drop_last())) + tail =~= expand(a) + (expand(b.drop_last())
            + tail));
    }
}

/// One counted list is written out as its items, each as often as the list is counted.
pub proof fn lemma_expand_one<V>(s: Seq<V>, n: usize)
    ensures
        expand(seq![(s, n)]) == repeat_each(s, n as nat),
{
    let one = seq![(s, n)];
    assert(one.drop_last() =~= Seq::<(Seq<V>, usize)>::empty());
    assert(one.last() == (s, n));
    assert(expand(one) =~= repeat_each(s, n as nat)) by {
        reveal_with_fuel(expand, 2);
    }
}

/// Two lists, each counted once, are written out as the one after the other.
pub proof fn lemma_expand_pair<V>(x: Seq<V>, y: Seq<V>)
    ensures
        expand(pair_of(x, y)) == x + y,
{
    let p = pair_of(x, y);
    lemma_repeat_each_once(x);
    lemma_repeat_each_once(y);
    lemma_expand_one(x, 1);
    assert(p.drop_last() =~= seq![(x, 1usize)]);
    assert(p.last() == (y, 1usize));
}

/// Adds the items of a counted list, written out, to `m`.
pub open spec fn add_written_out<V>() -> spec_fn(Multiset<V>, (Seq<V>, usize)) -> Multiset<V> {
    |m: Multiset<V>, list: (Seq<V>, usize)| m.add(repeat_each(list.0, list.1 as nat).to_multiset())
}

/// The items of lists written out are gathered list by list.
proof fn lemma_expand_gathered<V>(lists: Seq<(Seq<V>, usize)>)
    ensures
        expand(lists).to_multiset() == lists.fold_left(Multiset::empty(), add_written_out()),
    decreases lists.len(),
{
    if lists.len() == 0 {
        expand(lists).to_multiset_ensures();
        assert(expand(lists).to_multiset() =~= Multiset::empty());
    } else {
        lemma_expand_gathered(lists.drop_last());
        lemma_multiset_commutative(
            expand(lists.drop_last()),
            repeat_each(lists.last().0, lists.last().1 as nat),
        );
    }
}

/// Lists that are the same but for their order are written out to the same
/// items, each as often.
pub proof fn lemma_expand_permutation<V>(a: Seq<(Seq<V>, usize)>, b: Seq<(Seq<V>, usize)>)
    requires
        a.to_multiset() == b.to_multiset(),
    ensures
        expand(a).to_multiset() == expand(b).to_multiset(),
{
    let g = add_written_out::<V>();
    assert forall|x: (Seq<V>, usize), y: (Seq<V>, usize), m: Multiset<V>| #[trigger]
        g(g(m, x), y) == g(g(m, y), x) by {
        let mx = repeat_each(x.0, x.1 as nat).to_multiset();
        let my = repeat_each(y.0, y.1 as nat).to_multiset();
        assert(m.add(mx).add(my) =~= m.add(my).add(mx));
    }
    lemma_expand_gathered(a);
    lemma_expand_gathered(b);
    lemma_fold_left_permutation(a, b, g, Multiset::empty());
}

/// Repeating each item once more adds every item of the list once.
proof fn lemma_repeat_each_more<V>(s: Seq<V>, n: nat)
    ensures
        repeat_each(s, n + 1).to_multiset() == repeat_each(s, n).to_multiset().add(
            s.to_multiset(),
        ),
    decreases s.len(),
{
    if s.len() == 0 {
        s.to_multiset_ensures();
        assert(s.to_multiset() =~= Multiset::empty());
        assert(repeat_each(s, n).to_multiset().add(s.to_multiset()) =~= repeat_each(
            s,
            n,
        ).to_multiset());
    } else {
        let front = s.drop_last();
        let x = s.last();
        lemma_repeat_each_more(front, n);
        assert(repeated(x, n + 1) =~= repeated(x, n).push(x));
        assert(s =~= front.push(x));
        to_multiset_build(repeated(x, n), x);
        to_multiset_build(front, x);
        lemma_multiset_commutative(repeat_each(front, n + 1), repeated(x, n + 1));
        lemma_multiset_commutative(repeat_each(front, n), repeated(x, n));
        let rf = repeat_each(front, n).to_multiset();
        let rx = repeated(x, n).to_multiset();
        let mf = front.to_multiset();
        assert(rf.add(mf).add(rx.insert(x)) =~= rf.add(rx).add(mf.insert(x)));
    }
}

/// One list counted `n` times holds what `n` lists counted once hold.
pub proof fn lemma_count_is_copies<V>(s: Seq<V>, n: usize)
    ensures
        expand(counted(s, n)).to_multiset() == expand(copies(s, n as nat)).to_multiset(),
    decreases n,
{
    lemma_expand_one(s, n);
    if n == 0 {
        lemma_repeat_each_none(s);
        assert(copies(s, 0) =~= Seq::<(Seq<V>, usize)>::empty());
    } else {
        let fewer = (n - 1) as usize;
        lemma_count_is_copies(s, fewer);
        lemma_expand_one(s, fewer);
        lemma_repeat_each_more(s, fewer as nat);
        let all = copies(s, n as nat);
        assert(all.drop_last() =~= copies(s, fewer as nat));
        assert(all.last() == (s, 1usize));
        lemma_repeat_each_once(s);
        lemma_multiset_commutative(expand(copies(s, fewer as nat)), s);
    }
}

/// One list counted `n` times, with other lists, holds what `n` lists counted
/// once hold with the other lists.
pub proof fn lemma_count_is_copies_among<V>(s: Seq<V>, n: usize, rest: Seq<(Seq<V>, usize)>)
    ensures
        expand(counted(s, n) + rest).to_multiset() == expand(
            copies(s, n as nat) + rest,
        ).to_multiset(),
{
    lemma_count_is_copies(s, n);
    lemma_expand_concat(counted(s, n), rest);
    lemma_expand_concat(copies(s, n as nat), rest);
    lemma_multiset_commutative(expand(counted(s, n)), expand(rest));
    lemma_multiset_commutative(expand(copies(s, n as nat)), expand(rest));
}

/// Each item no times in a row is no item at all.
proof fn lemma_repeat_each_none<V>(s: Seq<V>)
    ensures
        repeat_each(s, 0) == Seq::<V>::empty(),
    decreases s.len(),
{
    if s.len() > 0 {
        lemma_repeat_each_none(s.drop_last());
        assert(repeat_each(s, 0) =~= Seq::<V>::empty());
    }
}

/// The lists written out: one after the other, the items of each list
/// repeated as often as the list is counted.
pub fn expand_lists<T: Duplicate>(lists: &[(&Vec<T>, usize)]) -> (r: Vec<T>)
    ensures
        r.deep_view() == expand(lists.deep_view()),
{
    let ghost all = lists.deep_view();
    let mut out: Vec<T> = Vec::new();
    let mut j: usize = 0;
    assert(out.deep_view() =~= expand(all.take(0)));
    while j < lists.len()
        invariant
            j <= lists.len(),
            all == lists.deep_view(),
            out.deep_view() == expand(all.take(j as int)),
        decreases lists.len() - j,
    {
        let list: &Vec<T> = lists[j].0;
        let cnt: usize = lists[j].1;
        let ghost done = expand(all.take(j as int));
        let ghost items = list.deep_view();
        let mut i: usize = 0;
        assert(out.deep_view() =~= done + repeat_each(items.take(0), cnt as nat));
        while i < list.len()
            invariant
                i <= list.len(),
                items == list.deep_view(),
                out.deep_view() == done + repeat_each(items.take(i as int), cnt as nat),
            decreases list.len() - i,
        {
            let ghost row = done + repeat_each(items.take(i as int), cnt as nat);
            let ghost x = items[i as int];
            let mut k: usize = 0;
            assert(out.deep_view() =~= row + repeated(x, 0));
            while k < cnt
                invariant
                    k <= cnt,
                    i < list.len(),
                    items == list.deep_view(),
                    x == items[i as int],
                    out.deep_view() == row + repeated(x, k as nat),
                decreases cnt - k,
            {
                let ghost before = out;
                let copy = list[i].duplicate();
                out.push(copy);
                proof {
                    assert(out.deep_view() =~= before.deep_view().push(x));
                    assert(row + repeated(x, (k + 1) as nat) =~= (row + repeated(
                        x,
                        k as nat,
                    )).push(x));
                }
                k = k + 1;
            }
            proof {
                let upto = items.take(i + 1);
                assert(upto.drop_last() =~= items.take(i as int));
                assert(upto.last() == x);
                assert(done + repeat_each(upto, cnt as nat) =~= row + repeated(x, cnt as nat));
            }
            i = i + 1;
        }
        proof {
            let upto = all.take(j + 1);
            assert(upto.drop_last() =~= all.take(j as int));
            assert(upto.last() == all[j as int]);
            assert(all[j as int] == (items, cnt));
            assert(items.take(list.len() as int) =~= items);
        }
        j = j + 1;
    }
    assert(all.take(lists.len() as int) =~= all);
    out
}

} // verus!
