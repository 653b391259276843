//! Total orders on states: the least state of a list, and sorting.

use crate::reducer::{copies, counted, pair_of};
use vstd::prelude::*;
use vstd::relations::{sorted_by, total_ordering};
use vstd::seq_lib::{
    lemma_fold_left_permutation, lemma_multiset_commutative, lemma_sorted_unique, to_multiset_build,
};

verus! {

/// A total order on the views of `S`, with the test that decides it.
pub trait TotalOrder<S: DeepView> {
    /// Whether `a` comes before `b` or is `b`.
    spec fn le(a: S::V, b: S::V) -> bool;

    /// Any two views are comparable, two views that come before each other are
    /// one view, and coming before carries over a middle view.
    proof fn lemma_total()
        ensures
            forall|a: S::V, b: S::V| #[trigger] Self::le(a, b) || Self::le(b, a),
            forall|a: S::V, b: S::V| #[trigger] Self::le(a, b) && Self::le(b, a) ==> a == b,
            forall|a: S::V, b: S::V, c: S::V|
                #[trigger] Self::le(a, b) && #[trigger] Self::le(b, c) ==> Self::le(a, c),
    ;

    /// Decides the order.
    fn is_le(a: &S, b: &S) -> (r: bool)
        ensures
            r == Self::le(a.deep_view(), b.deep_view()),
    ;
}

/// The order of `O` as a relation.
pub open spec fn le_of<S: DeepView, O: TotalOrder<S>>() -> spec_fn(S::V, S::V) -> bool {
    |a: S::V, b: S::V| O::le(a, b)
}

/// The relation of `O` is a total order.
pub proof fn lemma_le_of_total<S: DeepView, O: TotalOrder<S>>()
    ensures
        total_ordering(le_of::<S, O>()),
{
    O::lemma_total();
    let le = le_of::<S, O>();
    assert forall|a: S::V| #[trigger] le(a, a) by {
        assert(O::le(a, a) || O::le(a, a));
    }
    assert forall|a: S::V, b: S::V| #[trigger] le(a, b) && #[trigger] le(b, a) implies a == b by {
        assert(O::le(a, b) && O::le(b, a));
    }
    assert forall|a: S::V, b: S::V| #[trigger] le(a, b) || #[trigger] le(b, a) by {
        assert(O::le(a, b) || O::le(b, a));
    }
    assert forall|a: S::V, b: S::V, c: S::V| #[trigger] le(a, b) && #[trigger] le(b, c) implies le(
        a,
        c,
    ) by {
        assert(O::le(a, b) && O::le(b, c));
    }
}

/// The states of a list of counted states.
pub open spec fn states_of<V>(counted: Seq<(V, usize)>) -> Seq<V> {
    counted.map_values(|p: (V, usize)| p.0)
}

/// The first state of `s` that comes before or is every state of `s`.
pub open spec fn least_of<V>(le: spec_fn(V, V) -> bool, s: Seq<V>) -> V
    decreases s.len(),
{
    if s.len() <= 1 {
        s[0]
    } else {
        let m = least_of(le, s.drop_last());
        if le(m, s.last()) {
            m
        } else {
            s.last()
        }
    }
}

/// The least state is in the list, and comes before or is every state of the list.
pub proof fn lemma_least_of<V>(le: spec_fn(V, V) -> bool, s: Seq<V>)
    requires
        total_ordering(le),
        s.len() > 0,
    ensures
        s.contains(least_of(le, s)),
        forall|i: int| 0 <= i < s.len() ==> le(least_of(le, s), #[trigger] s[i]),
    decreases s.len(),
{
    if s.len() == 1 {
        assert(s[0] == least_of(le, s));
        assert(le(s[0], s[0]));
    } else {
        let front = s.drop_last();
        lemma_least_of(le, front);
        let m = least_of(le, front);
        let j = choose|j: int| 0 <= j < front.len() && front[j] == m;
        assert(s[j] == m);
        assert(s[s.len() - 1] == s.last());
        assert forall|i: int| 0 <= i < s.len() implies le(least_of(le, s), #[trigger] s[i]) by {
            if i < front.len() {
                assert(front[i] == s[i]);
                assert(le(m, front[i]));
            }
            assert(le(m, s.last()) || le(s.last(), m));
            assert(le(s.last(), s.last()));
        }
    }
}

/// A state of the list that comes before or is every state of the list is the least.
pub proof fn lemma_least_unique<V>(le: spec_fn(V, V) -> bool, s: Seq<V>, m: V)
    requires
        total_ordering(le),
        s.contains(m),
        forall|i: int| 0 <= i < s.len() ==> le(m, #[trigger] s[i]),
    ensures
        m == least_of(le, s),
{
    lemma_least_of(le, s);
    let l = least_of(le, s);
    let i = choose|i: int| 0 <= i < s.len() && s[i] == l;
    let j = choose|j: int| 0 <= j < s.len() && s[j] == m;
    assert(le(m, s[i]));
    assert(le(l, s[j]));
}

/// Two lists that hold the same states have the same least state.
pub proof fn lemma_least_of_same_states<V>(le: spec_fn(V, V) -> bool, a: Seq<V>, b: Seq<V>)
    requires
        total_ordering(le),
        a.len() > 0,
        forall|x: V| a.contains(x) <==> b.contains(x),
    ensures
        least_of(le, a) == least_of(le, b),
{
    lemma_least_of(le, a);
    let m = least_of(le, a);
    assert(b.contains(m));
    assert forall|i: int| 0 <= i < b.len() implies le(m, #[trigger] b[i]) by {
        assert(b.contains(b[i]));
        assert(a.contains(b[i]));
        let j = choose|j: int| 0 <= j < a.len() && a[j] == b[i];
        assert(le(m, a[j]));
    }
    lemma_least_unique(le, b, m);
}

/// Two lists that hold the same states, each as often, have the same least state.
pub proof fn lemma_least_of_permutation<V>(le: spec_fn(V, V) -> bool, a: Seq<V>, b: Seq<V>)
    requires
        total_ordering(le),
        a.len() > 0,
        a.to_multiset() == b.to_multiset(),
    ensures
        least_of(le, a) == least_of(le, b),
{
    a.to_multiset_ensures();
    b.to_multiset_ensures();
    assert forall|x: V| a.contains(x) <==> b.contains(x) by {
        assert(a.contains(x) <==> a.to_multiset().count(x) > 0);
        assert(b.contains(x) <==> b.to_multiset().count(x) > 0);
    }
    lemma_least_of_same_states(le, a, b);
}

/// The least state of two lists put together is the lesser of their least states.
pub proof fn lemma_least_of_concat<V>(le: spec_fn(V, V) -> bool, a: Seq<V>, b: Seq<V>)
    requires
        total_ordering(le),
        a.len() > 0,
        b.len() > 0,
    ensures
        least_of(le, seq![least_of(le, a), least_of(le, b)]) == least_of(le, a + b),
{
    let la = least_of(le, a);
    let lb = least_of(le, b);
    let both = seq![la, lb];
    lemma_least_of(le, a);
    lemma_least_of(le, b);
    lemma_least_of(le, both);
    let m = least_of(le, both);
    assert(both[0] == la && both[1] == lb);
    assert(le(m, both[0]) && le(m, both[1]));
    let k = choose|k: int| 0 <= k < both.len() && both[k] == m;
    let s = a + b;
    if k == 0 {
        let i = choose|i: int| 0 <= i < a.len() && a[i] == la;
        assert(s[i] == m);
    } else {
        let i = choose|i: int| 0 <= i < b.len() && b[i] == lb;
        assert(s[a.len() + i] == m);
    }
    assert forall|i: int| 0 <= i < s.len() implies le(m, #[trigger] s[i]) by {
        if i < a.len() {
            assert(s[i] == a[i]);
            assert(le(la, a[i]));
        } else {
            assert(s[i] == b[i - a.len()]);
            assert(le(lb, b[i - a.len()]));
        }
    }
    lemma_least_unique(le, s, m);
}

/// However the states are parted into two groups, the least of all states is
/// the lesser of the least states of the groups.
pub proof fn lemma_least_of_partition<S: DeepView, O: TotalOrder<S>>(
    all: Seq<(S::V, usize)>,
    a: Seq<(S::V, usize)>,
    b: Seq<(S::V, usize)>,
)
    requires
        all.to_multiset() == a.to_multiset().add(b.to_multiset()),
        a.len() > 0,
        b.len() > 0,
    ensures
        least_of(
            le_of::<S, O>(),
            states_of(
                pair_of(
                    least_of(le_of::<S, O>(), states_of(a)),
                    least_of(le_of::<S, O>(), states_of(b)),
                ),
            ),
        ) == least_of(le_of::<S, O>(), states_of(all)),
{
    let le = le_of::<S, O>();
    lemma_le_of_total::<S, O>();
    lemma_least_of_concat(le, states_of(a), states_of(b));
    assert(states_of(a + b) =~= states_of(a) + states_of(b));
    assert(states_of(pair_of(least_of(le, states_of(a)), least_of(le, states_of(b)))) =~= seq![
        least_of(le, states_of(a)),
        least_of(le, states_of(b)),
    ]);
    lemma_multiset_commutative(a, b);
    lemma_least_of_any_order::<S, O>(a + b, all);
}

/// The least state does not depend on how often a state is counted or listed.
pub proof fn lemma_least_of_count<S: DeepView, O: TotalOrder<S>>(
    state: S::V,
    n: usize,
    rest: Seq<(S::V, usize)>,
)
    requires
        n >= 1,
    ensures
        least_of(le_of::<S, O>(), states_of(counted(state, n) + rest)) == least_of(
            le_of::<S, O>(),
            states_of(copies(state, n as nat) + rest),
        ),
{
    let once = states_of(counted(state, n) + rest);
    let often = states_of(copies(state, n as nat) + rest);
    lemma_le_of_total::<S, O>();
    assert forall|x: S::V| once.contains(x) <==> often.contains(x) by {
        if once.contains(x) {
            let i = choose|i: int| 0 <= i < once.len() && once[i] == x;
            if i == 0 {
                assert(often[0] == x);
            } else {
                assert(often[n + i - 1] == x);
            }
        }
        if often.contains(x) {
            let i = choose|i: int| 0 <= i < often.len() && often[i] == x;
            if i < n {
                assert(once[0] == x);
            } else {
                assert(once[i - n + 1] == x);
            }
        }
    }
    assert(once[0] == state);
    lemma_least_of_same_states(le_of::<S, O>(), once, often);
}

/// The least state does not depend on the order in which the states are listed.
pub proof fn lemma_least_of_any_order<S: DeepView, O: TotalOrder<S>>(
    a: Seq<(S::V, usize)>,
    b: Seq<(S::V, usize)>,
)
    requires
        a.len() > 0,
        a.to_multiset() == b.to_multiset(),
    ensures
        least_of(le_of::<S, O>(), states_of(a)) == least_of(le_of::<S, O>(), states_of(b)),
{
    lemma_le_of_total::<S, O>();
    lemma_map_values_permutation(a, b, |p: (S::V, usize)| p.0);
    lemma_least_of_permutation(le_of::<S, O>(), states_of(a), states_of(b));
}

/// What is in one of two groups is in the list that was parted into them.
pub proof fn lemma_parts_are_members<A>(all: Seq<A>, a: Seq<A>, b: Seq<A>)
    requires
        all.to_multiset() == a.to_multiset().add(b.to_multiset()),
    ensures
        forall|x: A| a.contains(x) || b.contains(x) ==> #[trigger] all.contains(x),
{
    broadcast use vstd::multiset::group_multiset_axioms;

    all.to_multiset_ensures();
    a.to_multiset_ensures();
    b.to_multiset_ensures();
    assert forall|x: A| a.contains(x) || b.contains(x) implies #[trigger] all.contains(x) by {
        assert(a.to_multiset().count(x) > 0 || b.to_multiset().count(x) > 0);
        assert(all.to_multiset().count(x) > 0);
    }
}

/// Adds the image of `x` under `f` to `m`.
pub open spec fn insert_image<A, B>(f: spec_fn(A) -> B) -> spec_fn(
    vstd::multiset::Multiset<B>,
    A,
) -> vstd::multiset::Multiset<B> {
    |m: vstd::multiset::Multiset<B>, x: A| m.insert(f(x))
}

/// The images of a list, as a multiset, are gathered one by one.
proof fn lemma_images_gathered<A, B>(a: Seq<A>, f: spec_fn(A) -> B)
    ensures
        a.map_values(f).to_multiset() == a.fold_left(
            vstd::multiset::Multiset::empty(),
            insert_image(f),
        ),
    decreases a.len(),
{
    let images = a.map_values(f);
    if a.len() == 0 {
        images.to_multiset_ensures();
        assert(images.to_multiset() =~= vstd::multiset::Multiset::empty());
    } else {
        lemma_images_gathered(a.drop_last(), f);
        assert(images =~= a.drop_last().map_values(f).push(f(a.last())));
        to_multiset_build(a.drop_last().map_values(f), f(a.last()));
    }
}

/// Two lists that hold the same items, each as often, have the same images, each as often.
pub proof fn lemma_map_values_permutation<A, B>(a: Seq<A>, b: Seq<A>, f: spec_fn(A) -> B)
    requires
        a.to_multiset() == b.to_multiset(),
    ensures
        a.map_values(f).to_multiset() == b.map_values(f).to_multiset(),
{
    let g = insert_image(f);
    assert forall|x: A, y: A, v: vstd::multiset::Multiset<B>| #[trigger]
        g(g(v, x), y) == g(g(v, y), x) by {
        assert(v.insert(f(x)).insert(f(y)) =~= v.insert(f(y)).insert(f(x)));
    }
    lemma_images_gathered(a, f);
    lemma_images_gathered(b, f);
    lemma_fold_left_permutation(a, b, g, vstd::multiset::Multiset::empty());
}

/// The least of the states, by the order `O`.
pub fn least<'a, S: DeepView, O: TotalOrder<S>>(values: &[(&'a S, usize)]) -> (r: &'a S)
    requires
        values.len() > 0,
    ensures
        r.deep_view() == least_of(le_of::<S, O>(), states_of(values.deep_view())),
{
    let ghost le = le_of::<S, O>();
    let ghost states = states_of(values.deep_view());
    let mut best: &'a S = values[0].0;
    let mut i: usize = 1;
    assert(states.take(1)[0] == values@[0].0.deep_view());
    while i < values.len()
        invariant
            1 <= i <= values.len(),
            le == le_of::<S, O>(),
            states == states_of(values.deep_view()),
            best.deep_view() == least_of(le, states.take(i as int)),
        decreases values.len() - i,
    {
        let candidate: &'a S = values[i].0;
        proof {
            let upto = states.take(i + 1);
            assert(upto.drop_last() =~= states.take(i as int));
            assert(upto.last() == candidate.deep_view());
        }
        if !O::is_le(best, candidate) {
            best = candidate;
        }
        i = i + 1;
    }
    assert(states.take(i as int) =~= states);
    best
}

/// Two lists that hold the same states, each as often, are one list once sorted.
pub proof fn lemma_sort_by_permutation<V>(le: spec_fn(V, V) -> bool, a: Seq<V>, b: Seq<V>)
    requires
        total_ordering(le),
        a.to_multiset() == b.to_multiset(),
    ensures
        a.sort_by(le) == b.sort_by(le),
{
    a.lemma_sort_by_ensures(le);
    b.lemma_sort_by_ensures(le);
    lemma_sorted_unique(a.sort_by(le), b.sort_by(le), le);
}

/// The views of `items` with the view of `x` at the end are the views of
/// `items` with `x` at the end.
proof fn lemma_views_push<S: DeepView>(before: Vec<S>, after: Vec<S>, x: S)
    requires
        after@ == before@.push(x),
    ensures
        after.deep_view() == before.deep_view().push(x.deep_view()),
{
    assert(after.deep_view() =~= before.deep_view().push(x.deep_view()));
}

/// The views of `items` without the last are the views of `items` without the last.
proof fn lemma_views_pop<S: DeepView>(before: Vec<S>, after: Vec<S>)
    requires
        before@.len() > 0,
        after@ == before@.drop_last(),
    ensures
        after.deep_view() == before.deep_view().drop_last(),
        before.deep_view() == after.deep_view().push(before@.last().deep_view()),
{
    assert(after.deep_view() =~= before.deep_view().drop_last());
    assert(before.deep_view() =~= after.deep_view().push(before@.last().deep_view()));
}

/// Whether `s` goes down, or stays, from each state to the next.
pub open spec fn descending<V>(le: spec_fn(V, V) -> bool, s: Seq<V>) -> bool {
    forall|i: int, j: int| 0 <= i < j < s.len() ==> le(#[trigger] s[j], #[trigger] s[i])
}

/// Whether every state of `low` comes before or is every state of `high`.
pub open spec fn all_le<V>(le: spec_fn(V, V) -> bool, low: Seq<V>, high: Seq<V>) -> bool {
    forall|i: int, j: int|
        0 <= i < low.len() && 0 <= j < high.len() ==> le(#[trigger] low[i], #[trigger] high[j])
}

/// The states of `items` from the last to the first.
pub(crate) fn reversed<S: DeepView>(items: Vec<S>) -> (r: Vec<S>)
    ensures
        r.deep_view() == items.deep_view().reverse(),
{
    let ghost all = items.deep_view();
    let mut rest = items;
    let mut out: Vec<S> = Vec::with_capacity(rest.len());
    while rest.len() > 0
        invariant
            rest.len() + out.len() == all.len(),
            rest.deep_view() == all.take(rest.len() as int),
            out.deep_view() == all.reverse().take(out.len() as int),
        decreases rest.len(),
    {
        let ghost rest_before = rest;
        let ghost out_before = out;
        let x = rest.pop().unwrap();
        out.push(x);
        proof {
            lemma_views_pop(rest_before, rest);
            lemma_views_push(out_before, out, rest_before@.last());
            assert(rest.deep_view() =~= all.take(rest.len() as int));
            assert(rest_before.deep_view()[rest_before.len() - 1] == all[rest_before.len() - 1]);
            assert(all.reverse()[out_before.len() as int] == all[all.len() - 1 - out_before.len()]);
            assert(out.deep_view() =~= all.reverse().take(out.len() as int));
        }
    }
    assert(all.reverse().take(out.len() as int) =~= all.reverse());
    out
}

/// Two sorted lists as one sorted list.
fn merge<S: DeepView, O: TotalOrder<S>>(left: Vec<S>, right: Vec<S>) -> (r: Vec<S>)
    requires
        sorted_by(left.deep_view(), le_of::<S, O>()),
        sorted_by(right.deep_view(), le_of::<S, O>()),
        left.len() + right.len() <= usize::MAX,
    ensures
        sorted_by(r.deep_view(), le_of::<S, O>()),
        r.deep_view().to_multiset() == left.deep_view().to_multiset().add(
            right.deep_view().to_multiset(),
        ),
{
    let ghost le = le_of::<S, O>();
    let ghost all = left.deep_view().to_multiset().add(right.deep_view().to_multiset());
    let mut left = left;
    let mut right = right;
    let mut down: Vec<S> = Vec::with_capacity(left.len() + right.len());
    proof {
        lemma_le_of_total::<S, O>();
        assert(down.deep_view() =~= Seq::empty());
        assert(down.deep_view().to_multiset() =~= vstd::multiset::Multiset::empty()) by {
            down.deep_view().to_multiset_ensures();
        }
        assert(all =~= left.deep_view().to_multiset().add(right.deep_view().to_multiset()).add(
            down.deep_view().to_multiset(),
        ));
    }
    while left.len() > 0 || right.len() > 0
        invariant
            le == le_of::<S, O>(),
            total_ordering(le),
            sorted_by(left.deep_view(), le),
            sorted_by(right.deep_view(), le),
            descending(le, down.deep_view()),
            all_le(le, left.deep_view(), down.deep_view()),
            all_le(le, right.deep_view(), down.deep_view()),
            all == left.deep_view().to_multiset().add(right.deep_view().to_multiset()).add(
                down.deep_view().to_multiset(),
            ),
        decreases left.len() + right.len(),
    {
        let ghost left_before = left;
        let ghost right_before = right;
        let ghost down_before = down;
        let from_right = if left.len() == 0 {
            true
        } else if right.len() == 0 {
            false
        } else {
            O::is_le(&left[left.len() - 1], &right[right.len() - 1])
        };
        if from_right {
            let x = right.pop().unwrap();
            down.push(x);
            proof {
                if left.len() > 0 {
                    let a = left.deep_view().last();
                    let b = right_before.deep_view().last();
                    assert(a == left@[left.len() - 1].deep_view());
                    assert(b == right_before@[right_before.len() - 1].deep_view());
                }
                lemma_views_pop(right_before, right);
                lemma_views_push(down_before, down, right_before@.last());
                lemma_merge_step(
                    le,
                    left.deep_view(),
                    right_before.deep_view(),
                    down_before.deep_view(),
                );
                to_multiset_build(right.deep_view(), right_before@.last().deep_view());
                to_multiset_build(down_before.deep_view(), right_before@.last().deep_view());
                assert(all =~= left.deep_view().to_multiset().add(
                    right.deep_view().to_multiset(),
                ).add(down.deep_view().to_multiset()));
            }
        } else {
            let x = left.pop().unwrap();
            down.push(x);
            proof {
                if right.len() > 0 {
                    let a = left_before.deep_view().last();
                    let b = right.deep_view().last();
                    assert(a == left_before@[left_before.len() - 1].deep_view());
                    assert(b == right@[right.len() - 1].deep_view());
                    assert(le(a, b) || le(b, a));
                }
                lemma_views_pop(left_before, left);
                lemma_views_push(down_before, down, left_before@.last());
                lemma_merge_step(
                    le,
                    right.deep_view(),
                    left_before.deep_view(),
                    down_before.deep_view(),
                );
                to_multiset_build(left.deep_view(), left_before@.last().deep_view());
                to_multiset_build(down_before.deep_view(), left_before@.last().deep_view());
                assert(all =~= left.deep_view().to_multiset().add(
                    right.deep_view().to_multiset(),
                ).add(down.deep_view().to_multiset()));
            }
        }
    }
    let ghost down_views = down.deep_view();
    let out = reversed(down);
    proof {
        assert(left.deep_view() =~= Seq::empty());
        assert(right.deep_view() =~= Seq::empty());
        left.deep_view().to_multiset_ensures();
        right.deep_view().to_multiset_ensures();
        assert(left.deep_view().to_multiset() =~= vstd::multiset::Multiset::empty());
        assert(right.deep_view().to_multiset() =~= vstd::multiset::Multiset::empty());
        assert(all =~= down_views.to_multiset());
        down_views.lemma_reverse_to_multiset();
        let up = out.deep_view();
        assert forall|i: int, j: int| 0 <= i < j < up.len() implies #[trigger] le(up[i], up[j]) by {
            assert(up[i] == down_views[down_views.len() - 1 - i]);
            assert(up[j] == down_views[down_views.len() - 1 - j]);
        }
    }
    out
}

/// Moving the last state of `from`, which no state of `other` follows, to
/// the end of `down` keeps the lists in order.
proof fn lemma_merge_step<V>(le: spec_fn(V, V) -> bool, other: Seq<V>, from: Seq<V>, down: Seq<V>)
    requires
        total_ordering(le),
        from.len() > 0,
        sorted_by(from, le),
        sorted_by(other, le),
        descending(le, down),
        all_le(le, from, down),
        all_le(le, other, down),
        other.len() > 0 ==> le(other.last(), from.last()),
    ensures
        sorted_by(from.drop_last(), le),
        descending(le, down.push(from.last())),
        all_le(le, from.drop_last(), down.push(from.last())),
        all_le(le, other, down.push(from.last())),
{
    let x = from.last();
    let rest = from.drop_last();
    let next = down.push(x);
    assert(from[from.len() - 1] == x);
    assert forall|i: int, j: int| 0 <= i < j < rest.len() implies #[trigger] le(
        rest[i],
        rest[j],
    ) by {
        assert(le(from[i], from[j]));
    }
    assert forall|i: int, j: int| 0 <= i < j < next.len() implies le(
        #[trigger] next[j],
        #[trigger] next[i],
    ) by {
        if j < down.len() {
            assert(le(down[j], down[i]));
        } else {
            assert(le(from[from.len() - 1], down[i]));
        }
    }
    assert forall|i: int, j: int| 0 <= i < rest.len() && 0 <= j < next.len() implies le(
        #[trigger] rest[i],
        #[trigger] next[j],
    ) by {
        if j < down.len() {
            assert(le(from[i], down[j]));
        } else {
            assert(le(from[i], from[from.len() - 1]));
        }
    }
    assert forall|i: int, j: int| 0 <= i < other.len() && 0 <= j < next.len() implies le(
        #[trigger] other[i],
        #[trigger] next[j],
    ) by {
        if j < down.len() {
            assert(le(other[i], down[j]));
        } else {
            assert(other[other.len() - 1] == other.last());
            if i < other.len() - 1 {
                assert(le(other[i], other[other.len() - 1]));
            } else {
                assert(le(other[i], other[i]));
            }
            assert(le(other.last(), x));
        }
    }
}

/// The states in ascending order, by the order `O`.
pub fn sort<S: DeepView, O: TotalOrder<S>>(items: Vec<S>) -> (r: Vec<S>)
    ensures
        r.deep_view() == items.deep_view().sort_by(le_of::<S, O>()),
    decreases items.len(),
{
    let ghost le = le_of::<S, O>();
    let ghost views = items.deep_view();
    proof {
        lemma_le_of_total::<S, O>();
        views.lemma_sort_by_ensures(le);
    }
    if items.len() <= 1 {
        proof {
            lemma_sorted_unique(views, views.sort_by(le), le);
        }
        return items;
    }
    let mut left = items;
    let right = left.split_off(left.len() / 2);
    proof {
        assert(views =~= left.deep_view() + right.deep_view());
        lemma_multiset_commutative(left.deep_view(), right.deep_view());
        left.deep_view().lemma_sort_by_ensures(le);
        right.deep_view().lemma_sort_by_ensures(le);
    }
    let ghost left_views = left.deep_view();
    let ghost right_views = right.deep_view();
    let left = sort::<S, O>(left);
    let right = sort::<S, O>(right);
    proof {
        left_views.to_multiset_ensures();
        right_views.to_multiset_ensures();
        left.deep_view().to_multiset_ensures();
        right.deep_view().to_multiset_ensures();
        assert(left.len() == left_views.len() && right.len() == right_views.len());
    }
    let out = merge::<S, O>(left, right);
    proof {
        lemma_sorted_unique(out.deep_view(), views.sort_by(le), le);
    }
    out
}

} // verus!
