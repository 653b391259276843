//! All values of a group, in the order of a second column or of the rows' keys.

use crate::expand::{
    expand, expand_lists, lemma_count_is_copies_among, lemma_expand_concat, lemma_expand_pair,
    lemma_expand_permutation, Duplicate,
};
use crate::key::Key;
use crate::order::Comparison;
use crate::reducer::{copies, counted, counts_are_positive, ReducerImpl};
use crate::total::{
    le_of, lemma_le_of_total, lemma_sort_by_permutation, reversed, sort, TotalOrder,
};
use crate::value::{
    lemma_tuple_view, lemma_value_order_total, value_le, value_order, Value, ValueView,
};
use vstd::prelude::*;
use vstd::seq_lib::lemma_multiset_commutative;

verus! {

/// What a row puts into the tuple: the value of the second column where
/// there is one, the row's key, and the value itself.
pub type Entry = (Option<Value>, Key, Value);

/// The view of an entry.
pub type EntryView = (Option<ValueView>, Key, ValueView);

/// The order of two optional values: none before any, and any two by value.
pub open spec fn option_order(a: Option<ValueView>, b: Option<ValueView>) -> Comparison {
    match (a, b) {
        (None, None) => Comparison::Equal,
        (None, Some(_)) => Comparison::Less,
        (Some(_), None) => Comparison::Greater,
        (Some(x), Some(y)) => value_order(x, y),
    }
}

/// The order of two optional values.
pub fn compare_options(a: &Option<Value>, b: &Option<Value>) -> (r: Comparison)
    ensures
        r == option_order(a.deep_view(), b.deep_view()),
{
    match (a, b) {
        (None, None) => Comparison::Equal,
        (None, Some(_)) => Comparison::Less,
        (Some(_), None) => Comparison::Greater,
        (Some(x), Some(y)) => x.compare(y),
    }
}

/// The order of entries: by the value of the second column, entries without
/// one first; then by key; then by value.
pub struct EntryOrder;

impl TotalOrder<Entry> for EntryOrder {
    open spec fn le(a: EntryView, b: EntryView) -> bool {
        match option_order(a.0, b.0) {
            Comparison::Less => true,
            Comparison::Equal => a.1.0 < b.1.0 || (a.1.0 == b.1.0 && value_le(a.2, b.2)),
            Comparison::Greater => false,
        }
    }

    proof fn lemma_total() {
        assert forall|a: EntryView, b: EntryView| #[trigger] Self::le(a, b) || Self::le(b, a) by {
            lemma_option_order_total(a.0, b.0, a.0);
            lemma_value_order_total(a.2, b.2, a.2);
        }
        assert forall|a: EntryView, b: EntryView| #[trigger]
            Self::le(a, b) && Self::le(b, a) implies a == b by {
            lemma_option_order_total(a.0, b.0, a.0);
            lemma_value_order_total(a.2, b.2, a.2);
        }
        assert forall|a: EntryView, b: EntryView, c: EntryView| #[trigger]
            Self::le(a, b) && #[trigger] Self::le(b, c) implies Self::le(a, c) by {
            lemma_option_order_total(a.0, b.0, c.0);
            lemma_value_order_total(a.2, b.2, c.2);
        }
    }

    fn is_le(a: &Entry, b: &Entry) -> (r: bool) {
        match compare_options(&a.0, &b.0) {
            Comparison::Less => true,
            Comparison::Equal => a.1.0 < b.1.0 || (a.1.0 == b.1.0 && a.2.le(&b.2)),
            Comparison::Greater => false,
        }
    }
}

/// What makes `option_order` a total order, for three optional values at once.
pub proof fn lemma_option_order_total(
    a: Option<ValueView>,
    b: Option<ValueView>,
    c: Option<ValueView>,
)
    ensures
        option_order(a, b) == Comparison::Equal <==> a == b,
        option_order(b, c) == Comparison::Equal <==> b == c,
        option_order(a, c) == Comparison::Equal <==> a == c,
        option_order(b, a) == option_order(a, b).flip(),
        option_order(c, b) == option_order(b, c).flip(),
        option_order(c, a) == option_order(a, c).flip(),
        option_order(a, b) != Comparison::Greater && option_order(b, c) != Comparison::Greater
            ==> option_order(a, c) != Comparison::Greater,
        option_order(a, b) != Comparison::Less && option_order(b, c) != Comparison::Less
            ==> option_order(a, c) != Comparison::Less,
        option_order(a, b) == Comparison::Equal ==> option_order(a, c) == option_order(b, c),
        option_order(b, c) == Comparison::Equal ==> option_order(a, b) == option_order(a, c),
{
    match (a, b, c) {
        (Some(x), Some(y), Some(z)) => {
            lemma_value_order_total(x, y, z);
        },
        (Some(x), Some(y), None) => {
            lemma_value_order_total(x, y, x);
        },
        (Some(x), None, Some(z)) => {
            lemma_value_order_total(x, z, x);
        },
        (None, Some(y), Some(z)) => {
            lemma_value_order_total(y, z, y);
        },
        _ => {},
    }
}

impl Duplicate for Entry {
    fn duplicate(&self) -> (r: Entry) {
        let second = match &self.0 {
            Some(v) => Some(v.clone()),
            None => None,
        };
        (second, self.1, self.2.clone())
    }
}

/// The values of entries, in the entries' order.
pub open spec fn entry_values(entries: Seq<EntryView>) -> Seq<ValueView> {
    entries.map_values(|e: EntryView| e.2)
}

/// The values of the entries, in the entries' order.
fn values_of(entries: Vec<Entry>) -> (r: Vec<Value>)
    ensures
        r.deep_view() == entry_values(entries.deep_view()),
{
    let ghost all = entries.deep_view();
    let ghost wanted = entry_values(all);
    let mut rest = entries;
    let mut down: Vec<Value> = Vec::with_capacity(rest.len());
    assert(down.deep_view() =~= wanted.reverse().take(0));
    while rest.len() > 0
        invariant
            all == entries.deep_view(),
            wanted == entry_values(all),
            rest.len() + down.len() == all.len(),
            rest.deep_view() == all.take(rest.len() as int),
            down.deep_view() == wanted.reverse().take(down.len() as int),
        decreases rest.len(),
    {
        let ghost rest_before = rest;
        let ghost down_before = down;
        let entry = rest.pop().unwrap();
        down.push(entry.2);
        proof {
            let last = rest_before.len() - 1;
            assert(rest.deep_view() =~= all.take(rest.len() as int));
            assert(rest_before.deep_view()[last] == all[last]);
            assert(entry.deep_view() == rest_before.deep_view()[last]);
            assert(wanted.reverse()[down_before.len() as int] == wanted[last]);
            assert(down.deep_view() =~= wanted.reverse().take(down.len() as int));
        }
    }
    let ghost down_views = down.deep_view();
    let values = reversed(down);
    assert(down_views =~= wanted.reverse());
    assert(values.deep_view() =~= wanted);
    values
}

/// Collects the values of the group; a value that occurs `n` times is
/// collected `n` times. The output is the collected values in the order of
/// the second column where the rows have one, and of the rows' keys otherwise.
#[derive(Debug, Clone, Copy)]
pub struct TupleReducer {
    skip_nones: bool,
}

impl TupleReducer {
    /// Whether absent values are left out.
    pub closed spec fn skips_absent(&self) -> bool {
        self.skip_nones
    }

    /// A reducer that leaves absent values out if `skip_nones` is set.
    pub fn new(skip_nones: bool) -> (r: Self)
        ensures
            r.skips_absent() == skip_nones,
    {
        Self { skip_nones }
    }
}

impl ReducerImpl for TupleReducer {
    type State = Vec<Entry>;

    open spec fn init_defined(&self, key: Key, values: Seq<ValueView>) -> bool {
        values.len() > 0
    }

    open spec fn init_model(&self, key: Key, values: Seq<ValueView>) -> Option<Seq<EntryView>> {
        if values[0] == ValueView::Absent && self.skips_absent() {
            Some(Seq::empty())
        } else if values.len() > 1 {
            Some(seq![(Some(values[1]), key, values[0])])
        } else {
            Some(seq![(None, key, values[0])])
        }
    }

    open spec fn combine_defined(&self, states: Seq<(Seq<EntryView>, usize)>) -> bool {
        true
    }

    open spec fn combine_model(&self, states: Seq<(Seq<EntryView>, usize)>) -> Seq<EntryView> {
        expand(states)
    }

    open spec fn finish_model(&self, state: Seq<EntryView>) -> ValueView {
        ValueView::Tuple(entry_values(state.sort_by(le_of::<Entry, EntryOrder>())))
    }

    fn can_init(&self, _key: &Key, values: &[Value]) -> (r: bool) {
        values.len() > 0
    }

    fn init(&self, key: &Key, values: &[Value]) -> (r: Option<Vec<Entry>>) {
        let ghost views = values.deep_view();
        assert(views[0] == values@[0]@);
        let mut state: Vec<Entry> = Vec::new();
        if values[0].is_absent() && self.skip_nones {
        } else if values.len() > 1 {
            assert(views[1] == values@[1]@);
            state.push((Some(values[1].clone()), *key, values[0].clone()));
        } else {
            state.push((None, *key, values[0].clone()));
        }
        assert(state.deep_view() =~= self.init_model(*key, views)->Some_0);
        Some(state)
    }

    fn can_combine(&self, values: &[(&Vec<Entry>, usize)]) -> (r: bool) {
        counts_are_positive(values)
    }

    fn combine(&self, values: &[(&Vec<Entry>, usize)]) -> (r: Vec<Entry>) {
        expand_lists(values)
    }

    fn finish(&self, state: Vec<Entry>) -> (r: Value) {
        let sorted = sort::<Entry, EntryOrder>(state);
        let values = values_of(sorted);
        proof {
            lemma_tuple_view(values);
        }
        Value::Tuple(values)
    }

    proof fn lemma_combine_partition(
        &self,
        all: Seq<(Seq<EntryView>, usize)>,
        a: Seq<(Seq<EntryView>, usize)>,
        b: Seq<(Seq<EntryView>, usize)>,
    ) {
        lemma_expand_pair(expand(a), expand(b));
        lemma_expand_concat(a, b);
        lemma_multiset_commutative(a, b);
        lemma_expand_permutation(a + b, all);
        lemma_le_of_total::<Entry, EntryOrder>();
        lemma_sort_by_permutation(le_of::<Entry, EntryOrder>(), expand(a + b), expand(all));
    }

    proof fn lemma_combine_order(
        &self,
        a: Seq<(Seq<EntryView>, usize)>,
        b: Seq<(Seq<EntryView>, usize)>,
    ) {
        lemma_expand_permutation(a, b);
        lemma_le_of_total::<Entry, EntryOrder>();
        lemma_sort_by_permutation(le_of::<Entry, EntryOrder>(), expand(a), expand(b));
    }

    proof fn lemma_combine_count(
        &self,
        state: Seq<EntryView>,
        n: usize,
        rest: Seq<(Seq<EntryView>, usize)>,
    ) {
        lemma_count_is_copies_among(state, n, rest);
        lemma_le_of_total::<Entry, EntryOrder>();
        lemma_sort_by_permutation(
            le_of::<Entry, EntryOrder>(),
            expand(counted(state, n) + rest),
            expand(copies(state, n as nat) + rest),
        );
    }
}

} // verus!
