//! All values of a group, in ascending order.

use crate::expand::{
    expand, expand_lists, lemma_count_is_copies_among, lemma_expand_concat, lemma_expand_pair,
    lemma_expand_permutation, Duplicate,
};
use crate::key::Key;
use crate::min_max::Ascending;
use crate::reducer::{copies, counted, counts_are_positive, UnaryReducerImpl};
use crate::total::{le_of, lemma_le_of_total, lemma_sort_by_permutation, sort};
use crate::value::{lemma_tuple_view, Value, ValueView};
use vstd::prelude::*;
use vstd::seq_lib::lemma_multiset_commutative;

verus! {

impl Duplicate for Value {
    fn duplicate(&self) -> (r: Value) {
        self.clone()
    }
}

/// Collects the values of the group; a value that occurs `n` times is
/// collected `n` times. The output is the collected values in ascending order.
#[derive(Debug, Clone, Copy)]
pub struct SortedTupleReducer {
    skip_nones: bool,
}

impl SortedTupleReducer {
    /// Whether absent values are left out.
    pub closed spec fn skips_absent(&self) -> bool {
        self.skip_nones
    }

    /// A reducer that leaves absent values out if `skip_nones` is set.
    pub fn new(skip_nones: bool) -> (r: Self)
        ensures
            r.skips_absent() == skip_nones,
    {
        Self { skip_nones }
    }
}

impl UnaryReducerImpl for SortedTupleReducer {
    type State = Vec<Value>;

    open spec fn init_defined(&self, key: Key, value: ValueView) -> bool {
        true
    }

    open spec fn init_model(&self, key: Key, value: ValueView) -> Option<Seq<ValueView>> {
        if value == ValueView::Absent && self.skips_absent() {
            Some(Seq::empty())
        } else {
            Some(seq![value])
        }
    }

    open spec fn combine_defined(&self, states: Seq<(Seq<ValueView>, usize)>) -> bool {
        true
    }

    open spec fn combine_model(&self, states: Seq<(Seq<ValueView>, usize)>) -> Seq<ValueView> {
        expand(states)
    }

    open spec fn finish_model(&self, state: Seq<ValueView>) -> ValueView {
        ValueView::Tuple(state.sort_by(le_of::<Value, Ascending>()))
    }

    fn can_init(&self, _key: &Key, _value: &Value) -> (r: bool) {
        true
    }

    fn init_unary(&self, _key: &Key, value: &Value) -> (r: Option<Vec<Value>>) {
        let mut state: Vec<Value> = Vec::new();
        if !(value.is_absent() && self.skip_nones) {
            state.push(value.clone());
        }
        assert(state.deep_view() =~= self.init_model(*_key, value@)->Some_0);
        Some(state)
    }

    fn can_combine(&self, values: &[(&Vec<Value>, usize)]) -> (r: bool) {
        counts_are_positive(values)
    }

    fn combine(&self, values: &[(&Vec<Value>, usize)]) -> (r: Vec<Value>) {
        expand_lists(values)
    }

    fn finish(&self, state: Vec<Value>) -> (r: Value) {
        let sorted = sort::<Value, Ascending>(state);
        proof {
            lemma_tuple_view(sorted);
        }
        Value::Tuple(sorted)
    }

    proof fn lemma_combine_partition(
        &self,
        all: Seq<(Seq<ValueView>, usize)>,
        a: Seq<(Seq<ValueView>, usize)>,
        b: Seq<(Seq<ValueView>, usize)>,
    ) {
        lemma_expand_pair(expand(a), expand(b));
        lemma_expand_concat(a, b);
        lemma_multiset_commutative(a, b);
        lemma_expand_permutation(a + b, all);
        lemma_le_of_total::<Value, Ascending>();
        lemma_sort_by_permutation(le_of::<Value, Ascending>(), expand(a + b), expand(all));
    }

    proof fn lemma_combine_order(
        &self,
        a: Seq<(Seq<ValueView>, usize)>,
        b: Seq<(Seq<ValueView>, usize)>,
    ) {
        lemma_expand_permutation(a, b);
        lemma_le_of_total::<Value, Ascending>();
        lemma_sort_by_permutation(le_of::<Value, Ascending>(), expand(a), expand(b));
    }

    proof fn lemma_combine_count(
        &self,
        state: Seq<ValueView>,
        n: usize,
        rest: Seq<(Seq<ValueView>, usize)>,
    ) {
        lemma_count_is_copies_among(state, n, rest);
        lemma_le_of_total::<Value, Ascending>();
        lemma_sort_by_permutation(
            le_of::<Value, Ascending>(),
            expand(counted(state, n) + rest),
            expand(copies(state, n as nat) + rest),
        );
    }
}

} // verus!
