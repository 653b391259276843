//! The one value that all rows of a group hold.

use crate::key::Key;
use crate::order::Comparison;
use crate::reducer::{copies, counted, counts_are_positive, pair_of, UnaryReducerImpl};
use crate::total::lemma_parts_are_members;
use crate::value::lemma_value_order_equal;
use crate::value::{Value, ValueView};
use vstd::prelude::*;

verus! {

/// Whether all states are one state.
pub open spec fn all_same(states: Seq<(Option<ValueView>, usize)>) -> bool {
    forall|i: int| 0 <= i < states.len() ==> (#[trigger] states[i]).0 == states[0].0
}

/// Keeps the value of a column that holds one value in all rows of the
/// group. A group that holds two different values cannot be merged.
#[derive(Debug, Clone, Copy)]
pub struct UniqueReducer;

impl UnaryReducerImpl for UniqueReducer {
    type State = Option<Value>;

    open spec fn init_defined(&self, key: Key, value: ValueView) -> bool {
        true
    }

    open spec fn init_model(&self, key: Key, value: ValueView) -> Option<Option<ValueView>> {
        Some(Some(value))
    }

    open spec fn combine_defined(&self, states: Seq<(Option<ValueView>, usize)>) -> bool {
        states.len() > 0 && all_same(states)
    }

    open spec fn combine_model(&self, states: Seq<(Option<ValueView>, usize)>) -> Option<
        ValueView,
    > {
        states[0].0
    }

    open spec fn finish_model(&self, state: Option<ValueView>) -> ValueView {
        match state {
            Some(v) => v,
            None => ValueView::Absent,
        }
    }

    fn can_init(&self, _key: &Key, _value: &Value) -> (r: bool) {
        true
    }

    fn init_unary(&self, _key: &Key, value: &Value) -> (r: Option<Option<Value>>) {
        Some(Some(value.clone()))
    }

    fn can_combine(&self, values: &[(&Option<Value>, usize)]) -> (r: bool) {
        if values.len() == 0 || !counts_are_positive(values) {
            return false;
        }
        let ghost states = values.deep_view();
        let first: &Option<Value> = values[0].0;
        let mut i: usize = 1;
        while i < values.len()
            invariant
                1 <= i <= values.len(),
                states == values.deep_view(),
                first.deep_view() == states[0].0,
                forall|j: int| 0 <= j < i ==> (#[trigger] states[j]).0 == states[0].0,
            decreases values.len() - i,
        {
            let same = match (first, values[i].0) {
                (None, None) => true,
                (Some(x), Some(y)) => {
                    proof {
                        lemma_value_order_equal(x@, y@);
                    }
                    match x.compare(y) {
                        Comparison::Equal => true,
                        _ => false,
                    }
                },
                _ => false,
            };
            assert(same == (states[i as int].0 == states[0].0));
            if !same {
                return false;
            }
            i = i + 1;
        }
        true
    }

    fn combine(&self, values: &[(&Option<Value>, usize)]) -> (r: Option<Value>) {
        match values[0].0 {
            Some(v) => Some(v.clone()),
            None => None,
        }
    }

    fn finish(&self, state: Option<Value>) -> (r: Value) {
        match state {
            Some(v) => v,
            None => Value::Absent,
        }
    }

    proof fn lemma_combine_partition(
        &self,
        all: Seq<(Option<ValueView>, usize)>,
        a: Seq<(Option<ValueView>, usize)>,
        b: Seq<(Option<ValueView>, usize)>,
    ) {
        lemma_parts_are_members(all, a, b);
        assert(a.contains(a[0]) && b.contains(b[0]));
        assert(all.contains(a[0]) && all.contains(b[0]));
        let i = choose|i: int| 0 <= i < all.len() && all[i] == a[0];
        let j = choose|j: int| 0 <= j < all.len() && all[j] == b[0];
        assert(all[i].0 == all[0].0 && all[j].0 == all[0].0);
        let merged = pair_of(a[0].0, b[0].0);
        assert(merged[0].0 == a[0].0 && merged[1].0 == b[0].0);
    }

    proof fn lemma_combine_order(
        &self,
        a: Seq<(Option<ValueView>, usize)>,
        b: Seq<(Option<ValueView>, usize)>,
    ) {
        a.to_multiset_ensures();
        b.to_multiset_ensures();
        assert(b.contains(b[0]));
        assert(b.to_multiset().count(b[0]) > 0);
        assert(a.contains(b[0]));
        let i = choose|i: int| 0 <= i < a.len() && a[i] == b[0];
        assert(a[i].0 == a[0].0);
    }

    proof fn lemma_combine_count(
        &self,
        state: Option<ValueView>,
        n: usize,
        rest: Seq<(Option<ValueView>, usize)>,
    ) {
        assert((counted(state, n) + rest)[0].0 == state);
        assert((copies(state, n as nat) + rest)[0].0 == state);
    }
}

} // verus!
