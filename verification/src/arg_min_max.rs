//! The row that holds the least, or the greatest, value of a group.

use crate::key::Key;
use crate::order::Comparison;
use crate::reducer::{counts_are_positive, UnaryReducerImpl};
use crate::total::{
    least, least_of, le_of, lemma_least_of_any_order, lemma_least_of_count,
    lemma_least_of_partition, states_of, TotalOrder,
};
use crate::value::{lemma_value_order_total, value_order, Value, ValueView};
use vstd::prelude::*;

verus! {

/// The order of rows by value, the least first; rows with one value by key,
/// the least first.
pub struct LeastValueFirst;

/// The order of rows by value, the greatest first; rows with one value by
/// key, the least first.
pub struct GreatestValueFirst;

impl TotalOrder<(Value, Key)> for LeastValueFirst {
    open spec fn le(a: (ValueView, Key), b: (ValueView, Key)) -> bool {
        match value_order(a.0, b.0) {
            Comparison::Less => true,
            Comparison::Equal => a.1.0 <= b.1.0,
            Comparison::Greater => false,
        }
    }

    proof fn lemma_total() {
        assert forall|a: (ValueView, Key), b: (ValueView, Key)| #[trigger]
            Self::le(a, b) || Self::le(b, a) by {
            lemma_value_order_total(a.0, b.0, a.0);
        }
        assert forall|a: (ValueView, Key), b: (ValueView, Key)| #[trigger]
            Self::le(a, b) && Self::le(b, a) implies a == b by {
            lemma_value_order_total(a.0, b.0, a.0);
        }
        assert forall|a: (ValueView, Key), b: (ValueView, Key), c: (ValueView, Key)| #[trigger]
            Self::le(a, b) && #[trigger] Self::le(b, c) implies Self::le(a, c) by {
            lemma_value_order_total(a.0, b.0, c.0);
        }
    }

    fn is_le(a: &(Value, Key), b: &(Value, Key)) -> (r: bool) {
        match a.0.compare(&b.0) {
            Comparison::Less => true,
            Comparison::Equal => a.1.0 <= b.1.0,
            Comparison::Greater => false,
        }
    }
}

impl TotalOrder<(Value, Key)> for GreatestValueFirst {
    open spec fn le(a: (ValueView, Key), b: (ValueView, Key)) -> bool {
        match value_order(a.0, b.0) {
            Comparison::Less => false,
            Comparison::Equal => a.1.0 <= b.1.0,
            Comparison::Greater => true,
        }
    }

    proof fn lemma_total() {
        assert forall|a: (ValueView, Key), b: (ValueView, Key)| #[trigger]
            Self::le(a, b) || Self::le(b, a) by {
            lemma_value_order_total(a.0, b.0, a.0);
        }
        assert forall|a: (ValueView, Key), b: (ValueView, Key)| #[trigger]
            Self::le(a, b) && Self::le(b, a) implies a == b by {
            lemma_value_order_total(a.0, b.0, a.0);
        }
        assert forall|a: (ValueView, Key), b: (ValueView, Key), c: (ValueView, Key)| #[trigger]
            Self::le(a, b) && #[trigger] Self::le(b, c) implies Self::le(a, c) by {
            lemma_value_order_total(c.0, b.0, a.0);
        }
    }

    fn is_le(a: &(Value, Key), b: &(Value, Key)) -> (r: bool) {
        match a.0.compare(&b.0) {
            Comparison::Less => false,
            Comparison::Equal => a.1.0 <= b.1.0,
            Comparison::Greater => true,
        }
    }
}

/// Points to the row with the least value; among rows with that value, to
/// the one with the least key.
#[derive(Debug, Clone, Copy)]
pub struct ArgMinReducer;

impl UnaryReducerImpl for ArgMinReducer {
    type State = (Value, Key);

    open spec fn init_defined(&self, key: Key, value: ValueView) -> bool {
        true
    }

    open spec fn init_model(&self, key: Key, value: ValueView) -> Option<(ValueView, Key)> {
        Some((value, key))
    }

    open spec fn combine_defined(&self, states: Seq<((ValueView, Key), usize)>) -> bool {
        states.len() > 0
    }

    open spec fn combine_model(&self, states: Seq<((ValueView, Key), usize)>) -> (ValueView, Key) {
        least_of(le_of::<(Value, Key), LeastValueFirst>(), states_of(states))
    }

    open spec fn finish_model(&self, state: (ValueView, Key)) -> ValueView {
        ValueView::Pointer(state.1)
    }

    fn can_init(&self, _key: &Key, _value: &Value) -> (r: bool) {
        true
    }

    fn init_unary(&self, key: &Key, value: &Value) -> (r: Option<(Value, Key)>) {
        Some((value.clone(), *key))
    }

    fn can_combine(&self, values: &[(&(Value, Key), usize)]) -> (r: bool) {
        values.len() > 0 && counts_are_positive(values)
    }

    fn combine(&self, values: &[(&(Value, Key), usize)]) -> (r: (Value, Key)) {
        let best = least::<(Value, Key), LeastValueFirst>(values);
        (best.0.clone(), best.1)
    }

    fn finish(&self, state: (Value, Key)) -> (r: Value) {
        Value::Pointer(state.1)
    }

    proof fn lemma_combine_partition(
        &self,
        all: Seq<((ValueView, Key), usize)>,
        a: Seq<((ValueView, Key), usize)>,
        b: Seq<((ValueView, Key), usize)>,
    ) {
        lemma_least_of_partition::<(Value, Key), LeastValueFirst>(all, a, b);
    }

    proof fn lemma_combine_order(
        &self,
        a: Seq<((ValueView, Key), usize)>,
        b: Seq<((ValueView, Key), usize)>,
    ) {
        lemma_least_of_any_order::<(Value, Key), LeastValueFirst>(a, b);
    }

    proof fn lemma_combine_count(
        &self,
        state: (ValueView, Key),
        n: usize,
        rest: Seq<((ValueView, Key), usize)>,
    ) {
        lemma_least_of_count::<(Value, Key), LeastValueFirst>(state, n, rest);
    }
}

/// Points to the row with the greatest value; among rows with that value, to
/// the one with the least key.
#[derive(Debug, Clone, Copy)]
pub struct ArgMaxReducer;

impl UnaryReducerImpl for ArgMaxReducer {
    type State = (Value, Key);

    open spec fn init_defined(&self, key: Key, value: ValueView) -> bool {
        true
    }

    open spec fn init_model(&self, key: Key, value: ValueView) -> Option<(ValueView, Key)> {
        Some((value, key))
    }

    open spec fn combine_defined(&self, states: Seq<((ValueView, Key), usize)>) -> bool {
        states.len() > 0
    }

    open spec fn combine_model(&self, states: Seq<((ValueView, Key), usize)>) -> (ValueView, Key) {
        least_of(le_of::<(Value, Key), GreatestValueFirst>(), states_of(states))
    }

    open spec fn finish_model(&self, state: (ValueView, Key)) -> ValueView {
        ValueView::Pointer(state.1)
    }

    fn can_init(&self, _key: &Key, _value: &Value) -> (r: bool) {
        true
    }

    fn init_unary(&self, key: &Key, value: &Value) -> (r: Option<(Value, Key)>) {
        Some((value.clone(), *key))
    }

    fn can_combine(&self, values: &[(&(Value, Key), usize)]) -> (r: bool) {
        values.len() > 0 && counts_are_positive(values)
    }

    fn combine(&self, values: &[(&(Value, Key), usize)]) -> (r: (Value, Key)) {
        let best = least::<(Value, Key), GreatestValueFirst>(values);
        (best.0.clone(), best.1)
    }

    fn finish(&self, state: (Value, Key)) -> (r: Value) {
        Value::Pointer(state.1)
    }

    proof fn lemma_combine_partition(
        &self,
        all: Seq<((ValueView, Key), usize)>,
        a: Seq<((ValueView, Key), usize)>,
        b: Seq<((ValueView, Key), usize)>,
    ) {
        lemma_least_of_partition::<(Value, Key), GreatestValueFirst>(all, a, b);
    }

    proof fn lemma_combine_order(
        &self,
        a: Seq<((ValueView, Key), usize)>,
        b: Seq<((ValueView, Key), usize)>,
    ) {
        lemma_least_of_any_order::<(Value, Key), GreatestValueFirst>(a, b);
    }

    proof fn lemma_combine_count(
        &self,
        state: (ValueView, Key),
        n: usize,
        rest: Seq<((ValueView, Key), usize)>,
    ) {
        lemma_least_of_count::<(Value, Key), GreatestValueFirst>(state, n, rest);
    }
}

} // verus!
