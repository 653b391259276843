//! The least and the greatest value of a group.

use crate::key::Key;
use crate::reducer::{counts_are_positive, UnaryReducerImpl};
use crate::total::{
    least, least_of, le_of, lemma_least_of_any_order, lemma_least_of_count,
    lemma_least_of_partition, states_of, TotalOrder,
};
use crate::value::{lemma_value_order_total, value_le, Value, ValueView};
use vstd::prelude::*;

verus! {

/// The order of values, the least first.
pub struct Ascending;

/// The order of values, the greatest first.
pub struct Descending;

impl TotalOrder<Value> for Ascending {
    open spec fn le(a: ValueView, b: ValueView) -> bool {
        value_le(a, b)
    }

    proof fn lemma_total() {
        assert forall|a: ValueView, b: ValueView| #[trigger] Self::le(a, b) || Self::le(b, a) by {
            lemma_value_order_total(a, b, a);
        }
        assert forall|a: ValueView, b: ValueView| #[trigger]
            Self::le(a, b) && Self::le(b, a) implies a == b by {
            lemma_value_order_total(a, b, a);
        }
        assert forall|a: ValueView, b: ValueView, c: ValueView| #[trigger]
            Self::le(a, b) && #[trigger] Self::le(b, c) implies Self::le(a, c) by {
            lemma_value_order_total(a, b, c);
        }
    }

    fn is_le(a: &Value, b: &Value) -> (r: bool) {
        a.le(b)
    }
}

impl TotalOrder<Value> for Descending {
    open spec fn le(a: ValueView, b: ValueView) -> bool {
        value_le(b, a)
    }

    proof fn lemma_total() {
        assert forall|a: ValueView, b: ValueView| #[trigger] Self::le(a, b) || Self::le(b, a) by {
            lemma_value_order_total(a, b, a);
        }
        assert forall|a: ValueView, b: ValueView| #[trigger]
            Self::le(a, b) && Self::le(b, a) implies a == b by {
            lemma_value_order_total(a, b, a);
        }
        assert forall|a: ValueView, b: ValueView, c: ValueView| #[trigger]
            Self::le(a, b) && #[trigger] Self::le(b, c) implies Self::le(a, c) by {
            lemma_value_order_total(c, b, a);
        }
    }

    fn is_le(a: &Value, b: &Value) -> (r: bool) {
        b.le(a)
    }
}

/// Keeps the least value of the group. How often a value occurs does not matter.
#[derive(Debug, Clone, Copy)]
pub struct MinReducer;

impl UnaryReducerImpl for MinReducer {
    type State = Value;

    open spec fn init_defined(&self, key: Key, value: ValueView) -> bool {
        true
    }

    open spec fn init_model(&self, key: Key, value: ValueView) -> Option<ValueView> {
        Some(value)
    }

    open spec fn combine_defined(&self, states: Seq<(ValueView, usize)>) -> bool {
        states.len() > 0
    }

    open spec fn combine_model(&self, states: Seq<(ValueView, usize)>) -> ValueView {
        least_of(le_of::<Value, Ascending>(), states_of(states))
    }

    open spec fn finish_model(&self, state: ValueView) -> ValueView {
        state
    }

    fn can_init(&self, _key: &Key, _value: &Value) -> (r: bool) {
        true
    }

    fn init_unary(&self, _key: &Key, value: &Value) -> (r: Option<Value>) {
        Some(value.clone())
    }

    fn can_combine(&self, values: &[(&Value, usize)]) -> (r: bool) {
        values.len() > 0 && counts_are_positive(values)
    }

    fn combine(&self, values: &[(&Value, usize)]) -> (r: Value) {
        least::<Value, Ascending>(values).clone()
    }

    fn finish(&self, state: Value) -> (r: Value) {
        state
    }

    proof fn lemma_combine_partition(
        &self,
        all: Seq<(ValueView, usize)>,
        a: Seq<(ValueView, usize)>,
        b: Seq<(ValueView, usize)>,
    ) {
        lemma_least_of_partition::<Value, Ascending>(all, a, b);
    }

    proof fn lemma_combine_order(&self, a: Seq<(ValueView, usize)>, b: Seq<(ValueView, usize)>) {
        lemma_least_of_any_order::<Value, Ascending>(a, b);
    }

    proof fn lemma_combine_count(&self, state: ValueView, n: usize, rest: Seq<(ValueView, usize)>) {
        lemma_least_of_count::<Value, Ascending>(state, n, rest);
    }
}

/// Keeps the greatest value of the group. How often a value occurs does not matter.
#[derive(Debug, Clone, Copy)]
pub struct MaxReducer;

impl UnaryReducerImpl for MaxReducer {
    type State = Value;

    open spec fn init_defined(&self, key: Key, value: ValueView) -> bool {
        true
    }

    open spec fn init_model(&self, key: Key, value: ValueView) -> Option<ValueView> {
        Some(value)
    }

    open spec fn combine_defined(&self, states: Seq<(ValueView, usize)>) -> bool {
        states.len() > 0
    }

    open spec fn combine_model(&self, states: Seq<(ValueView, usize)>) -> ValueView {
        least_of(le_of::<Value, Descending>(), states_of(states))
    }

    open spec fn finish_model(&self, state: ValueView) -> ValueView {
        state
    }

    fn can_init(&self, _key: &Key, _value: &Value) -> (r: bool) {
        true
    }

    fn init_unary(&self, _key: &Key, value: &Value) -> (r: Option<Value>) {
        Some(value.clone())
    }

    fn can_combine(&self, values: &[(&Value, usize)]) -> (r: bool) {
        values.len() > 0 && counts_are_positive(values)
    }

    fn combine(&self, values: &[(&Value, usize)]) -> (r: Value) {
        least::<Value, Descending>(values).clone()
    }

    fn finish(&self, state: Value) -> (r: Value) {
        state
    }

    proof fn lemma_combine_partition(
        &self,
        all: Seq<(ValueView, usize)>,
        a: Seq<(ValueView, usize)>,
        b: Seq<(ValueView, usize)>,
    ) {
        lemma_least_of_partition::<Value, Descending>(all, a, b);
    }

    proof fn lemma_combine_order(&self, a: Seq<(ValueView, usize)>, b: Seq<(ValueView, usize)>) {
        lemma_least_of_any_order::<Value, Descending>(a, b);
    }

    proof fn lemma_combine_count(&self, state: ValueView, n: usize, rest: Seq<(ValueView, usize)>) {
        lemma_least_of_count::<Value, Descending>(state, n, rest);
    }
}

} // verus!
