//! One row of a group, picked without a meaningful order but always the same.

use crate::key::{Key, SALT};
use crate::order::Comparison;
use crate::reducer::{counts_are_positive, UnaryReducerImpl};
use crate::total::{
    least, least_of, le_of, lemma_least_of_any_order, lemma_least_of_count,
    lemma_least_of_partition, lemma_least_of_permutation, states_of, TotalOrder,
};
use crate::value::{lemma_value_order_total, value_le, Value, ValueView};
use vstd::prelude::*;
use vstd::relations::total_ordering;

verus! {

/// Whether row `a` comes before row `b`, or is `b`, where the keys are salted
/// with `seed`: by salted key, and rows with one key by value.
pub open spec fn salted_le(seed: u128, a: (Key, ValueView), b: (Key, ValueView)) -> bool {
    a.0.salted(seed).0 < b.0.salted(seed).0 || (a.0.salted(seed).0 == b.0.salted(seed).0
        && value_le(a.1, b.1))
}

/// The order of rows under a seed, as a relation.
pub open spec fn salted_order(seed: u128) -> spec_fn((Key, ValueView), (Key, ValueView)) -> bool {
    |a: (Key, ValueView), b: (Key, ValueView)| salted_le(seed, a, b)
}

/// Whatever the seed, the rows are totally ordered.
pub proof fn lemma_salted_order_total(seed: u128)
    ensures
        total_ordering(salted_order(seed)),
{
    let le = salted_order(seed);
    assert forall|a: (Key, ValueView)| #[trigger] le(a, a) by {
        lemma_value_order_total(a.1, a.1, a.1);
    }
    assert forall|a: (Key, ValueView), b: (Key, ValueView)| #[trigger] le(a, b) || #[trigger] le(
        b,
        a,
    ) by {
        lemma_value_order_total(a.1, b.1, a.1);
    }
    assert forall|a: (Key, ValueView), b: (Key, ValueView)| #[trigger]
        le(a, b) && #[trigger] le(b, a) implies a == b by {
        lemma_value_order_total(a.1, b.1, a.1);
        a.0.lemma_salted_injective(b.0, seed);
    }
    assert forall|a: (Key, ValueView), b: (Key, ValueView), c: (Key, ValueView)| #[trigger]
        le(a, b) && #[trigger] le(b, c) implies le(a, c) by {
        lemma_value_order_total(a.1, b.1, c.1);
    }
}

/// Whatever the seed, the row that is picked depends on the rows alone: two
/// lists that hold the same rows, each as often, give the same pick.
pub proof fn lemma_pick_is_determined(
    seed: u128,
    a: Seq<(Key, ValueView)>,
    b: Seq<(Key, ValueView)>,
)
    requires
        a.len() > 0,
        a.to_multiset() == b.to_multiset(),
    ensures
        least_of(salted_order(seed), a) == least_of(salted_order(seed), b),
{
    lemma_salted_order_total(seed);
    lemma_least_of_permutation(salted_order(seed), a, b);
}

/// The order of rows by key salted with `SALT`, the least first; rows with
/// one key by value, the least first.
pub struct SaltedKeyFirst;

impl TotalOrder<(Key, Value)> for SaltedKeyFirst {
    open spec fn le(a: (Key, ValueView), b: (Key, ValueView)) -> bool {
        salted_le(SALT, a, b)
    }

    proof fn lemma_total() {
        lemma_salted_order_total(SALT);
        let le = salted_order(SALT);
        assert forall|a: (Key, ValueView), b: (Key, ValueView)| #[trigger]
            Self::le(a, b) || Self::le(b, a) by {
            assert(le(a, b) || le(b, a));
        }
        assert forall|a: (Key, ValueView), b: (Key, ValueView)| #[trigger]
            Self::le(a, b) && Self::le(b, a) implies a == b by {
            assert(le(a, b) && le(b, a));
        }
        assert forall|a: (Key, ValueView), b: (Key, ValueView), c: (Key, ValueView)| #[trigger]
            Self::le(a, b) && #[trigger] Self::le(b, c) implies Self::le(a, c) by {
            assert(le(a, b) && le(b, c));
        }
    }

    fn is_le(a: &(Key, Value), b: &(Key, Value)) -> (r: bool) {
        let x = a.0.salted_with(SALT);
        let y = b.0.salted_with(SALT);
        x.0 < y.0 || (x.0 == y.0 && a.1.le(&b.1))
    }
}

/// Picks the row whose salted key is the least. The salt keeps the pick from
/// following the order of the keys; the pick depends on the rows alone, not
/// on the order or the grouping in which they arrive.
#[derive(Debug, Clone, Copy)]
pub struct AnyReducer;

impl UnaryReducerImpl for AnyReducer {
    type State = (Key, Value);

    open spec fn init_defined(&self, key: Key, value: ValueView) -> bool {
        true
    }

    open spec fn init_model(&self, key: Key, value: ValueView) -> Option<(Key, ValueView)> {
        Some((key, value))
    }

    open spec fn combine_defined(&self, states: Seq<((Key, ValueView), usize)>) -> bool {
        states.len() > 0
    }

    open spec fn combine_model(&self, states: Seq<((Key, ValueView), usize)>) -> (Key, ValueView) {
        least_of(le_of::<(Key, Value), SaltedKeyFirst>(), states_of(states))
    }

    open spec fn finish_model(&self, state: (Key, ValueView)) -> ValueView {
        state.1
    }

    fn can_init(&self, _key: &Key, _value: &Value) -> (r: bool) {
        true
    }

    fn init_unary(&self, key: &Key, value: &Value) -> (r: Option<(Key, Value)>) {
        Some((*key, value.clone()))
    }

    fn can_combine(&self, values: &[(&(Key, Value), usize)]) -> (r: bool) {
        values.len() > 0 && counts_are_positive(values)
    }

    fn combine(&self, values: &[(&(Key, Value), usize)]) -> (r: (Key, Value)) {
        let best = least::<(Key, Value), SaltedKeyFirst>(values);
        (best.0, best.1.clone())
    }

    fn finish(&self, state: (Key, Value)) -> (r: Value) {
        state.1
    }

    proof fn lemma_combine_partition(
        &self,
        all: Seq<((Key, ValueView), usize)>,
        a: Seq<((Key, ValueView), usize)>,
        b: Seq<((Key, ValueView), usize)>,
    ) {
        lemma_least_of_partition::<(Key, Value), SaltedKeyFirst>(all, a, b);
    }

    proof fn lemma_combine_order(
        &self,
        a: Seq<((Key, ValueView), usize)>,
        b: Seq<((Key, ValueView), usize)>,
    ) {
        lemma_least_of_any_order::<(Key, Value), SaltedKeyFirst>(a, b);
    }

    proof fn lemma_combine_count(
        &self,
        state: (Key, ValueView),
        n: usize,
        rest: Seq<((Key, ValueView), usize)>,
    ) {
        lemma_least_of_count::<(Key, Value), SaltedKeyFirst>(state, n, rest);
    }
}

} // verus!
