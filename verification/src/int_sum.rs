//! The sum of the integers of a group, kept with the number of rows.

use crate::key::Key;
use crate::reducer::SemigroupReducerImpl;
use crate::value::{Value, ValueView};
use vstd::prelude::*;
use vstd::seq_lib::{lemma_fold_left_permutation, lemma_multiset_commutative};

verus! {

/// How many rows were added up, and the sum of their integers.
///
/// States form a commutative group under addition, with `(0, 0)` as zero: a
/// row is taken back by adding its state times minus one.
#[derive(Debug, Hash, PartialEq, Eq, PartialOrd, Ord)]
pub struct IntSumState {
    count: isize,
    sum: i64,
}

/// A state as a pair of integers without bounds.
pub struct IntSumView {
    pub count: int,
    pub sum: int,
}

impl IntSumView {
    /// The state of no rows.
    pub open spec fn zero() -> IntSumView {
        IntSumView { count: 0, sum: 0 }
    }

    /// The sum of two states, field by field.
    pub open spec fn plus(self, other: IntSumView) -> IntSumView {
        IntSumView { count: self.count + other.count, sum: self.sum + other.sum }
    }

    /// The state `k` times: both fields multiplied by `k`.
    pub open spec fn times(self, k: int) -> IntSumView {
        IntSumView { count: self.count * k, sum: self.sum * k }
    }

    /// Whether a state of the library can hold these numbers.
    pub open spec fn fits(self) -> bool {
        isize::MIN <= self.count <= isize::MAX && i64::MIN <= self.sum <= i64::MAX
    }

    /// The order of the two states in a sum does not matter.
    pub proof fn lemma_plus_commutative(self, other: IntSumView)
        ensures
            self.plus(other) == other.plus(self),
    {
    }

    /// The grouping of three states in a sum does not matter.
    pub proof fn lemma_plus_associative(self, second: IntSumView, third: IntSumView)
        ensures
            self.plus(second).plus(third) == self.plus(second.plus(third)),
    {
    }

    /// Adding the zero state changes nothing.
    pub proof fn lemma_plus_zero(self)
        ensures
            self.plus(IntSumView::zero()) == self,
            IntSumView::zero().plus(self) == self,
    {
    }

    /// A state and the same state times minus one add up to zero.
    pub proof fn lemma_plus_negation(self)
        ensures
            self.plus(self.times(-1)) == IntSumView::zero(),
    {
    }

    /// A state once more is the state added once more.
    pub proof fn lemma_times_next(self, k: int)
        ensures
            self.times(0) == IntSumView::zero(),
            self.times(k + 1) == self.times(k).plus(self),
            self.times(k - 1) == self.times(k).plus(self.times(-1)),
    {
        assert(self.count * (k + 1) == self.count * k + self.count) by (nonlinear_arith);
        assert(self.sum * (k + 1) == self.sum * k + self.sum) by (nonlinear_arith);
        assert(self.count * (k - 1) == self.count * k + self.count * (-1)) by (nonlinear_arith);
        assert(self.sum * (k - 1) == self.sum * k + self.sum * (-1)) by (nonlinear_arith);
    }
}

/// Adds a state, taken as often as it is counted, to `acc`.
pub open spec fn add_counted() -> spec_fn(IntSumView, (IntSumView, int)) -> IntSumView {
    |acc: IntSumView, counted: (IntSumView, int)| acc.plus(counted.0.times(counted.1))
}

/// The sum of the states, each taken as often as it is counted. A count
/// below zero takes rows back.
pub open spec fn total(states: Seq<(IntSumView, int)>) -> IntSumView {
    states.fold_left(IntSumView::zero(), add_counted())
}

/// The sum of two lists of states is the sum of their sums.
pub proof fn lemma_total_concat(a: Seq<(IntSumView, int)>, b: Seq<(IntSumView, int)>)
    ensures
        total(a + b) == total(a).plus(total(b)),
    decreases b.len(),
{
    if b.len() == 0 {
        assert(a + b =~= a);
    } else {
        lemma_total_concat(a, b.drop_last());
        assert((a + b).drop_last() =~= a + b.drop_last());
        assert((a + b).last() == b.last());
    }
}

/// However the states of a group are parted into two groups, the sum of all
/// states is the sum of the sums of the two groups.
pub proof fn lemma_total_partition(
    all: Seq<(IntSumView, int)>,
    a: Seq<(IntSumView, int)>,
    b: Seq<(IntSumView, int)>,
)
    requires
        all.to_multiset() == a.to_multiset().add(b.to_multiset()),
    ensures
        total(all) == total(a).plus(total(b)),
{
    let g = add_counted();
    assert forall|x: (IntSumView, int), y: (IntSumView, int), v: IntSumView| #[trigger]
        g(g(v, x), y) == g(g(v, y), x) by {}
    lemma_multiset_commutative(a, b);
    lemma_fold_left_permutation(a + b, all, g, IntSumView::zero());
    lemma_total_concat(a, b);
}

impl View for IntSumState {
    type V = IntSumView;

    closed spec fn view(&self) -> IntSumView {
        IntSumView { count: self.count as int, sum: self.sum as int }
    }
}

impl DeepView for IntSumState {
    type V = IntSumView;

    open spec fn deep_view(&self) -> IntSumView {
        self@
    }
}

impl Clone for IntSumState {
    fn clone(&self) -> (r: Self)
        ensures
            r@ == self@,
    {
        Self { count: self.count, sum: self.sum }
    }
}

impl IntSumState {
    /// The state with these fields.
    pub fn new(count: isize, sum: i64) -> (r: Self)
        ensures
            r@ == (IntSumView { count: count as int, sum: sum as int }),
    {
        Self { count, sum }
    }

    /// The state of one row that holds `val`.
    pub fn single(val: i64) -> (r: Self)
        ensures
            r@ == (IntSumView { count: 1, sum: val as int }),
    {
        Self { count: 1, sum: val }
    }

    /// The number of rows.
    pub fn count(&self) -> (r: isize)
        ensures
            r == self@.count,
    {
        self.count
    }

    /// The sum of the rows' integers.
    pub fn sum(&self) -> (r: i64)
        ensures
            r == self@.sum,
    {
        self.sum
    }

    /// Whether this is the zero state.
    pub fn is_zero(&self) -> (r: bool)
        ensures
            r == (self@ == IntSumView::zero()),
    {
        self.count == 0 && self.sum == 0
    }

    /// Adds `rhs` to this state.
    pub fn plus_equals(&mut self, rhs: &Self)
        requires
            old(self)@.plus(rhs@).fits(),
        ensures
            final(self)@ == old(self)@.plus(rhs@),
    {
        self.count = self.count + rhs.count;
        self.sum = self.sum + rhs.sum;
    }

    /// This state `rhs` times.
    pub fn multiply(self, rhs: &isize) -> (r: Self)
        requires
            self@.times(*rhs as int).fits(),
        ensures
            r@ == self@.times(*rhs as int),
    {
        let count = self.count * *rhs;
        let sum = self.sum * (*rhs as i64);
        Self { count, sum }
    }

    /// Whether `rhs` can be added to this state without leaving the fields' ranges.
    pub fn can_plus(&self, rhs: &Self) -> (r: bool)
        ensures
            r == self@.plus(rhs@).fits(),
    {
        self.count.checked_add(rhs.count).is_some() && self.sum.checked_add(rhs.sum).is_some()
    }

    /// Whether this state can be taken `rhs` times without leaving the fields' ranges.
    pub fn can_multiply(&self, rhs: &isize) -> (r: bool)
        ensures
            r == self@.times(*rhs as int).fits(),
    {
        self.count.checked_mul(*rhs).is_some() && self.sum.checked_mul(*rhs as i64).is_some()
    }
}

/// Adds up the integers of the group.
#[derive(Debug, Clone, Copy)]
pub struct IntSumReducer;

impl SemigroupReducerImpl for IntSumReducer {
    type State = IntSumState;

    open spec fn init_defined(&self, key: Key, value: ValueView) -> bool {
        value is Int
    }

    open spec fn init_model(&self, key: Key, value: ValueView) -> Option<IntSumView> {
        Some(IntSumView { count: 1, sum: value->Int_0 as int })
    }

    open spec fn finish_model(&self, state: IntSumView) -> ValueView {
        ValueView::Int(state.sum as i64)
    }

    fn can_init(&self, _key: &Key, value: &Value) -> (r: bool) {
        match value {
            Value::Int(_) => true,
            _ => false,
        }
    }

    fn init(&self, _key: &Key, value: &Value) -> (r: Option<IntSumState>) {
        match value {
            Value::Int(i) => Some(IntSumState::single(*i)),
            _ => {
                proof {
                    assert(false);
                }
                None
            },
        }
    }

    fn finish(&self, state: IntSumState) -> (r: Value) {
        Value::Int(state.sum)
    }
}

} // verus!
