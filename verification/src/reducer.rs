//! The contracts that every aggregation strategy meets.

use crate::key::Key;
use crate::value::{Value, ValueView};
use vstd::prelude::*;

verus! {

/// Which strategy an aggregation column uses. The flag of `SortedTuple` and
/// `Tuple` says whether absent values are skipped.
#[derive(Debug, Clone, Copy)]
pub enum Reducer {
    FloatSum,
    IntSum,
    ArraySum,
    Unique,
    Min,
    ArgMin,
    Max,
    ArgMax,
    SortedTuple(bool),
    Tuple(bool),
    Any,
}

/// Whether every state comes with a count of at least one.
pub open spec fn counts_positive<S>(states: Seq<(S, usize)>) -> bool {
    forall|i: int| 0 <= i < states.len() ==> (#[trigger] states[i]).1 >= 1
}

/// Whether every state comes with a count of at least one.
pub fn counts_are_positive<S: DeepView>(values: &[(&S, usize)]) -> (r: bool)
    ensures
        r == counts_positive(values.deep_view()),
{
    let ghost states = values.deep_view();
    let mut i: usize = 0;
    while i < values.len()
        invariant
            i <= values.len(),
            states == values.deep_view(),
            forall|j: int| 0 <= j < i ==> (#[trigger] states[j]).1 >= 1,
        decreases values.len() - i,
    {
        assert(states[i as int].1 == values@[i as int].1);
        if values[i].1 == 0 {
            return false;
        }
        i = i + 1;
    }
    true
}

/// Two states, each counted once.
pub open spec fn pair_of<S>(a: S, b: S) -> Seq<(S, usize)> {
    seq![(a, 1usize), (b, 1usize)]
}

/// One state, counted `n` times.
pub open spec fn counted<S>(state: S, n: usize) -> Seq<(S, usize)> {
    seq![(state, n)]
}

/// `n` times one state, each counted once.
pub open spec fn copies<S>(state: S, n: nat) -> Seq<(S, usize)> {
    Seq::new(n, |i: int| (state, 1usize))
}

/// A strategy whose states are added up outside it: a state has a zero, a
/// sum and integer multiples, so that a row is taken back by adding its
/// state times minus one.
pub trait SemigroupReducerImpl {
    type State: DeepView;

    /// Whether a row can be taken up.
    spec fn init_defined(&self, key: Key, value: ValueView) -> bool;

    /// The state of one row, or `None` where the row is to be skipped.
    spec fn init_model(&self, key: Key, value: ValueView) -> Option<<Self::State as DeepView>::V>;

    /// The output value of a state.
    spec fn finish_model(&self, state: <Self::State as DeepView>::V) -> ValueView;

    /// Whether a row can be taken up.
    fn can_init(&self, key: &Key, value: &Value) -> (r: bool)
        ensures
            r == self.init_defined(*key, value@),
    ;

    /// The state of one row, or `None` where the row is to be skipped.
    fn init(&self, key: &Key, value: &Value) -> (r: Option<Self::State>)
        requires
            self.init_defined(*key, value@),
        ensures
            r.deep_view() == self.init_model(*key, value@),
    ;

    /// The output value of a state.
    fn finish(&self, state: Self::State) -> (r: Value)
        ensures
            r@ == self.finish_model(state.deep_view()),
    ;
}

/// A strategy that reads one column.
pub trait UnaryReducerImpl {
    type State: DeepView;

    /// Whether a row can be taken up.
    spec fn init_defined(&self, key: Key, value: ValueView) -> bool;

    /// The state of one row, or `None` where the row is to be skipped.
    spec fn init_model(&self, key: Key, value: ValueView) -> Option<<Self::State as DeepView>::V>;

    /// Whether these states can be merged.
    spec fn combine_defined(&self, states: Seq<(<Self::State as DeepView>::V, usize)>) -> bool;

    /// The merged state.
    spec fn combine_model(&self, states: Seq<(<Self::State as DeepView>::V, usize)>) -> <
        Self::State as DeepView
    >::V;

    /// The output value of a state.
    spec fn finish_model(&self, state: <Self::State as DeepView>::V) -> ValueView;

    /// Whether a row can be taken up.
    fn can_init(&self, key: &Key, value: &Value) -> (r: bool)
        ensures
            r == self.init_defined(*key, value@),
    ;

    /// The state of one row, or `None` where the row is to be skipped.
    fn init_unary(&self, key: &Key, value: &Value) -> (r: Option<Self::State>)
        requires
            self.init_defined(*key, value@),
        ensures
            r.deep_view() == self.init_model(*key, value@),
    ;

    /// Whether these states, with these counts, can be merged.
    fn can_combine(&self, values: &[(&Self::State, usize)]) -> (r: bool)
        ensures
            r == (counts_positive(values.deep_view()) && self.combine_defined(
                values.deep_view(),
            )),
    ;

    /// The states merged into one. A state with count `n` stands for `n`
    /// rows that gave that state.
    fn combine(&self, values: &[(&Self::State, usize)]) -> (r: Self::State)
        requires
            counts_positive(values.deep_view()),
            self.combine_defined(values.deep_view()),
        ensures
            r.deep_view() == self.combine_model(values.deep_view()),
    ;

    /// The output value of a state.
    fn finish(&self, state: Self::State) -> (r: Value)
        ensures
            r@ == self.finish_model(state.deep_view()),
    ;

    /// However the states of a group are parted into two groups `a` and `b`:
    /// merging each group and then the two merged states gives the output of
    /// merging all states at once.
    proof fn lemma_combine_partition(
        &self,
        all: Seq<(<Self::State as DeepView>::V, usize)>,
        a: Seq<(<Self::State as DeepView>::V, usize)>,
        b: Seq<(<Self::State as DeepView>::V, usize)>,
    )
        requires
            all.to_multiset() == a.to_multiset().add(b.to_multiset()),
            counts_positive(all),
            self.combine_defined(all),
            self.combine_defined(a),
            self.combine_defined(b),
        ensures
            self.combine_defined(pair_of(self.combine_model(a), self.combine_model(b))),
            self.finish_model(
                self.combine_model(pair_of(self.combine_model(a), self.combine_model(b))),
            ) == self.finish_model(self.combine_model(all)),
    ;

    /// The order in which the states are listed does not change the output.
    proof fn lemma_combine_order(
        &self,
        a: Seq<(<Self::State as DeepView>::V, usize)>,
        b: Seq<(<Self::State as DeepView>::V, usize)>,
    )
        requires
            a.to_multiset() == b.to_multiset(),
            counts_positive(a),
            self.combine_defined(a),
            self.combine_defined(b),
        ensures
            self.finish_model(self.combine_model(a)) == self.finish_model(self.combine_model(b)),
    ;

    /// A state that is counted `n` times gives the output that the state
    /// listed `n` times gives, whatever other states are merged with it.
    proof fn lemma_combine_count(
        &self,
        state: <Self::State as DeepView>::V,
        n: usize,
        rest: Seq<(<Self::State as DeepView>::V, usize)>,
    )
        requires
            n >= 1,
            self.combine_defined(counted(state, n) + rest),
            self.combine_defined(copies(state, n as nat) + rest),
        ensures
            self.finish_model(self.combine_model(counted(state, n) + rest)) == self.finish_model(
                self.combine_model(copies(state, n as nat) + rest),
            ),
    ;
}

/// A strategy that reads all columns that feed it; the first is the primary value.
pub trait ReducerImpl {
    type State: DeepView;

    /// Whether a row can be taken up.
    spec fn init_defined(&self, key: Key, values: Seq<ValueView>) -> bool;

    /// The state of one row, or `None` where the row is to be skipped.
    spec fn init_model(&self, key: Key, values: Seq<ValueView>) -> Option<
        <Self::State as DeepView>::V,
    >;

    /// Whether these states can be merged.
    spec fn combine_defined(&self, states: Seq<(<Self::State as DeepView>::V, usize)>) -> bool;

    /// The merged state.
    spec fn combine_model(&self, states: Seq<(<Self::State as DeepView>::V, usize)>) -> <
        Self::State as DeepView
    >::V;

    /// The output value of a state.
    spec fn finish_model(&self, state: <Self::State as DeepView>::V) -> ValueView;

    /// Whether a row can be taken up.
    fn can_init(&self, key: &Key, values: &[Value]) -> (r: bool)
        ensures
            r == self.init_defined(*key, values.deep_view()),
    ;

    /// The state of one row, or `None` where the row is to be skipped.
    fn init(&self, key: &Key, values: &[Value]) -> (r: Option<Self::State>)
        requires
            self.init_defined(*key, values.deep_view()),
        ensures
            r.deep_view() == self.init_model(*key, values.deep_view()),
    ;

    /// Whether these states, with these counts, can be merged.
    fn can_combine(&self, values: &[(&Self::State, usize)]) -> (r: bool)
        ensures
            r == (counts_positive(values.deep_view()) && self.combine_defined(
                values.deep_view(),
            )),
    ;

    /// The states merged into one. A state with count `n` stands for `n`
    /// rows that gave that state.
    fn combine(&self, values: &[(&Self::State, usize)]) -> (r: Self::State)
        requires
            counts_positive(values.deep_view()),
            self.combine_defined(values.deep_view()),
        ensures
            r.deep_view() == self.combine_model(values.deep_view()),
    ;

    /// The output value of a state.
    fn finish(&self, state: Self::State) -> (r: Value)
        ensures
            r@ == self.finish_model(state.deep_view()),
    ;

    /// However the states of a group are parted into two groups `a` and `b`:
    /// merging each group and then the two merged states gives the output of
    /// merging all states at once.
    proof fn lemma_combine_partition(
        &self,
        all: Seq<(<Self::State as DeepView>::V, usize)>,
        a: Seq<(<Self::State as DeepView>::V, usize)>,
        b: Seq<(<Self::State as DeepView>::V, usize)>,
    )
        requires
            all.to_multiset() == a.to_multiset().add(b.to_multiset()),
            counts_positive(all),
            self.combine_defined(all),
            self.combine_defined(a),
            self.combine_defined(b),
        ensures
            self.combine_defined(pair_of(self.combine_model(a), self.combine_model(b))),
            self.finish_model(
                self.combine_model(pair_of(self.combine_model(a), self.combine_model(b))),
            ) == self.finish_model(self.combine_model(all)),
    ;

    /// The order in which the states are listed does not change the output.
    proof fn lemma_combine_order(
        &self,
        a: Seq<(<Self::State as DeepView>::V, usize)>,
        b: Seq<(<Self::State as DeepView>::V, usize)>,
    )
        requires
            a.to_multiset() == b.to_multiset(),
            counts_positive(a),
            self.combine_defined(a),
            self.combine_defined(b),
        ensures
            self.finish_model(self.combine_model(a)) == self.finish_model(self.combine_model(b)),
    ;

    /// A state that is counted `n` times gives the output that the state
    /// listed `n` times gives, whatever other states are merged with it.
    proof fn lemma_combine_count(
        &self,
        state: <Self::State as DeepView>::V,
        n: usize,
        rest: Seq<(<Self::State as DeepView>::V, usize)>,
    )
        requires
            n >= 1,
            self.combine_defined(counted(state, n) + rest),
            self.combine_defined(copies(state, n as nat) + rest),
        ensures
            self.finish_model(self.combine_model(counted(state, n) + rest)) == self.finish_model(
                self.combine_model(copies(state, n as nat) + rest),
            ),
    ;
}

impl<T: UnaryReducerImpl> ReducerImpl for T {
    type State = <T as UnaryReducerImpl>::State;

    open spec fn init_defined(&self, key: Key, values: Seq<ValueView>) -> bool {
        values.len() > 0 && UnaryReducerImpl::init_defined(self, key, values[0])
    }

    open spec fn init_model(&self, key: Key, values: Seq<ValueView>) -> Option<
        <Self::State as DeepView>::V,
    > {
        UnaryReducerImpl::init_model(self, key, values[0])
    }

    open spec fn combine_defined(
        &self,
        states: Seq<(<Self::State as DeepView>::V, usize)>,
    ) -> bool {
        UnaryReducerImpl::combine_defined(self, states)
    }

    open spec fn combine_model(&self, states: Seq<(<Self::State as DeepView>::V, usize)>) -> <
        Self::State as DeepView
    >::V {
        UnaryReducerImpl::combine_model(self, states)
    }

    open spec fn finish_model(&self, state: <Self::State as DeepView>::V) -> ValueView {
        UnaryReducerImpl::finish_model(self, state)
    }

    fn can_init(&self, key: &Key, values: &[Value]) -> (r: bool) {
        if values.len() == 0 {
            return false;
        }
        assert(values.deep_view()[0] == values@[0]@);
        UnaryReducerImpl::can_init(self, key, &values[0])
    }

    fn init(&self, key: &Key, values: &[Value]) -> (r: Option<Self::State>) {
        assert(values.deep_view()[0] == values@[0]@);
        self.init_unary(key, &values[0])
    }

    fn can_combine(&self, values: &[(&Self::State, usize)]) -> (r: bool) {
        UnaryReducerImpl::can_combine(self, values)
    }

    fn combine(&self, values: &[(&Self::State, usize)]) -> (r: Self::State) {
        UnaryReducerImpl::combine(self, values)
    }

    fn finish(&self, state: Self::State) -> (r: Value) {
        UnaryReducerImpl::finish(self, state)
    }

    proof fn lemma_combine_partition(
        &self,
        all: Seq<(<Self::State as DeepView>::V, usize)>,
        a: Seq<(<Self::State as DeepView>::V, usize)>,
        b: Seq<(<Self::State as DeepView>::V, usize)>,
    ) {
        UnaryReducerImpl::lemma_combine_partition(self, all, a, b);
    }

    proof fn lemma_combine_order(
        &self,
        a: Seq<(<Self::State as DeepView>::V, usize)>,
        b: Seq<(<Self::State as DeepView>::V, usize)>,
    ) {
        UnaryReducerImpl::lemma_combine_order(self, a, b);
    }

    proof fn lemma_combine_count(
        &self,
        state: <Self::State as DeepView>::V,
        n: usize,
        rest: Seq<(<Self::State as DeepView>::V, usize)>,
    ) {
        UnaryReducerImpl::lemma_combine_count(self, state, n, rest);
    }
}

} // verus!
