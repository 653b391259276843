//! The element-wise sum of integer arrays.

use crate::array::{array_add, array_scale, IntArray, IntArrayView};
use crate::key::Key;
use crate::order::{compare_numbers, lemma_lex_equal, lemma_numbers_injective, numbers, Comparison};
use crate::reducer::{
    copies, counted, counts_are_positive, counts_positive, pair_of, UnaryReducerImpl,
};
use crate::total::lemma_parts_are_members;
use crate::value::{Value, ValueView};
use vstd::prelude::*;
use vstd::seq_lib::lemma_multiset_commutative;

verus! {

/// Sums arrays element by element, each array counted as often as its row occurs.
#[derive(Debug, Clone, Copy)]
pub struct ArraySumReducer;

/// Element `i` of a state's array, counted as often as the state occurs.
pub open spec fn term_at(state: (ValueView, usize), i: int) -> int {
    state.0->IntArray_0.elems[i] * state.1
}

/// Element `i` of the sum of the first `upto` states.
pub open spec fn partial_sum_at(states: Seq<(ValueView, usize)>, upto: int, i: int) -> int
    decreases upto,
{
    if upto <= 0 {
        0
    } else {
        partial_sum_at(states, upto - 1, i) + term_at(states[upto - 1], i)
    }
}

/// Whether `x` is a 64-bit integer.
pub open spec fn fits_i64(x: int) -> bool {
    i64::MIN <= x <= i64::MAX
}

/// Whether the states can be summed: there is at least one, all are integer
/// arrays with the axes and the number of elements of the first, and no
/// count, no multiple of an element and no sum on the way from the first
/// state to the last leaves the 64-bit integers.
pub open spec fn sum_defined(states: Seq<(ValueView, usize)>) -> bool {
    &&& states.len() > 0
    &&& forall|j: int|
        0 <= j < states.len() ==> {
            &&& (#[trigger] states[j]).0 is IntArray
            &&& states[j].0->IntArray_0.shape == states[0].0->IntArray_0.shape
            &&& states[j].0->IntArray_0.elems.len() == states[0].0->IntArray_0.elems.len()
            &&& states[j].1 <= i64::MAX
        }
    &&& forall|j: int, i: int|
        0 <= j < states.len() && 0 <= i < states[0].0->IntArray_0.elems.len() ==> fits_i64(
            #[trigger] term_at(states[j], i),
        )
    &&& forall|upto: int, i: int|
        1 <= upto <= states.len() && 0 <= i < states[0].0->IntArray_0.elems.len() ==> fits_i64(
            #[trigger] partial_sum_at(states, upto, i),
        )
}

/// The sum of the states: the axes of the first, and in each place the sum
/// over all states of the element in that place times the state's count.
pub open spec fn sum_model(states: Seq<(ValueView, usize)>) -> ValueView {
    let first = states[0].0->IntArray_0;
    ValueView::IntArray(
        IntArrayView {
            shape: first.shape,
            elems: Seq::new(
                first.elems.len(),
                |i: int| partial_sum_at(states, states.len() as int, i) as i64,
            ),
        },
    )
}

/// An array on its way into a sum: lent by a row that occurs once, or made for the sum.
pub enum ArraySumState<'a> {
    Borrowed(&'a IntArray),
    Owned(IntArray),
}

impl<'a> ArraySumState<'a> {
    /// The array that the state stands for.
    pub open spec fn array(self) -> IntArrayView {
        match self {
            ArraySumState::Borrowed(a) => a@,
            ArraySumState::Owned(a) => a@,
        }
    }

    /// The array of a row, counted `cnt` times. A row that occurs once lends
    /// its array; for any other count the multiple is computed once.
    pub fn new(value: &'a Value, cnt: usize) -> (r: Self)
        requires
            value@ is IntArray,
            1 <= cnt <= i64::MAX,
            forall|i: int|
                0 <= i < value@->IntArray_0.elems.len() ==> fits_i64(
                    #[trigger] term_at((value@, cnt), i),
                ),
        ensures
            r.array().shape == value@->IntArray_0.shape,
            r.array().elems.len() == value@->IntArray_0.elems.len(),
            forall|i: int|
                0 <= i < r.array().elems.len() ==> #[trigger] r.array().elems[i] == term_at(
                    (value@, cnt),
                    i,
                ),
    {
        match value {
            Value::IntArray(array) => {
                if cnt == 1 {
                    assert forall|i: int| 0 <= i < array@.elems.len() implies array@.elems[i]
                        == term_at((value@, cnt), i) by {
                        assert(array@.elems[i] * 1 == array@.elems[i]);
                    }
                    ArraySumState::Borrowed(array)
                } else {
                    assert forall|i: int| 0 <= i < array@.elems.len() implies i64::MIN
                        <= #[trigger] array@.elems[i] * (cnt as i64) <= i64::MAX by {
                        assert(fits_i64(term_at((value@, cnt), i)));
                    }
                    let scaled = array_scale(array, cnt as i64);
                    ArraySumState::Owned(scaled)
                }
            },
            _ => {
                proof {
                    assert(false);
                }
                ArraySumState::Owned(unreached())
            },
        }
    }

    /// The array itself, copied where it was lent.
    pub fn into_owned(self) -> (r: IntArray)
        ensures
            r@ == self.array(),
    {
        match self {
            ArraySumState::Borrowed(a) => a.clone(),
            ArraySumState::Owned(a) => a,
        }
    }

    /// The element-wise sum of two arrays with the same axes.
    pub fn add(self, rhs: ArraySumState<'a>) -> (r: ArraySumState<'a>)
        requires
            self.array().shape == rhs.array().shape,
            self.array().elems.len() == rhs.array().elems.len(),
            forall|i: int|
                0 <= i < self.array().elems.len() ==> fits_i64(
                    #[trigger] self.array().elems[i] + rhs.array().elems[i],
                ),
        ensures
            r.array().shape == self.array().shape,
            r.array().elems.len() == self.array().elems.len(),
            forall|i: int|
                0 <= i < r.array().elems.len() ==> #[trigger] r.array().elems[i]
                    == self.array().elems[i] + rhs.array().elems[i],
    {
        let lhs = self.into_owned();
        assert forall|i: int| 0 <= i < lhs@.elems.len() implies i64::MIN <= #[trigger] lhs@.elems[i]
            + rhs.array().elems[i] <= i64::MAX by {
            assert(fits_i64(self.array().elems[i] + rhs.array().elems[i]));
        }
        match rhs {
            ArraySumState::Borrowed(b) => ArraySumState::Owned(array_add(lhs, b)),
            ArraySumState::Owned(b) => ArraySumState::Owned(array_add(lhs, &b)),
        }
    }

    /// The array as a value.
    pub fn into_value(self) -> (r: Value)
        ensures
            r@ == ValueView::IntArray(self.array()),
    {
        Value::IntArray(self.into_owned())
    }
}

/// Adds element `i` of a state, counted as often as the state occurs, to `acc`.
pub open spec fn add_term(i: int) -> spec_fn(int, (ValueView, usize)) -> int {
    |acc: int, state: (ValueView, usize)| acc + term_at(state, i)
}

/// The sum of the first `upto` states is what adding their terms one by one gives.
proof fn lemma_partial_sum_is_fold(states: Seq<(ValueView, usize)>, upto: int, i: int)
    requires
        0 <= upto <= states.len(),
    ensures
        partial_sum_at(states, upto, i) == states.take(upto).fold_left(0int, add_term(i)),
    decreases upto,
{
    if upto > 0 {
        lemma_partial_sum_is_fold(states, upto - 1, i);
        assert(states.take(upto).drop_last() =~= states.take(upto - 1));
        assert(states.take(upto).last() == states[upto - 1]);
    }
}

/// The sum of all states does not depend on the order of the states.
proof fn lemma_total_any_order(a: Seq<(ValueView, usize)>, b: Seq<(ValueView, usize)>, i: int)
    requires
        a.to_multiset() == b.to_multiset(),
    ensures
        partial_sum_at(a, a.len() as int, i) == partial_sum_at(b, b.len() as int, i),
{
    let g = add_term(i);
    assert forall|x: (ValueView, usize), y: (ValueView, usize), v: int| #[trigger]
        g(g(v, x), y) == g(g(v, y), x) by {}
    lemma_partial_sum_is_fold(a, a.len() as int, i);
    lemma_partial_sum_is_fold(b, b.len() as int, i);
    assert(a.take(a.len() as int) =~= a);
    assert(b.take(b.len() as int) =~= b);
    vstd::seq_lib::lemma_fold_left_permutation(a, b, g, 0int);
}

/// The sum of two lists of states is the sum of the first list plus the sum
/// of as many states of the second.
proof fn lemma_partial_sum_concat(
    a: Seq<(ValueView, usize)>,
    b: Seq<(ValueView, usize)>,
    upto: int,
    i: int,
)
    requires
        0 <= upto <= b.len(),
    ensures
        partial_sum_at(a + b, a.len() + upto, i) == partial_sum_at(a, a.len() as int, i)
            + partial_sum_at(b, upto, i),
    decreases upto,
{
    if upto > 0 {
        lemma_partial_sum_concat(a, b, upto - 1, i);
        assert((a + b)[a.len() + upto - 1] == b[upto - 1]);
    } else {
        lemma_partial_sum_prefix(a, b, a.len() as int, i);
    }
}

/// The sum of the first states of a list does not depend on what follows them.
proof fn lemma_partial_sum_prefix(
    a: Seq<(ValueView, usize)>,
    b: Seq<(ValueView, usize)>,
    upto: int,
    i: int,
)
    requires
        0 <= upto <= a.len(),
    ensures
        partial_sum_at(a + b, upto, i) == partial_sum_at(a, upto, i),
    decreases upto,
{
    if upto > 0 {
        lemma_partial_sum_prefix(a, b, upto - 1, i);
        assert((a + b)[upto - 1] == a[upto - 1]);
    }
}

/// The sum of `n` times one state is the state's array times `n`.
proof fn lemma_copies_sum(state: ValueView, n: nat, i: int)
    ensures
        partial_sum_at(copies(state, n), n as int, i) == state->IntArray_0.elems[i] * n,
    decreases n,
{
    let x = state->IntArray_0.elems[i] as int;
    if n > 0 {
        let fewer = (n - 1) as nat;
        lemma_copies_sum(state, fewer, i);
        lemma_partial_sum_prefix(
            copies(state, fewer),
            seq![(state, 1usize)],
            fewer as int,
            i,
        );
        assert(copies(state, n) =~= copies(state, fewer) + seq![(state, 1usize)]);
        assert(x * 1 == x);
        assert(x * n == x * (n - 1) + x) by (nonlinear_arith);
    } else {
        assert(x * 0 == 0);
    }
}

/// Two groups that a list of arrays with one set of axes is parted into
/// start with arrays with those axes.
proof fn lemma_same_axes(
    all: Seq<(ValueView, usize)>,
    a: Seq<(ValueView, usize)>,
    b: Seq<(ValueView, usize)>,
)
    requires
        all.to_multiset() == a.to_multiset().add(b.to_multiset()),
        sum_defined(all),
        a.len() > 0,
        b.len() > 0,
    ensures
        a[0].0->IntArray_0.shape == all[0].0->IntArray_0.shape,
        b[0].0->IntArray_0.shape == all[0].0->IntArray_0.shape,
        a[0].0->IntArray_0.elems.len() == all[0].0->IntArray_0.elems.len(),
        b[0].0->IntArray_0.elems.len() == all[0].0->IntArray_0.elems.len(),
{
    lemma_parts_are_members(all, a, b);
    assert(a.contains(a[0]) && b.contains(b[0]));
    assert(all.contains(a[0]) && all.contains(b[0]));
    let i = choose|i: int| 0 <= i < all.len() && all[i] == a[0];
    let j = choose|j: int| 0 <= j < all.len() && all[j] == b[0];
    assert(all[i].0 is IntArray && all[j].0 is IntArray);
}

impl UnaryReducerImpl for ArraySumReducer {
    type State = Value;

    open spec fn init_defined(&self, key: Key, value: ValueView) -> bool {
        true
    }

    open spec fn init_model(&self, key: Key, value: ValueView) -> Option<ValueView> {
        Some(value)
    }

    open spec fn combine_defined(&self, states: Seq<(ValueView, usize)>) -> bool {
        sum_defined(states)
    }

    open spec fn combine_model(&self, states: Seq<(ValueView, usize)>) -> ValueView {
        sum_model(states)
    }

    open spec fn finish_model(&self, state: ValueView) -> ValueView {
        state
    }

    fn can_init(&self, _key: &Key, _value: &Value) -> (r: bool) {
        true
    }

    fn init_unary(&self, _key: &Key, value: &Value) -> (r: Option<Value>) {
        Some(value.clone())
    }

    fn can_combine(&self, values: &[(&Value, usize)]) -> (r: bool) {
        if values.len() == 0 || !counts_are_positive(values) {
            return false;
        }
        let ghost states = values.deep_view();
        assert(states[0] == (values@[0].0@, values@[0].1));
        let first: &IntArray = match values[0].0 {
            Value::IntArray(a) => a,
            _ => {
                return false;
            },
        };
        let shape = first.shape();
        let n = first.to_vec().len();
        let mut totals: Vec<i64> = Vec::with_capacity(n);
        while totals.len() < n
            invariant
                totals.len() <= n,
                forall|i: int| 0 <= i < totals.len() ==> totals@[i] == 0,
            decreases n - totals.len(),
        {
            totals.push(0);
        }
        let mut j: usize = 0;
        while j < values.len()
            invariant
                j <= values.len(),
                states == values.deep_view(),
                counts_positive(states),
                states.len() > 0,
                states[0].0 is IntArray,
                shape@ == states[0].0->IntArray_0.shape,
                n == states[0].0->IntArray_0.elems.len(),
                totals.len() == n,
                forall|k: int|
                    0 <= k < j ==> {
                        &&& (#[trigger] states[k]).0 is IntArray
                        &&& states[k].0->IntArray_0.shape == states[0].0->IntArray_0.shape
                        &&& states[k].0->IntArray_0.elems.len() == n
                        &&& states[k].1 <= i64::MAX
                    },
                forall|k: int, i: int|
                    0 <= k < j && 0 <= i < n ==> fits_i64(#[trigger] term_at(states[k], i)),
                forall|upto: int, i: int|
                    1 <= upto <= j && 0 <= i < n ==> fits_i64(
                        #[trigger] partial_sum_at(states, upto, i),
                    ),
                forall|i: int| 0 <= i < n ==> totals@[i] == partial_sum_at(states, j as int, i),
            decreases values.len() - j,
        {
            assert(states[j as int] == (values@[j as int].0@, values@[j as int].1));
            let cnt: usize = values[j].1;
            if cnt as u64 > 0x7FFF_FFFF_FFFF_FFFF_u64 {
                return false;
            }
            let array: &IntArray = match values[j].0 {
                Value::IntArray(a) => a,
                _ => {
                    return false;
                },
            };
            let axes = array.shape();
            proof {
                lemma_lex_equal(numbers(axes@), numbers(shape@));
                if numbers(axes@) == numbers(shape@) {
                    lemma_numbers_injective(axes@, shape@);
                }
            }
            match compare_numbers(axes.as_slice(), shape.as_slice()) {
                Comparison::Equal => {},
                _ => {
                    return false;
                },
            }
            let elems = array.to_vec();
            if elems.len() != n {
                return false;
            }
            let mut i: usize = 0;
            while i < n
                invariant
                    i <= n,
                    j < values.len(),
                    states == values.deep_view(),
                    n == states[0].0->IntArray_0.elems.len(),
                    totals.len() == n,
                    elems.len() == n,
                    states[j as int].0 is IntArray,
                    elems@ == states[j as int].0->IntArray_0.elems,
                    cnt == states[j as int].1,
                    1 <= cnt <= i64::MAX,
                    forall|upto: int, m: int|
                        1 <= upto <= j && 0 <= m < n ==> fits_i64(
                            #[trigger] partial_sum_at(states, upto, m),
                        ),
                    forall|m: int| 0 <= m < i ==> fits_i64(#[trigger] term_at(states[j as int], m)),
                    forall|m: int|
                        0 <= m < i ==> fits_i64(#[trigger] partial_sum_at(states, j + 1, m)),
                    forall|m: int| 0 <= m < i ==> totals@[m] == partial_sum_at(states, j + 1, m),
                    forall|m: int| i <= m < n ==> totals@[m] == partial_sum_at(states, j as int, m),
                decreases n - i,
            {
                let x: i64 = elems[i];
                assert(-0x4000_0000_0000_0000_0000_0000_0000_0000 <= x * cnt
                    <= 0x4000_0000_0000_0000_0000_0000_0000_0000) by (nonlinear_arith)
                    requires
                        -0x8000_0000_0000_0000 <= x <= 0x7FFF_FFFF_FFFF_FFFF,
                        0 <= cnt <= 0x7FFF_FFFF_FFFF_FFFF,
                ;
                let term: i128 = (x as i128) * (cnt as i128);
                assert(term == term_at(states[j as int], i as int));
                if term < i64::MIN as i128 || term > i64::MAX as i128 {
                    return false;
                }
                let sum: i128 = (totals[i] as i128) + term;
                assert(sum == partial_sum_at(states, j + 1, i as int));
                if sum < i64::MIN as i128 || sum > i64::MAX as i128 {
                    assert(!fits_i64(partial_sum_at(states, j + 1, i as int)));
                    return false;
                }
                totals.set(i, sum as i64);
                i = i + 1;
            }
            j = j + 1;
        }
        true
    }

    fn combine(&self, values: &[(&Value, usize)]) -> (r: Value) {
        let ghost states = values.deep_view();
        let ghost first = states[0].0->IntArray_0;
        assert(states[0] == (values@[0].0@, values@[0].1));
        assert forall|i: int| 0 <= i < first.elems.len() implies fits_i64(
            #[trigger] term_at((values@[0].0@, values@[0].1), i),
        ) by {
            assert(fits_i64(term_at(states[0], i)));
        }
        let mut acc = ArraySumState::new(values[0].0, values[0].1);
        let mut j: usize = 1;
        assert forall|i: int| 0 <= i < first.elems.len() implies #[trigger] acc.array().elems[i]
            == partial_sum_at(states, 1, i) by {
            assert(partial_sum_at(states, 0, i) == 0);
        }
        while j < values.len()
            invariant
                1 <= j <= values.len(),
                states == values.deep_view(),
                first == states[0].0->IntArray_0,
                counts_positive(states),
                sum_defined(states),
                acc.array().shape == first.shape,
                acc.array().elems.len() == first.elems.len(),
                forall|i: int|
                    0 <= i < first.elems.len() ==> #[trigger] acc.array().elems[i]
                        == partial_sum_at(states, j as int, i),
            decreases values.len() - j,
        {
            assert(states[j as int] == (values@[j as int].0@, values@[j as int].1));
            assert forall|i: int| 0 <= i < first.elems.len() implies fits_i64(
                #[trigger] term_at((values@[j as int].0@, values@[j as int].1), i),
            ) by {
                assert(fits_i64(term_at(states[j as int], i)));
            }
            let next = ArraySumState::new(values[j].0, values[j].1);
            assert forall|i: int| 0 <= i < acc.array().elems.len() implies fits_i64(
                #[trigger] acc.array().elems[i] + next.array().elems[i],
            ) by {
                assert(fits_i64(partial_sum_at(states, j + 1, i)));
                assert(next.array().elems[i] == term_at(states[j as int], i));
            }
            let ghost before = acc.array();
            acc = acc.add(next);
            assert forall|i: int| 0 <= i < first.elems.len() implies #[trigger] acc.array().elems[i]
                == partial_sum_at(states, j + 1, i) by {
                assert(before.elems[i] == partial_sum_at(states, j as int, i));
                assert(next.array().elems[i] == term_at(states[j as int], i));
            }
            j = j + 1;
        }
        let ghost total = acc.array();
        assert(total.elems =~= sum_model(states)->IntArray_0.elems) by {
            assert forall|i: int| 0 <= i < first.elems.len() implies total.elems[i]
                == partial_sum_at(states, states.len() as int, i) as i64 by {
                assert(fits_i64(partial_sum_at(states, states.len() as int, i)));
            }
        }
        acc.into_value()
    }

    fn finish(&self, state: Value) -> (r: Value) {
        state
    }

    proof fn lemma_combine_partition(
        &self,
        all: Seq<(ValueView, usize)>,
        a: Seq<(ValueView, usize)>,
        b: Seq<(ValueView, usize)>,
    ) {
        let sum_a = sum_model(a);
        let sum_b = sum_model(b);
        let merged = pair_of(sum_a, sum_b);
        let n = all[0].0->IntArray_0.elems.len() as int;
        lemma_same_axes(all, a, b);
        assert(merged[0] == (sum_a, 1usize) && merged[1] == (sum_b, 1usize));
        assert forall|i: int| 0 <= i < n implies {
            &&& term_at(merged[0], i) == partial_sum_at(a, a.len() as int, i)
            &&& term_at(merged[1], i) == partial_sum_at(b, b.len() as int, i)
            &&& partial_sum_at(merged, 1, i) == partial_sum_at(a, a.len() as int, i)
            &&& #[trigger] partial_sum_at(merged, 2, i) == partial_sum_at(
                all,
                all.len() as int,
                i,
            )
            &&& fits_i64(partial_sum_at(all, all.len() as int, i))
        } by {
            let ta = partial_sum_at(a, a.len() as int, i);
            let tb = partial_sum_at(b, b.len() as int, i);
            assert(fits_i64(ta));
            assert(fits_i64(tb));
            assert(fits_i64(partial_sum_at(all, all.len() as int, i)));
            assert(sum_a->IntArray_0.elems[i] == ta);
            assert(sum_b->IntArray_0.elems[i] == tb);
            assert(term_at(merged[0], i) == ta) by {
                assert(ta * 1 == ta);
            }
            assert(term_at(merged[1], i) == tb) by {
                assert(tb * 1 == tb);
            }
            lemma_partial_sum_concat(a, b, b.len() as int, i);
            lemma_multiset_commutative(a, b);
            lemma_total_any_order(a + b, all, i);
            assert(partial_sum_at(merged, 0, i) == 0);
            assert(partial_sum_at(merged, 1, i) == partial_sum_at(merged, 0, i) + term_at(
                merged[0],
                i,
            ));
            assert(partial_sum_at(merged, 2, i) == partial_sum_at(merged, 1, i) + term_at(
                merged[1],
                i,
            ));
        }
        assert(sum_defined(merged)) by {
            assert forall|j: int, i: int| 0 <= j < merged.len() && 0 <= i < n implies fits_i64(
                #[trigger] term_at(merged[j], i),
            ) by {
                assert(fits_i64(partial_sum_at(a, a.len() as int, i)));
                assert(fits_i64(partial_sum_at(b, b.len() as int, i)));
                assert(partial_sum_at(merged, 2, i) == partial_sum_at(all, all.len() as int, i));
            }
            assert forall|upto: int, i: int|
                1 <= upto <= merged.len() && 0 <= i < n implies fits_i64(
                #[trigger] partial_sum_at(merged, upto, i),
            ) by {
                assert(fits_i64(partial_sum_at(a, a.len() as int, i)));
                assert(partial_sum_at(merged, 2, i) == partial_sum_at(all, all.len() as int, i));
            }
        }
        assert(sum_model(merged)->IntArray_0.elems =~= sum_model(all)->IntArray_0.elems);
    }

    proof fn lemma_combine_order(&self, a: Seq<(ValueView, usize)>, b: Seq<(ValueView, usize)>) {
        a.to_multiset_ensures();
        b.to_multiset_ensures();
        assert(b.contains(b[0]));
        assert(b.to_multiset().count(b[0]) > 0);
        assert(a.contains(b[0]));
        let k = choose|k: int| 0 <= k < a.len() && a[k] == b[0];
        assert(a[k].0->IntArray_0.shape == a[0].0->IntArray_0.shape);
        let n = a[0].0->IntArray_0.elems.len() as int;
        assert(sum_model(a)->IntArray_0.elems =~= sum_model(b)->IntArray_0.elems) by {
            assert forall|i: int| 0 <= i < n implies partial_sum_at(a, a.len() as int, i)
                == partial_sum_at(b, b.len() as int, i) by {
                lemma_total_any_order(a, b, i);
            }
        }
    }

    proof fn lemma_combine_count(&self, state: ValueView, n: usize, rest: Seq<(ValueView, usize)>) {
        let once = counted(state, n) + rest;
        let often = copies(state, n as nat) + rest;
        assert(once[0] == (state, n));
        assert(often[0] == (state, 1usize));
        let len = state->IntArray_0.elems.len() as int;
        assert(sum_model(once)->IntArray_0.elems =~= sum_model(often)->IntArray_0.elems) by {
            assert forall|i: int| 0 <= i < len implies partial_sum_at(once, once.len() as int, i)
                == partial_sum_at(often, often.len() as int, i) by {
                lemma_partial_sum_concat(counted(state, n), rest, rest.len() as int, i);
                lemma_partial_sum_concat(copies(state, n as nat), rest, rest.len() as int, i);
                lemma_copies_sum(state, n as nat, i);
                assert(partial_sum_at(counted(state, n), 1, i) == term_at((state, n), i)) by {
                    assert(partial_sum_at(counted(state, n), 0, i) == 0);
                }
            }
        }
    }
}

} // verus!
