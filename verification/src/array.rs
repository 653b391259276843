//! Dynamic-dimensional integer arrays, kept in `ndarray` and read through contracts.
//!
//! Verus sees nothing inside an `ndarray` array. What an array holds is named
//! by `int_array_shape` and `int_array_elems`, and each call into `ndarray`
//! stands in one small function whose contract is believed, not proved.

use crate::order::{
    compare_numbers, lemma_lex_equal, lemma_numbers_injective, lex_order, numbers, Comparison,
};
use vstd::prelude::*;

verus! {

/// An owned array of 64-bit integers with any number of axes.
#[verifier::external_body]
#[derive(Debug, PartialEq, Eq)]
pub struct IntArray {
    inner: ndarray::ArrayD<i64>,
}

/// The lengths of the axes of an array.
pub uninterp spec fn int_array_shape(a: IntArray) -> Seq<usize>;

/// The elements of an array in logical order: the last index varies fastest.
pub uninterp spec fn int_array_elems(a: IntArray) -> Seq<i64>;

/// What an array is to a contract: its axes and its elements.
pub struct IntArrayView {
    pub shape: Seq<usize>,
    pub elems: Seq<i64>,
}

impl View for IntArray {
    type V = IntArrayView;

    open spec fn view(&self) -> IntArrayView {
        IntArrayView { shape: int_array_shape(*self), elems: int_array_elems(*self) }
    }
}

/// The number of elements of an array with these axes.
pub open spec fn shape_volume(shape: Seq<usize>) -> nat
    decreases shape.len(),
{
    if shape.len() == 0 {
        1
    } else {
        shape_volume(shape.drop_last()) * (shape.last() as nat)
    }
}

/// The product of the axis lengths that are not zero.
pub open spec fn shape_nonzero_volume(shape: Seq<usize>) -> nat
    decreases shape.len(),
{
    if shape.len() == 0 {
        1
    } else if shape.last() == 0 {
        shape_nonzero_volume(shape.drop_last())
    } else {
        shape_nonzero_volume(shape.drop_last()) * (shape.last() as nat)
    }
}

/// Whether `a * k` is a 64-bit integer for every element `a`.
pub open spec fn scale_fits(elems: Seq<i64>, k: i64) -> bool {
    forall|i: int| 0 <= i < elems.len() ==> i64::MIN <= #[trigger] elems[i] * k <= i64::MAX
}

/// Whether `a + b` is a 64-bit integer for every pair of elements in one place.
pub open spec fn sum_fits(a: Seq<i64>, b: Seq<i64>) -> bool {
    forall|i: int| 0 <= i < a.len() ==> i64::MIN <= #[trigger] a[i] + b[i] <= i64::MAX
}

/// `ArrayD::from_shape_vec` with a dynamic shape and the default strides: the
/// array has the given axes and, in logical order, the given elements. It is
/// refused when the axes do not hold exactly that many elements, or when the
/// product of the non-zero axis lengths is above `isize::MAX`.
#[verifier::external_body]
fn array_from_shape_vec(shape: &Vec<usize>, elems: Vec<i64>) -> (r: Option<IntArray>)
    ensures
        r.is_some() == (shape_volume(shape@) == elems@.len() && shape_nonzero_volume(shape@)
            <= isize::MAX),
        r matches Some(a) ==> int_array_shape(a) == shape@ && int_array_elems(a) == elems@,
{
    match ndarray::ArrayD::from_shape_vec(ndarray::IxDyn(shape), elems) {
        Ok(inner) => Some(IntArray { inner }),
        Err(_) => None,
    }
}

/// `ArrayBase::shape`: the axis lengths.
#[verifier::external_body]
fn array_shape(a: &IntArray) -> (r: Vec<usize>)
    ensures
        r@ == int_array_shape(*a),
{
    a.inner.shape().to_vec()
}

/// `ArrayBase::iter`: the elements in logical order.
#[verifier::external_body]
fn array_elems(a: &IntArray) -> (r: Vec<i64>)
    ensures
        r@ == int_array_elems(*a),
{
    a.inner.iter().copied().collect()
}

/// `Clone` of an owned array: the same axes and the same elements.
#[verifier::external_body]
fn array_clone(a: &IntArray) -> (r: IntArray)
    ensures
        int_array_shape(r) == int_array_shape(*a),
        int_array_elems(r) == int_array_elems(*a),
{
    IntArray { inner: a.inner.clone() }
}

/// `&array * scalar`: an array with the same axes, each element multiplied by
/// the scalar. The multiplication is `i64`'s, which may panic on overflow.
#[verifier::external_body]
pub(crate) fn array_scale(a: &IntArray, k: i64) -> (r: IntArray)
    requires
        scale_fits(int_array_elems(*a), k),
    ensures
        int_array_shape(r) == int_array_shape(*a),
        int_array_elems(r).len() == int_array_elems(*a).len(),
        forall|i: int|
            0 <= i < int_array_elems(r).len() ==> #[trigger] int_array_elems(r)[i]
                == int_array_elems(*a)[i] * k,
{
    IntArray { inner: &a.inner * k }
}

/// `array + &array` on two arrays with the same axes: an array with those axes,
/// each element the sum of the two in its place. The addition is `i64`'s,
/// which may panic on overflow.
#[verifier::external_body]
pub(crate) fn array_add(a: IntArray, b: &IntArray) -> (r: IntArray)
    requires
        int_array_shape(a) == int_array_shape(*b),
        sum_fits(int_array_elems(a), int_array_elems(*b)),
    ensures
        int_array_shape(r) == int_array_shape(a),
        int_array_elems(r).len() == int_array_elems(a).len(),
        forall|i: int|
            0 <= i < int_array_elems(r).len() ==> #[trigger] int_array_elems(r)[i]
                == int_array_elems(a)[i] + int_array_elems(*b)[i],
{
    IntArray { inner: a.inner + &b.inner }
}

/// The order of two arrays: by their axes, then by their elements.
pub open spec fn int_array_order(a: IntArrayView, b: IntArrayView) -> Comparison {
    lex_order(numbers(a.shape), numbers(b.shape)).or_tie(
        lex_order(numbers(a.elems), numbers(b.elems)),
    )
}

/// Two arrays tie exactly when they are one array.
pub proof fn lemma_int_array_order_equal(a: IntArrayView, b: IntArrayView)
    ensures
        int_array_order(a, b) == Comparison::Equal <==> a == b,
{
    lemma_lex_equal(numbers(a.shape), numbers(b.shape));
    lemma_lex_equal(numbers(a.elems), numbers(b.elems));
    if numbers(a.shape) == numbers(b.shape) {
        lemma_numbers_injective(a.shape, b.shape);
    }
    if numbers(a.elems) == numbers(b.elems) {
        lemma_numbers_injective(a.elems, b.elems);
    }
}

impl IntArray {
    /// The array with the given axes and, in logical order, the given
    /// elements; `None` when the axes do not hold exactly that many elements
    /// or are too large to address.
    pub fn from_shape_vec(shape: &Vec<usize>, elems: Vec<i64>) -> (r: Option<IntArray>)
        ensures
            r is Some <==> shape_volume(shape@) == elems@.len() && shape_nonzero_volume(shape@)
                <= isize::MAX,
            r matches Some(a) ==> a@.shape == shape@ && a@.elems == elems@,
    {
        array_from_shape_vec(shape, elems)
    }

    /// The lengths of the axes.
    pub fn shape(&self) -> (r: Vec<usize>)
        ensures
            r@ == self@.shape,
    {
        array_shape(self)
    }

    /// The elements in logical order.
    pub fn to_vec(&self) -> (r: Vec<i64>)
        ensures
            r@ == self@.elems,
    {
        array_elems(self)
    }

    /// How this array stands to `other`: by their axes, then by their elements.
    pub fn compare(&self, other: &IntArray) -> (r: Comparison)
        ensures
            r == int_array_order(self@, other@),
    {
        let by_shape = compare_numbers(self.shape().as_slice(), other.shape().as_slice());
        match by_shape {
            Comparison::Equal => compare_numbers(
                self.to_vec().as_slice(),
                other.to_vec().as_slice(),
            ),
            _ => by_shape,
        }
    }
}

impl Clone for IntArray {
    fn clone(&self) -> (r: Self)
        ensures
            r@ == self@,
    {
        array_clone(self)
    }
}

} // verus!
