//! 64-bit floats, held by their bits and ordered without floating-point arithmetic.

use crate::array::IntArray;
use crate::order::{
    compare_numbers, lemma_lex_equal, lemma_numbers_injective, lex_order, lex_order_from, numbers,
    Comparison,
};
use vstd::prelude::*;

verus! {

/// The bit that holds the sign of a 64-bit float.
pub const SIGN_BIT: u64 = 0x8000_0000_0000_0000_u64;

/// The bits of positive infinity: every larger magnitude is a NaN.
pub const INFINITY_BITS: u64 = 0x7FF0_0000_0000_0000_u64;

/// The place in the order of floats of the float with this sign and these
/// other bits: the larger the float, the larger the place. The two zeros
/// have one place, and all NaNs have one place after all numbers.
pub open spec fn place_of(negative: bool, magnitude: int) -> int {
    if magnitude > INFINITY_BITS {
        SIGN_BIT as int
    } else if negative {
        -magnitude
    } else {
        magnitude
    }
}

/// The place of the float whose bits, read as a signed integer, are `x`.
pub open spec fn signed_place(x: i64) -> int {
    place_of(
        x < 0,
        if x < 0 {
            x - i64::MIN
        } else {
            x as int
        },
    )
}

/// The places of floats given by their bits, read as signed integers.
pub open spec fn signed_places(bits: Seq<i64>) -> Seq<int> {
    bits.map_values(|x: i64| signed_place(x))
}

/// The place of the float whose bits, read as a signed integer, are `x`.
pub fn signed_order_place(x: i64) -> (r: i128)
    ensures
        r == signed_place(x),
{
    let magnitude: i128 = if x < 0 {
        x as i128 - i64::MIN as i128
    } else {
        x as i128
    };
    if magnitude > INFINITY_BITS as i128 {
        SIGN_BIT as i128
    } else if x < 0 {
        -magnitude
    } else {
        magnitude
    }
}

/// The lexicographic order of two lists of floats, given by their bits read
/// as signed integers.
pub fn compare_places(a: &[i64], b: &[i64]) -> (r: Comparison)
    ensures
        r == lex_order(signed_places(a@), signed_places(b@)),
{
    let ghost x = signed_places(a@);
    let ghost y = signed_places(b@);
    let mut i: usize = 0;
    while i < a.len() && i < b.len()
        invariant
            i <= a.len(),
            i <= b.len(),
            x == signed_places(a@),
            y == signed_places(b@),
            lex_order(x, y) == lex_order_from(x, y, i as int),
        decreases a.len() - i,
    {
        let p = signed_order_place(a[i]);
        let q = signed_order_place(b[i]);
        if p < q {
            return Comparison::Less;
        }
        if p > q {
            return Comparison::Greater;
        }
        i = i + 1;
    }
    if i < b.len() {
        Comparison::Less
    } else if i < a.len() {
        Comparison::Greater
    } else {
        Comparison::Equal
    }
}

/// A 64-bit float, held by its IEEE-754 bits.
///
/// Floats are ordered as numbers, with two additions that make the order
/// total: the two zeros are one value, and every NaN is one value that comes
/// after all numbers. Two floats are equal when they have one place in that order.
#[derive(Clone, Copy, Debug)]
pub struct Float(pub u64);

impl Float {
    /// The place of the float in the order of floats.
    pub open spec fn place(self) -> int {
        place_of(
            self.0 >= SIGN_BIT,
            if self.0 >= SIGN_BIT {
                self.0 - SIGN_BIT
            } else {
                self.0 as int
            },
        )
    }

    /// The place of the float in the order of floats.
    pub fn order_place(&self) -> (r: i128)
        ensures
            r == self.place(),
    {
        let negative = self.0 >= SIGN_BIT;
        let magnitude: u64 = if negative {
            self.0 - SIGN_BIT
        } else {
            self.0
        };
        if magnitude > INFINITY_BITS {
            SIGN_BIT as i128
        } else if negative {
            -(magnitude as i128)
        } else {
            magnitude as i128
        }
    }
}

impl PartialEq for Float {
    fn eq(&self, other: &Float) -> (r: bool) {
        self.order_place() == other.order_place()
    }
}

impl vstd::std_specs::cmp::PartialEqSpecImpl for Float {
    open spec fn obeys_eq_spec() -> bool {
        true
    }

    open spec fn eq_spec(&self, other: &Float) -> bool {
        self.place() == other.place()
    }
}

impl Eq for Float {

}

/// An array of 64-bit floats: the array of their IEEE-754 bits, read as
/// signed integers.
///
/// Two arrays are equal when they have the same axes and, in each place,
/// floats with one place in the order of floats.
#[derive(Debug)]
pub struct FloatArray(pub IntArray);

/// What an array of floats is to a contract: its axes and the places of its
/// elements in the order of floats.
pub struct FloatArrayView {
    pub shape: Seq<usize>,
    pub places: Seq<int>,
}

impl View for FloatArray {
    type V = FloatArrayView;

    open spec fn view(&self) -> FloatArrayView {
        FloatArrayView { shape: self.0@.shape, places: signed_places(self.0@.elems) }
    }
}

impl Clone for FloatArray {
    fn clone(&self) -> (r: Self)
        ensures
            r@ == self@,
    {
        FloatArray(self.0.clone())
    }
}

/// The order of two arrays of floats: by their axes, then by their elements.
pub open spec fn float_array_order(a: FloatArrayView, b: FloatArrayView) -> Comparison {
    lex_order(numbers(a.shape), numbers(b.shape)).or_tie(
        lex_order(a.places, b.places),
    )
}

/// Two arrays of floats tie exactly when they are one array.
pub proof fn lemma_float_array_order_equal(a: FloatArrayView, b: FloatArrayView)
    ensures
        float_array_order(a, b) == Comparison::Equal <==> a == b,
{
    lemma_lex_equal(numbers(a.shape), numbers(b.shape));
    lemma_lex_equal(a.places, b.places);
    if numbers(a.shape) == numbers(b.shape) {
        lemma_numbers_injective(a.shape, b.shape);
    }
}

impl FloatArray {
    /// How this array stands to `other`: by their axes, then by their elements.
    pub fn compare(&self, other: &FloatArray) -> (r: Comparison)
        ensures
            r == float_array_order(self@, other@),
    {
        let by_shape = compare_numbers(self.0.shape().as_slice(), other.0.shape().as_slice());
        match by_shape {
            Comparison::Equal => compare_places(
                self.0.to_vec().as_slice(),
                other.0.to_vec().as_slice(),
            ),
            _ => by_shape,
        }
    }
}

impl PartialEq for FloatArray {
    fn eq(&self, other: &FloatArray) -> (r: bool) {
        proof {
            lemma_float_array_order_equal(self@, other@);
        }
        match self.compare(other) {
            Comparison::Equal => true,
            _ => false,
        }
    }
}

impl vstd::std_specs::cmp::PartialEqSpecImpl for FloatArray {
    open spec fn obeys_eq_spec() -> bool {
        true
    }

    open spec fn eq_spec(&self, other: &FloatArray) -> bool {
        self@ == other@
    }
}

impl Eq for FloatArray {

}

} // verus!
