//! The values that rows hold, and their total order.

use crate::array::{int_array_order, lemma_int_array_order_equal, IntArray, IntArrayView};
use crate::float::{
    float_array_order, lemma_float_array_order_equal, Float, FloatArray, FloatArrayView,
};
use crate::key::Key;
use crate::order::{
    compare_numbers, int_order, lemma_lex_equal, lemma_lex_flip, lemma_lex_transitive,
    lemma_numbers_injective, lex_order, numbers, Comparison,
};
use vstd::prelude::*;
use vstd::utf8::encode_utf8;

verus! {

/// A value of a row: a tagged union, totally ordered across and within its variants.
#[derive(Debug, PartialEq, Eq)]
pub enum Value {
    /// The absent value.
    Absent,
    Int(i64),
    Float(Float),
    /// A reference to a row.
    Pointer(Key),
    String(String),
    Tuple(Vec<Value>),
    IntArray(IntArray),
    FloatArray(FloatArray),
}

/// What a value is to a contract.
///
/// A float is its place in the order, so that floats that compare equal are
/// one value; a string is its UTF-8 bytes, by which strings are ordered.
pub enum ValueView {
    Absent,
    Int(i64),
    Float(int),
    Pointer(Key),
    String(Seq<u8>),
    Tuple(Seq<ValueView>),
    IntArray(IntArrayView),
    FloatArray(FloatArrayView),
}

/// The view of a value.
pub open spec fn value_view(v: Value) -> ValueView
    decreases v,
{
    match v {
        Value::Absent => ValueView::Absent,
        Value::Int(i) => ValueView::Int(i),
        Value::Float(f) => ValueView::Float(f.place()),
        Value::Pointer(k) => ValueView::Pointer(k),
        Value::String(s) => ValueView::String(encode_utf8(s@)),
        Value::Tuple(items) => ValueView::Tuple(
            Seq::new(
                items@.len(),
                |i: int|
                    if 0 <= i < items@.len() {
                        value_view(items@[i])
                    } else {
                        ValueView::Absent
                    },
            ),
        ),
        Value::IntArray(a) => ValueView::IntArray(a@),
        Value::FloatArray(a) => ValueView::FloatArray(a@),
    }
}

impl View for Value {
    type V = ValueView;

    open spec fn view(&self) -> ValueView {
        value_view(*self)
    }
}

impl DeepView for Value {
    type V = ValueView;

    open spec fn deep_view(&self) -> ValueView {
        value_view(*self)
    }
}

/// The place of a variant among the variants: values of different variants
/// are ordered by it.
pub open spec fn variant_rank(v: ValueView) -> int {
    match v {
        ValueView::Absent => 0,
        ValueView::Int(_) => 1,
        ValueView::Float(_) => 2,
        ValueView::Pointer(_) => 3,
        ValueView::String(_) => 4,
        ValueView::Tuple(_) => 5,
        ValueView::IntArray(_) => 6,
        ValueView::FloatArray(_) => 7,
    }
}

/// The total order of values.
///
/// Values of different variants are ordered by variant, the absent value
/// first. Within a variant: integers, floats and keys by their numbers,
/// strings by their bytes, tuples item by item with a proper prefix first,
/// arrays by their axes and then by their elements, integer arrays before
/// arrays of floats.
pub open spec fn value_order(a: ValueView, b: ValueView) -> Comparison
    decreases a, 0nat,
{
    match (a, b) {
        (ValueView::Absent, ValueView::Absent) => Comparison::Equal,
        (ValueView::Int(x), ValueView::Int(y)) => int_order(x as int, y as int),
        (ValueView::Float(x), ValueView::Float(y)) => int_order(x, y),
        (ValueView::Pointer(x), ValueView::Pointer(y)) => int_order(x.0 as int, y.0 as int),
        (ValueView::String(x), ValueView::String(y)) => lex_order(
            numbers(x),
            numbers(y),
        ),
        (ValueView::Tuple(x), ValueView::Tuple(y)) => tuple_order_from(x, y, 0),
        (ValueView::IntArray(x), ValueView::IntArray(y)) => int_array_order(x, y),
        (ValueView::FloatArray(x), ValueView::FloatArray(y)) => float_array_order(x, y),
        _ => int_order(variant_rank(a), variant_rank(b)),
    }
}

/// The order of two tuples from position `from` on.
pub open spec fn tuple_order_from(a: Seq<ValueView>, b: Seq<ValueView>, from: int) -> Comparison
    decreases a, a.len() - from,
{
    if from < 0 || from >= a.len() {
        if from >= b.len() {
            Comparison::Equal
        } else {
            Comparison::Less
        }
    } else if from >= b.len() {
        Comparison::Greater
    } else {
        value_order(a[from], b[from]).or_tie(tuple_order_from(a, b, from + 1))
    }
}

/// Whether `a` comes before `b` or is `b`.
pub open spec fn value_le(a: ValueView, b: ValueView) -> bool {
    value_order(a, b) != Comparison::Greater
}

/// Two values tie exactly when they are one value.
pub proof fn lemma_value_order_equal(a: ValueView, b: ValueView)
    ensures
        value_order(a, b) == Comparison::Equal <==> a == b,
    decreases a, 0nat,
{
    match (a, b) {
        (ValueView::String(x), ValueView::String(y)) => {
            lemma_lex_equal(numbers(x), numbers(y));
            if numbers(x) == numbers(y) {
                lemma_numbers_injective(x, y);
            }
        },
        (ValueView::Tuple(x), ValueView::Tuple(y)) => {
            lemma_tuple_order_equal_from(x, y, 0);
            if value_order(a, b) == Comparison::Equal {
                assert(x =~= y);
            }
        },
        (ValueView::IntArray(x), ValueView::IntArray(y)) => {
            lemma_int_array_order_equal(x, y);
        },
        (ValueView::FloatArray(x), ValueView::FloatArray(y)) => {
            lemma_float_array_order_equal(x, y);
        },
        _ => {},
    }
}

/// From `from` on, two tuples tie exactly when they agree.
proof fn lemma_tuple_order_equal_from(a: Seq<ValueView>, b: Seq<ValueView>, from: int)
    requires
        0 <= from,
    ensures
        tuple_order_from(a, b, from) == Comparison::Equal <==> {
            &&& a.len() == b.len() || (from >= a.len() && from >= b.len())
            &&& forall|i: int| from <= i < a.len() && i < b.len() ==> a[i] == b[i]
        },
    decreases a, a.len() - from,
{
    if from < a.len() && from < b.len() {
        lemma_value_order_equal(a[from], b[from]);
        lemma_tuple_order_equal_from(a, b, from + 1);
    }
}

/// Exchanging the sides exchanges `Less` and `Greater`.
pub proof fn lemma_value_order_flip(a: ValueView, b: ValueView)
    ensures
        value_order(b, a) == value_order(a, b).flip(),
    decreases a, 0nat,
{
    match (a, b) {
        (ValueView::String(x), ValueView::String(y)) => {
            lemma_lex_flip(numbers(x), numbers(y));
        },
        (ValueView::Tuple(x), ValueView::Tuple(y)) => {
            lemma_tuple_order_flip_from(x, y, 0);
        },
        (ValueView::IntArray(x), ValueView::IntArray(y)) => {
            lemma_lex_flip(numbers(x.shape), numbers(y.shape));
            lemma_lex_flip(numbers(x.elems), numbers(y.elems));
        },
        (ValueView::FloatArray(x), ValueView::FloatArray(y)) => {
            lemma_lex_flip(numbers(x.shape), numbers(y.shape));
            lemma_lex_flip(x.places, y.places);
        },
        _ => {},
    }
}

/// Exchanging the sides of two tuples exchanges `Less` and `Greater`.
proof fn lemma_tuple_order_flip_from(a: Seq<ValueView>, b: Seq<ValueView>, from: int)
    requires
        0 <= from,
    ensures
        tuple_order_from(b, a, from) == tuple_order_from(a, b, from).flip(),
    decreases a, a.len() - from,
{
    if from < a.len() && from < b.len() {
        lemma_value_order_flip(a[from], b[from]);
        lemma_tuple_order_flip_from(a, b, from + 1);
    }
}

/// `Less` carries over a middle value.
pub proof fn lemma_value_order_transitive(a: ValueView, b: ValueView, c: ValueView)
    requires
        value_order(a, b) == Comparison::Less,
        value_order(b, c) == Comparison::Less,
    ensures
        value_order(a, c) == Comparison::Less,
    decreases a, 0nat,
{
    match (a, b, c) {
        (ValueView::String(x), ValueView::String(y), ValueView::String(z)) => {
            lemma_lex_transitive(numbers(x), numbers(y), numbers(z));
        },
        (ValueView::Tuple(x), ValueView::Tuple(y), ValueView::Tuple(z)) => {
            lemma_tuple_order_transitive_from(x, y, z, 0);
        },
        (ValueView::IntArray(x), ValueView::IntArray(y), ValueView::IntArray(z)) => {
            let (sx, sy, sz) = (
                numbers(x.shape),
                numbers(y.shape),
                numbers(z.shape),
            );
            let (ex, ey, ez) = (
                numbers(x.elems),
                numbers(y.elems),
                numbers(z.elems),
            );
            lemma_lex_equal(sx, sy);
            lemma_lex_equal(sy, sz);
            lemma_lex_equal(sx, sz);
            if lex_order(sx, sy) == Comparison::Less && lex_order(sy, sz) == Comparison::Less {
                lemma_lex_transitive(sx, sy, sz);
            } else if lex_order(sx, sy) == Comparison::Equal && lex_order(sy, sz)
                == Comparison::Equal {
                lemma_lex_transitive(ex, ey, ez);
            }
        },
        (ValueView::FloatArray(x), ValueView::FloatArray(y), ValueView::FloatArray(z)) => {
            let (sx, sy, sz) = (
                numbers(x.shape),
                numbers(y.shape),
                numbers(z.shape),
            );
            lemma_lex_equal(sx, sy);
            lemma_lex_equal(sy, sz);
            lemma_lex_equal(sx, sz);
            if lex_order(sx, sy) == Comparison::Less && lex_order(sy, sz) == Comparison::Less {
                lemma_lex_transitive(sx, sy, sz);
            } else if lex_order(sx, sy) == Comparison::Equal && lex_order(sy, sz)
                == Comparison::Equal {
                lemma_lex_transitive(x.places, y.places, z.places);
            }
        },
        _ => {},
    }
}

/// `Less` carries over a middle tuple.
proof fn lemma_tuple_order_transitive_from(
    a: Seq<ValueView>,
    b: Seq<ValueView>,
    c: Seq<ValueView>,
    from: int,
)
    requires
        0 <= from,
        tuple_order_from(a, b, from) == Comparison::Less,
        tuple_order_from(b, c, from) == Comparison::Less,
    ensures
        tuple_order_from(a, c, from) == Comparison::Less,
    decreases a, a.len() - from,
{
    if from < a.len() && from < b.len() && from < c.len() {
        let ab = value_order(a[from], b[from]);
        let bc = value_order(b[from], c[from]);
        lemma_value_order_equal(a[from], b[from]);
        lemma_value_order_equal(b[from], c[from]);
        lemma_value_order_equal(a[from], c[from]);
        if ab == Comparison::Less && bc == Comparison::Less {
            lemma_value_order_transitive(a[from], b[from], c[from]);
        } else if ab == Comparison::Equal && bc == Comparison::Equal {
            lemma_tuple_order_transitive_from(a, b, c, from + 1);
        }
    }
}

/// What makes `value_order` a total order, for three values at once: ties
/// are equalities, exchanging the sides exchanges `Less` and `Greater`, and
/// the order carries over the middle value.
pub proof fn lemma_value_order_total(a: ValueView, b: ValueView, c: ValueView)
    ensures
        value_order(a, b) == Comparison::Equal <==> a == b,
        value_order(b, c) == Comparison::Equal <==> b == c,
        value_order(a, c) == Comparison::Equal <==> a == c,
        value_order(b, a) == value_order(a, b).flip(),
        value_order(c, b) == value_order(b, c).flip(),
        value_order(c, a) == value_order(a, c).flip(),
        value_order(a, b) != Comparison::Greater && value_order(b, c) != Comparison::Greater
            ==> value_order(a, c) != Comparison::Greater,
        value_order(a, b) != Comparison::Less && value_order(b, c) != Comparison::Less
            ==> value_order(a, c) != Comparison::Less,
{
    lemma_value_order_equal(a, b);
    lemma_value_order_equal(b, c);
    lemma_value_order_equal(a, c);
    lemma_value_order_flip(a, b);
    lemma_value_order_flip(b, c);
    lemma_value_order_flip(a, c);
    if value_order(a, b) == Comparison::Less && value_order(b, c) == Comparison::Less {
        lemma_value_order_transitive(a, b, c);
    }
    if value_order(c, b) == Comparison::Less && value_order(b, a) == Comparison::Less {
        lemma_value_order_transitive(c, b, a);
    }
}

/// The view of a tuple holds the views of its items.
pub proof fn lemma_tuple_view(items: Vec<Value>)
    ensures
        Value::Tuple(items)@ == ValueView::Tuple(items.deep_view()),
{
    let t = Value::Tuple(items)@->Tuple_0;
    assert(t =~= items.deep_view());
}

/// A list with the same values as `items`.
pub fn clone_values(items: &Vec<Value>) -> (r: Vec<Value>)
    ensures
        r.deep_view() == items.deep_view(),
    decreases items,
{
    let mut out: Vec<Value> = Vec::with_capacity(items.len());
    let mut i: usize = 0;
    while i < items.len()
        invariant
            i <= items.len(),
            out.len() == i,
            forall|j: int| 0 <= j < i ==> out@[j]@ == items@[j]@,
        decreases items.len() - i,
    {
        out.push(items[i].clone());
        i = i + 1;
    }
    assert(out.deep_view() =~= items.deep_view());
    out
}

impl Clone for Value {
    fn clone(&self) -> (r: Value)
        ensures
            r@ == self@,
        decreases self,
    {
        match self {
            Value::Absent => Value::Absent,
            Value::Int(i) => Value::Int(*i),
            Value::Float(f) => Value::Float(*f),
            Value::Pointer(k) => Value::Pointer(*k),
            Value::String(s) => Value::String(s.clone()),
            Value::Tuple(items) => {
                let out = clone_values(items);
                proof {
                    lemma_tuple_view(*items);
                    lemma_tuple_view(out);
                }
                Value::Tuple(out)
            },
            Value::IntArray(a) => Value::IntArray(a.clone()),
            Value::FloatArray(a) => Value::FloatArray(a.clone()),
        }
    }
}

/// The order of two integers.
pub fn compare_ints(a: i128, b: i128) -> (r: Comparison)
    ensures
        r == int_order(a as int, b as int),
{
    if a < b {
        Comparison::Less
    } else if a == b {
        Comparison::Equal
    } else {
        Comparison::Greater
    }
}

/// The order of two keys.
pub fn compare_keys(a: Key, b: Key) -> (r: Comparison)
    ensures
        r == int_order(a.0 as int, b.0 as int),
{
    if a.0 < b.0 {
        Comparison::Less
    } else if a.0 == b.0 {
        Comparison::Equal
    } else {
        Comparison::Greater
    }
}

/// The order of two tuples: item by item, a proper prefix first.
pub fn compare_tuples(x: &Vec<Value>, y: &Vec<Value>) -> (r: Comparison)
    ensures
        r == tuple_order_from(x.deep_view(), y.deep_view(), 0),
    decreases x,
{
    let ghost xs = x.deep_view();
    let ghost ys = y.deep_view();
    let mut i: usize = 0;
    while i < x.len() && i < y.len()
        invariant
            i <= x.len(),
            i <= y.len(),
            xs == x.deep_view(),
            ys == y.deep_view(),
            tuple_order_from(xs, ys, 0) == tuple_order_from(xs, ys, i as int),
        decreases x.len() - i,
    {
        let c = x[i].compare(&y[i]);
        assert(xs[i as int] == x@[i as int]@ && ys[i as int] == y@[i as int]@);
        match c {
            Comparison::Equal => {},
            _ => {
                return c;
            },
        }
        i = i + 1;
    }
    if i < y.len() {
        Comparison::Less
    } else if i < x.len() {
        Comparison::Greater
    } else {
        Comparison::Equal
    }
}

impl Value {
    /// The place of the value's variant among the variants.
    pub fn rank(&self) -> (r: u8)
        ensures
            r == variant_rank(self@),
    {
        match self {
            Value::Absent => 0,
            Value::Int(_) => 1,
            Value::Float(_) => 2,
            Value::Pointer(_) => 3,
            Value::String(_) => 4,
            Value::Tuple(_) => 5,
            Value::IntArray(_) => 6,
            Value::FloatArray(_) => 7,
        }
    }

    /// Whether this is the absent value.
    pub fn is_absent(&self) -> (r: bool)
        ensures
            r == (self@ == ValueView::Absent),
    {
        match self {
            Value::Absent => true,
            _ => false,
        }
    }

    /// How this value stands to `other` in the total order of values.
    pub fn compare(&self, other: &Value) -> (r: Comparison)
        ensures
            r == value_order(self@, other@),
        decreases self,
    {
        match (self, other) {
            (Value::Absent, Value::Absent) => Comparison::Equal,
            (Value::Int(x), Value::Int(y)) => compare_ints(*x as i128, *y as i128),
            (Value::Float(x), Value::Float(y)) => compare_ints(x.order_place(), y.order_place()),
            (Value::Pointer(x), Value::Pointer(y)) => compare_keys(*x, *y),
            (Value::String(x), Value::String(y)) => compare_numbers(
                x.as_str().as_bytes(),
                y.as_str().as_bytes(),
            ),
            (Value::Tuple(x), Value::Tuple(y)) => {
                proof {
                    lemma_tuple_view(*x);
                    lemma_tuple_view(*y);
                }
                compare_tuples(x, y)
            },
            (Value::IntArray(x), Value::IntArray(y)) => x.compare(y),
            (Value::FloatArray(x), Value::FloatArray(y)) => x.compare(y),
            _ => compare_ints(self.rank() as i128, other.rank() as i128),
        }
    }

    /// Whether this value comes before `other`, or is `other`.
    pub fn le(&self, other: &Value) -> (r: bool)
        ensures
            r == value_le(self@, other@),
    {
        match self.compare(other) {
            Comparison::Greater => false,
            _ => true,
        }
    }
}

} // verus!
