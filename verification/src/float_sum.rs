//! The sum of the floats of a group.

use crate::key::Key;
use crate::float::Float;
use crate::value::{Value, ValueView};
use vstd::prelude::*;

verus! {

/// Adds up the floats of the group. A row whose value is no float is skipped.
///
/// The state is the float itself. The library holds no floating-point
/// arithmetic: adding the states up is left to the caller.
#[derive(Debug, Clone, Copy)]
pub struct FloatSumReducer;

impl FloatSumReducer {
    /// The float of a row, or `None` where the row holds no float.
    pub fn init_unary(&self, _key: &Key, value: &Value) -> (r: Option<Float>)
        ensures
            r is Some <==> value@ is Float,
            r matches Some(f) ==> *value == Value::Float(f),
    {
        match value {
            Value::Float(f) => Some(*f),
            _ => None,
        }
    }

    /// The state as a value.
    pub fn finish(&self, state: Float) -> (r: Value)
        ensures
            r == Value::Float(state),
            r@ == ValueView::Float(state.place()),
    {
        Value::Float(state)
    }
}

} // verus!
