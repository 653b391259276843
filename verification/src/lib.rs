//! Aggregation strategies for groups of rows that share a key.
//!
//! A group is summarised by a state: one state per observed row (`init`),
//! states merged in any order and grouping (`combine`), and the merged state
//! turned into the group's output value (`finish`). Every strategy proves
//! that the output does not depend on the order or the grouping of the merges.

pub mod any;
pub mod arg_min_max;
pub mod array;
pub mod array_sum;
pub mod expand;
pub mod float;
pub mod float_sum;
pub mod int_sum;
pub mod key;
pub mod min_max;
pub mod order;
pub mod reducer;
pub mod sorted_tuple;
pub mod total;
pub mod tuple;
pub mod unique;
pub mod value;

pub use any::AnyReducer;
pub use arg_min_max::{ArgMaxReducer, ArgMinReducer};
pub use array::IntArray;
pub use array_sum::ArraySumReducer;
pub use float::{Float, FloatArray};
pub use float_sum::FloatSumReducer;
pub use int_sum::{IntSumReducer, IntSumState};
pub use key::Key;
pub use min_max::{MaxReducer, MinReducer};
pub use order::Comparison;
pub use reducer::{Reducer, ReducerImpl, SemigroupReducerImpl, UnaryReducerImpl};
pub use sorted_tuple::SortedTupleReducer;
pub use tuple::TupleReducer;
pub use unique::UniqueReducer;
pub use value::Value;
