use reducers::{
    AnyReducer, ArgMaxReducer, ArgMinReducer, ArraySumReducer, Float, FloatArray, FloatSumReducer,
    IntArray, IntSumReducer, IntSumState, Key, MaxReducer, MinReducer, SemigroupReducerImpl,
    SortedTupleReducer, UnaryReducerImpl, UniqueReducer, Value,
};

fn num(i: i64) -> Value {
    Value::Int(i)
}

fn text(s: &str) -> Value {
    Value::String(s.to_string())
}

fn ints(shape: &[usize], elems: &[i64]) -> Value {
    Value::IntArray(IntArray::from_shape_vec(&shape.to_vec(), elems.to_vec()).unwrap())
}

fn floats(shape: &[usize], elems: &[f64]) -> Value {
    let bits: Vec<i64> = elems.iter().map(|x| x.to_bits() as i64).collect();
    Value::FloatArray(FloatArray(IntArray::from_shape_vec(&shape.to_vec(), bits).unwrap()))
}

fn once<S>(states: &[S]) -> Vec<(&S, usize)> {
    states.iter().map(|s| (s, 1)).collect()
}

fn rotations<S: Clone>(states: &[S]) -> Vec<Vec<S>> {
    let mut all = Vec::new();
    for shift in 0..states.len() {
        let mut turned = states.to_vec();
        turned.rotate_left(shift);
        all.push(turned.clone());
        turned.reverse();
        all.push(turned);
    }
    all
}

// IntSum

#[test]
fn int_sum_adds_three_rows() {
    let reducer = IntSumReducer;
    let key = Key(1);
    let mut state = reducer.init(&key, &num(5)).unwrap();
    state.plus_equals(&reducer.init(&key, &num(-3)).unwrap());
    state.plus_equals(&reducer.init(&key, &num(10)).unwrap());
    assert_eq!(state, IntSumState::new(3, 12));
    assert_eq!(reducer.finish(state), num(12));
}

#[test]
fn int_sum_state_and_its_negation_add_up_to_zero() {
    let mut state = IntSumState::new(3, 12);
    let negated = state.clone().multiply(&-1);
    assert_eq!(negated, IntSumState::new(-3, -12));
    assert!(!state.is_zero());
    state.plus_equals(&negated);
    assert!(state.is_zero());
    assert_eq!(state, IntSumState::new(0, 0));
}

#[test]
fn int_sum_state_of_one_row() {
    let state = IntSumState::single(-7);
    assert_eq!(state.count(), 1);
    assert_eq!(state.sum(), -7);
    assert!(!IntSumState::new(0, 1).is_zero());
    assert!(!IntSumState::new(1, 0).is_zero());
}

#[test]
fn int_sum_multiply_scales_both_fields() {
    assert_eq!(IntSumState::new(2, -5).multiply(&4), IntSumState::new(8, -20));
    assert_eq!(IntSumState::new(2, -5).multiply(&0), IntSumState::new(0, 0));
    let mut repeated = IntSumState::new(0, 0);
    for _ in 0..4 {
        repeated.plus_equals(&IntSumState::new(2, -5));
    }
    assert_eq!(repeated, IntSumState::new(2, -5).multiply(&4));
}

#[test]
fn int_sum_tells_when_a_sum_or_a_multiple_leaves_the_range() {
    let top = IntSumState::new(1, i64::MAX);
    assert!(!top.can_plus(&IntSumState::single(1)));
    assert!(top.can_plus(&IntSumState::single(0)));
    assert!(top.can_plus(&IntSumState::single(-1)));
    assert!(!IntSumState::new(isize::MAX, 0).can_plus(&IntSumState::single(0)));
    assert!(!top.can_multiply(&2));
    assert!(top.can_multiply(&-1));
    assert!(!IntSumState::new(1, i64::MIN).can_multiply(&-1));
    assert!(!IntSumState::new(isize::MIN, 0).can_multiply(&-1));
}

#[test]
fn int_sum_takes_integers_only() {
    let reducer = IntSumReducer;
    assert!(reducer.can_init(&Key(1), &num(4)));
    assert!(!reducer.can_init(&Key(1), &Value::Absent));
    assert!(!reducer.can_init(&Key(1), &text("4")));
    assert!(!reducer.can_init(&Key(1), &Value::Float(Float(4.0f64.to_bits()))));
}

// FloatSum

#[test]
fn float_sum_skips_what_is_no_float() {
    let reducer = FloatSumReducer;
    let half = Float(0.5f64.to_bits());
    assert_eq!(reducer.init_unary(&Key(1), &Value::Float(half)), Some(half));
    assert_eq!(reducer.init_unary(&Key(1), &num(1)), None);
    assert_eq!(reducer.init_unary(&Key(1), &Value::Absent), None);
    assert_eq!(reducer.finish(half), Value::Float(half));
}

// Min and Max

#[test]
fn min_and_max_do_not_depend_on_the_order() {
    let values = [num(3), num(1), num(4), num(1), num(5)];
    for order in rotations(&values) {
        assert_eq!(MinReducer.combine(&once(&order)), num(1));
        assert_eq!(MaxReducer.combine(&once(&order)), num(5));
    }
}

#[test]
fn min_and_max_ignore_counts() {
    let (a, b) = (num(2), num(9));
    assert_eq!(MinReducer.combine(&[(&a, 1), (&b, 1000)]), num(2));
    assert_eq!(MaxReducer.combine(&[(&a, 1000), (&b, 1)]), num(9));
}

#[test]
fn min_and_max_of_one_state() {
    let a = text("only");
    assert_eq!(MinReducer.combine(&[(&a, 3)]), text("only"));
    assert_eq!(MaxReducer.combine(&[(&a, 3)]), text("only"));
}

#[test]
fn min_and_max_keep_the_value_from_init_to_finish() {
    let state = MinReducer.init_unary(&Key(1), &num(7)).unwrap();
    assert_eq!(state, num(7));
    assert_eq!(MinReducer.finish(state), num(7));
    let state = MaxReducer.init_unary(&Key(1), &Value::Absent).unwrap();
    assert_eq!(MaxReducer.finish(state), Value::Absent);
}

#[test]
fn min_puts_the_absent_value_first() {
    let values = [num(3), Value::Absent, text("a")];
    assert_eq!(MinReducer.combine(&once(&values)), Value::Absent);
    assert_eq!(MaxReducer.combine(&once(&values)), text("a"));
}

#[test]
fn min_cannot_merge_nothing() {
    let none: Vec<(&Value, usize)> = Vec::new();
    assert!(!MinReducer.can_combine(&none));
    assert!(!MaxReducer.can_combine(&none));
    let a = num(1);
    assert!(MinReducer.can_combine(&[(&a, 1)]));
    assert!(!MinReducer.can_combine(&[(&a, 0)]));
}

#[test]
fn min_merged_in_groups_is_min_merged_at_once() {
    let values = [num(3), num(1), num(4), num(1), num(5)];
    for split in 1..values.len() {
        let left = MinReducer.combine(&once(&values[..split]));
        let right = MinReducer.combine(&once(&values[split..]));
        let merged = MinReducer.combine(&[(&left, 1), (&right, 1)]);
        let at_once = MinReducer.combine(&once(&values));
        assert_eq!(MinReducer.finish(merged), MinReducer.finish(at_once));
        let left = MaxReducer.combine(&once(&values[..split]));
        let right = MaxReducer.combine(&once(&values[split..]));
        let merged = MaxReducer.combine(&[(&left, 1), (&right, 1)]);
        assert_eq!(merged, num(5));
    }
}

// ArgMin and ArgMax

#[test]
fn arg_min_points_to_the_least_value() {
    let (k1, k2, k3) = (Key(10), Key(20), Key(30));
    let rows = [(num(5), k1), (num(5), k2), (num(2), k3)];
    for order in rotations(&rows) {
        let state = ArgMinReducer.combine(&once(&order));
        assert_eq!(ArgMinReducer.finish(state), Value::Pointer(k3));
    }
}

#[test]
fn arg_min_takes_the_smaller_key_of_equal_values() {
    let rows = [(num(2), Key(20)), (num(2), Key(10))];
    for order in rotations(&rows) {
        let state = ArgMinReducer.combine(&once(&order));
        assert_eq!(state, (num(2), Key(10)));
        assert_eq!(ArgMinReducer.finish(state), Value::Pointer(Key(10)));
    }
}

#[test]
fn arg_max_takes_the_smaller_key_of_equal_values() {
    let rows = [(num(5), Key(20)), (num(5), Key(10)), (num(2), Key(1))];
    for order in rotations(&rows) {
        let state = ArgMaxReducer.combine(&once(&order));
        assert_eq!(state, (num(5), Key(10)));
        assert_eq!(ArgMaxReducer.finish(state), Value::Pointer(Key(10)));
    }
}

#[test]
fn arg_reducers_keep_value_and_key() {
    assert_eq!(ArgMinReducer.init_unary(&Key(4), &num(9)), Some((num(9), Key(4))));
    assert_eq!(ArgMaxReducer.init_unary(&Key(4), &num(9)), Some((num(9), Key(4))));
    let none: Vec<(&(Value, Key), usize)> = Vec::new();
    assert!(!ArgMinReducer.can_combine(&none));
    assert!(!ArgMaxReducer.can_combine(&none));
}

#[test]
fn arg_min_merged_in_groups_is_arg_min_merged_at_once() {
    let rows = [(num(5), Key(1)), (num(2), Key(9)), (num(2), Key(3)), (num(7), Key(2))];
    for split in 1..rows.len() {
        let left = ArgMinReducer.combine(&once(&rows[..split]));
        let right = ArgMinReducer.combine(&once(&rows[split..]));
        assert_eq!(ArgMinReducer.combine(&[(&left, 1), (&right, 1)]), (num(2), Key(3)));
        let left = ArgMaxReducer.combine(&once(&rows[..split]));
        let right = ArgMaxReducer.combine(&once(&rows[split..]));
        assert_eq!(ArgMaxReducer.combine(&[(&left, 1), (&right, 1)]), (num(7), Key(2)));
    }
}

// Any

#[test]
fn any_picks_the_same_row_in_every_order() {
    let rows = [(Key(1), num(10)), (Key(2), num(20)), (Key(3), num(30)), (Key(4), num(40))];
    let first = AnyReducer.combine(&once(&rows));
    for order in rotations(&rows) {
        assert_eq!(AnyReducer.combine(&once(&order)), first);
        assert_eq!(AnyReducer.combine(&once(&order)), first);
    }
    assert_eq!(AnyReducer.finish(first.clone()), first.1);
}

#[test]
fn any_picks_the_least_salted_key() {
    // The salt ends in ...EF: keys 0xEF and 0xEE salt to numbers that end in 00 and 01.
    let rows = [(Key(0xEE), num(1)), (Key(0xEF), num(2)), (Key(0x00), num(3))];
    for order in rotations(&rows) {
        assert_eq!(AnyReducer.combine(&once(&order)), (Key(0xEF), num(2)));
    }
}

#[test]
fn any_does_not_follow_the_order_of_the_keys() {
    // Without salt, key 0 would come first; another salt makes another pick.
    let keys = [Key(0x00), Key(0xEF), Key(0x10)];
    let least_by = |seed: u128| *keys.iter().min_by_key(|k| k.salted_with(seed)).unwrap();
    assert_eq!(least_by(0), Key(0x00));
    assert_eq!(least_by(reducers::key::SALT), Key(0xEF));
    assert_eq!(least_by(0x10), Key(0x10));
}

#[test]
fn any_takes_the_lesser_value_of_one_key() {
    let rows = [(Key(7), num(5)), (Key(7), num(3))];
    for order in rotations(&rows) {
        assert_eq!(AnyReducer.combine(&once(&order)), (Key(7), num(3)));
    }
    assert_eq!(AnyReducer.init_unary(&Key(7), &num(5)), Some((Key(7), num(5))));
}

// Unique

#[test]
fn unique_returns_the_one_value() {
    let state = UniqueReducer.init_unary(&Key(1), &text("a")).unwrap();
    assert_eq!(state, Some(text("a")));
    assert!(UniqueReducer.can_combine(&[(&state, 1)]));
    let merged = UniqueReducer.combine(&[(&state, 1)]);
    assert_eq!(UniqueReducer.finish(merged), text("a"));
}

#[test]
fn unique_cannot_merge_two_different_values() {
    let a = UniqueReducer.init_unary(&Key(1), &text("a")).unwrap();
    let b = UniqueReducer.init_unary(&Key(2), &text("b")).unwrap();
    assert!(!UniqueReducer.can_combine(&[(&a, 1), (&b, 1)]));
    assert!(!UniqueReducer.can_combine(&[(&b, 1), (&a, 1)]));
    assert!(!UniqueReducer.can_combine(&[(&a, 1), (&a, 1), (&b, 1)]));
    assert!(!UniqueReducer.can_combine(&[(&a, 1), (&None, 1)]));
    assert!(!UniqueReducer.can_combine(&[(&None, 1), (&a, 1)]));
}

#[test]
fn unique_merges_states_that_are_one_state() {
    let a = Some(text("a"));
    let same = Some(text("a"));
    assert!(UniqueReducer.can_combine(&[(&a, 2), (&same, 5)]));
    assert_eq!(UniqueReducer.combine(&[(&a, 2), (&same, 5)]), Some(text("a")));
    assert!(UniqueReducer.can_combine(&[(&None, 1), (&None, 1)]));
    assert_eq!(UniqueReducer.combine(&[(&None, 1), (&None, 1)]), None);
}

#[test]
fn unique_gives_the_absent_value_for_no_value() {
    assert_eq!(UniqueReducer.finish(None), Value::Absent);
    let none: Vec<(&Option<Value>, usize)> = Vec::new();
    assert!(!UniqueReducer.can_combine(&none));
}

// SortedTuple

#[test]
fn sorted_tuple_skips_absent_values_when_told_to() {
    let reducer = SortedTupleReducer::new(true);
    let states: Vec<Vec<Value>> = [Value::Absent, num(3), num(1)]
        .iter()
        .map(|v| reducer.init_unary(&Key(1), v).unwrap())
        .collect();
    assert_eq!(states, vec![vec![], vec![num(3)], vec![num(1)]]);
    let merged = reducer.combine(&once(&states));
    assert_eq!(reducer.finish(merged), Value::Tuple(vec![num(1), num(3)]));
}

#[test]
fn sorted_tuple_keeps_absent_values_otherwise() {
    let reducer = SortedTupleReducer::new(false);
    let states: Vec<Vec<Value>> = [Value::Absent, num(3), num(1)]
        .iter()
        .map(|v| reducer.init_unary(&Key(1), v).unwrap())
        .collect();
    let merged = reducer.combine(&once(&states));
    assert_eq!(reducer.finish(merged), Value::Tuple(vec![Value::Absent, num(1), num(3)]));
}

#[test]
fn sorted_tuple_repeats_each_value_as_often_as_counted() {
    let reducer = SortedTupleReducer::new(false);
    let (a, b) = (vec![num(2), num(1)], vec![num(5)]);
    let merged = reducer.combine(&[(&a, 2), (&b, 3)]);
    assert_eq!(merged, vec![num(2), num(2), num(1), num(1), num(5), num(5), num(5)]);
    assert_eq!(
        reducer.finish(merged),
        Value::Tuple(vec![num(1), num(1), num(2), num(2), num(5), num(5), num(5)])
    );
}

#[test]
fn sorted_tuple_count_is_as_many_rows() {
    let reducer = SortedTupleReducer::new(false);
    let row = vec![num(4)];
    let other = vec![num(1)];
    let counted = reducer.combine(&[(&row, 3), (&other, 1)]);
    let written_out = reducer.combine(&[(&row, 1), (&row, 1), (&other, 1), (&row, 1)]);
    assert_eq!(reducer.finish(counted), reducer.finish(written_out));
}

#[test]
fn sorted_tuple_of_no_states_is_empty() {
    let reducer = SortedTupleReducer::new(true);
    let none: Vec<(&Vec<Value>, usize)> = Vec::new();
    assert!(reducer.can_combine(&none));
    let merged = reducer.combine(&none);
    assert_eq!(reducer.finish(merged), Value::Tuple(vec![]));
    let a = vec![num(1)];
    assert!(!reducer.can_combine(&[(&a, 0)]));
}

#[test]
fn sorted_tuple_does_not_depend_on_order_or_grouping() {
    let reducer = SortedTupleReducer::new(false);
    let states = [vec![num(3)], vec![num(1)], vec![text("x")], vec![], vec![num(1)]];
    let counted: Vec<(&Vec<Value>, usize)> =
        states.iter().enumerate().map(|(i, s)| (s, i + 1)).collect();
    let expected = reducer.finish(reducer.combine(&counted));
    let mut turned = counted.clone();
    for _ in 0..counted.len() {
        turned.rotate_left(1);
        assert_eq!(reducer.finish(reducer.combine(&turned)), expected);
    }
    for split in 0..=counted.len() {
        let left = reducer.combine(&counted[..split]);
        let right = reducer.combine(&counted[split..]);
        let merged = reducer.combine(&[(&left, 1), (&right, 1)]);
        assert_eq!(reducer.finish(merged), expected);
    }
}

#[test]
fn sorted_tuple_sorts_many_values() {
    let reducer = SortedTupleReducer::new(false);
    let mut state = Vec::new();
    let mut x: i64 = 12345;
    for _ in 0..500 {
        x = (x * 1103515245 + 12345) % 2147483648;
        state.push(num(x % 100));
    }
    let mut expected: Vec<i64> = state
        .iter()
        .map(|v| match v {
            Value::Int(i) => *i,
            _ => unreachable!(),
        })
        .collect();
    expected.sort();
    assert_eq!(reducer.finish(state), Value::Tuple(expected.into_iter().map(num).collect()));
}

// ArraySum

#[test]
fn array_sum_counts_each_array_as_often_as_its_row_occurs() {
    let a = ArraySumReducer.init_unary(&Key(1), &ints(&[2], &[1, 2])).unwrap();
    let b = ArraySumReducer.init_unary(&Key(2), &ints(&[2], &[3, 4])).unwrap();
    assert!(ArraySumReducer.can_combine(&[(&a, 1), (&b, 2)]));
    let merged = ArraySumReducer.combine(&[(&a, 1), (&b, 2)]);
    assert_eq!(ArraySumReducer.finish(merged), ints(&[2], &[7, 10]));
}

#[test]
fn array_sum_cannot_mix_integers_and_floats() {
    let a = ints(&[2], &[1, 2]);
    let b = floats(&[2], &[3.0, 4.0]);
    assert!(!ArraySumReducer.can_combine(&[(&a, 1), (&b, 1)]));
    assert!(!ArraySumReducer.can_combine(&[(&b, 1), (&a, 1)]));
    assert!(!ArraySumReducer.can_combine(&[(&a, 1), (&num(3), 1)]));
}

#[test]
fn array_sum_cannot_add_arrays_of_different_axes() {
    let a = ints(&[2], &[1, 2]);
    assert!(!ArraySumReducer.can_combine(&[(&a, 1), (&ints(&[3], &[1, 2, 3]), 1)]));
    assert!(!ArraySumReducer.can_combine(&[(&a, 1), (&ints(&[2, 1], &[1, 2]), 1)]));
    assert!(!ArraySumReducer.can_combine(&[(&a, 1), (&ints(&[1], &[1]), 1)]));
    assert!(ArraySumReducer.can_combine(&[(&a, 1), (&ints(&[2], &[0, 0]), 1)]));
}

#[test]
fn array_sum_cannot_leave_the_integers() {
    let top = ints(&[2], &[i64::MAX, 0]);
    let one = ints(&[2], &[1, 0]);
    let minus = ints(&[2], &[-1, 0]);
    assert!(!ArraySumReducer.can_combine(&[(&top, 1), (&one, 1)]));
    assert!(!ArraySumReducer.can_combine(&[(&top, 2)]));
    assert!(ArraySumReducer.can_combine(&[(&top, 1), (&minus, 1), (&one, 1)]));
    assert!(!ArraySumReducer.can_combine(&[(&top, 1), (&one, 1), (&minus, 1)]));
    assert_eq!(
        ArraySumReducer.combine(&[(&top, 1), (&minus, 1), (&one, 1)]),
        ints(&[2], &[i64::MAX, 0])
    );
    let none: Vec<(&Value, usize)> = Vec::new();
    assert!(!ArraySumReducer.can_combine(&none));
    assert!(!ArraySumReducer.can_combine(&[(&one, 0)]));
}

#[test]
fn array_sum_of_one_array() {
    let a = ints(&[2, 2], &[1, -2, 3, -4]);
    assert_eq!(ArraySumReducer.combine(&[(&a, 1)]), a);
    assert_eq!(ArraySumReducer.combine(&[(&a, 3)]), ints(&[2, 2], &[3, -6, 9, -12]));
}

#[test]
fn array_sum_does_not_depend_on_order_or_grouping() {
    let arrays = [
        ints(&[3], &[1, 2, 3]),
        ints(&[3], &[10, 20, 30]),
        ints(&[3], &[-5, 0, 5]),
        ints(&[3], &[7, 7, 7]),
    ];
    let counted: Vec<(&Value, usize)> =
        arrays.iter().enumerate().map(|(i, a)| (a, i + 1)).collect();
    let expected = ints(&[3], &[1 + 20 - 15 + 28, 2 + 40 + 28, 3 + 60 + 15 + 28]);
    assert_eq!(ArraySumReducer.combine(&counted), expected);
    let mut turned = counted.clone();
    for _ in 0..counted.len() {
        turned.rotate_left(1);
        assert_eq!(ArraySumReducer.combine(&turned), expected);
    }
    for split in 1..counted.len() {
        let left = ArraySumReducer.combine(&counted[..split]);
        let right = ArraySumReducer.combine(&counted[split..]);
        assert_eq!(ArraySumReducer.combine(&[(&left, 1), (&right, 1)]), expected);
    }
}

#[test]
fn sorted_tuple_sorts_values_of_every_kind_as_compare_orders_them() {
    let reducer = SortedTupleReducer::new(false);
    let mut state = Vec::new();
    let mut x: u64 = 99;
    for _ in 0..300 {
        x = x.wrapping_mul(6364136223846793005).wrapping_add(1442695040888963407);
        let small = ((x >> 33) % 7) as i64;
        state.push(match (x >> 40) % 8 {
            0 => Value::Absent,
            1 => num(small - 3),
            2 => Value::Float(Float(((small - 3) as f64 / 2.0).to_bits())),
            3 => Value::Pointer(Key(small as u128)),
            4 => text(&"ab".repeat(small as usize % 3)),
            5 => Value::Tuple(vec![num(small % 2), text("t")]),
            6 => ints(&[2], &[small, -small]),
            _ => floats(&[1], &[small as f64]),
        });
    }
    let mut expected = state.clone();
    expected.sort_by(|a, b| match a.compare(b) {
        reducers::Comparison::Less => std::cmp::Ordering::Less,
        reducers::Comparison::Equal => std::cmp::Ordering::Equal,
        reducers::Comparison::Greater => std::cmp::Ordering::Greater,
    });
    assert_eq!(reducer.finish(state), Value::Tuple(expected));
}
