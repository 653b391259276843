use reducers::{
    ArgMaxReducer, Key, MaxReducer, MinReducer, Reducer, ReducerImpl, TupleReducer, Value,
};

fn num(i: i64) -> Value {
    Value::Int(i)
}

fn text(s: &str) -> Value {
    Value::String(s.to_string())
}

fn once<S>(states: &[S]) -> Vec<(&S, usize)> {
    states.iter().map(|s| (s, 1)).collect()
}

fn rotations<S: Clone>(states: &[S]) -> Vec<Vec<S>> {
    let mut all = Vec::new();
    for shift in 0..states.len() {
        let mut turned = states.to_vec();
        turned.rotate_left(shift);
        all.push(turned.clone());
        turned.reverse();
        all.push(turned);
    }
    all
}

// Tuple

#[test]
fn tuple_orders_by_the_second_column() {
    let reducer = TupleReducer::new(false);
    let rows = [
        (Key(1), vec![text("c"), num(30)]),
        (Key(2), vec![text("a"), num(10)]),
        (Key(3), vec![text("b"), num(20)]),
    ];
    let states: Vec<_> = rows.iter().map(|(k, v)| reducer.init(k, v).unwrap()).collect();
    assert_eq!(states[0], vec![(Some(num(30)), Key(1), text("c"))]);
    for order in rotations(&states) {
        let merged = reducer.combine(&once(&order));
        assert_eq!(reducer.finish(merged), Value::Tuple(vec![text("a"), text("b"), text("c")]));
    }
}

#[test]
fn tuple_orders_by_key_without_a_second_column() {
    let reducer = TupleReducer::new(false);
    let rows = [(Key(3), vec![num(1)]), (Key(1), vec![num(3)]), (Key(2), vec![num(2)])];
    let states: Vec<_> = rows.iter().map(|(k, v)| reducer.init(k, v).unwrap()).collect();
    assert_eq!(states[0], vec![(None, Key(3), num(1))]);
    for order in rotations(&states) {
        let merged = reducer.combine(&once(&order));
        assert_eq!(reducer.finish(merged), Value::Tuple(vec![num(3), num(2), num(1)]));
    }
}

#[test]
fn tuple_puts_rows_without_a_second_value_first_and_breaks_ties_by_key_then_value() {
    let reducer = TupleReducer::new(false);
    let state = vec![
        (Some(num(1)), Key(9), text("d")),
        (Some(num(1)), Key(2), text("c")),
        (None, Key(50), text("a")),
        (Some(num(0)), Key(99), text("b")),
        (Some(num(1)), Key(9), text("ca")),
    ];
    assert_eq!(
        reducer.finish(state),
        Value::Tuple(vec![text("a"), text("b"), text("c"), text("ca"), text("d")])
    );
}

#[test]
fn tuple_skips_absent_values_when_told_to() {
    let skipping = TupleReducer::new(true);
    let keeping = TupleReducer::new(false);
    assert_eq!(skipping.init(&Key(1), &[Value::Absent, num(5)]), Some(vec![]));
    assert_eq!(skipping.init(&Key(1), &[Value::Absent]), Some(vec![]));
    assert_eq!(
        keeping.init(&Key(1), &[Value::Absent, num(5)]),
        Some(vec![(Some(num(5)), Key(1), Value::Absent)])
    );
    assert_eq!(skipping.init(&Key(1), &[num(2)]), Some(vec![(None, Key(1), num(2))]));
    assert!(!skipping.can_init(&Key(1), &[]));
    assert!(skipping.can_init(&Key(1), &[num(1)]));
}

#[test]
fn tuple_count_is_as_many_rows() {
    let reducer = TupleReducer::new(false);
    let row = reducer.init(&Key(5), &[text("x")]).unwrap();
    let other = reducer.init(&Key(1), &[text("y")]).unwrap();
    let counted = reducer.combine(&[(&row, 3), (&other, 2)]);
    let written_out =
        reducer.combine(&[(&other, 1), (&row, 1), (&row, 1), (&other, 1), (&row, 1)]);
    let expected = Value::Tuple(vec![text("y"), text("y"), text("x"), text("x"), text("x")]);
    assert_eq!(reducer.finish(counted), expected);
    assert_eq!(reducer.finish(written_out), expected);
}

#[test]
fn tuple_does_not_depend_on_grouping() {
    let reducer = TupleReducer::new(false);
    let rows = [
        (Key(4), vec![num(1), num(7)]),
        (Key(3), vec![num(2), num(7)]),
        (Key(2), vec![num(3)]),
        (Key(1), vec![num(4), Value::Absent]),
    ];
    let states: Vec<_> = rows.iter().map(|(k, v)| reducer.init(k, v).unwrap()).collect();
    let counted: Vec<_> = states.iter().map(|s| (s, 2usize)).collect();
    let expected = reducer.finish(reducer.combine(&counted));
    assert_eq!(
        expected,
        Value::Tuple(vec![num(3), num(3), num(4), num(4), num(2), num(2), num(1), num(1)])
    );
    for split in 0..=counted.len() {
        let left = reducer.combine(&counted[..split]);
        let right = reducer.combine(&counted[split..]);
        assert_eq!(reducer.finish(reducer.combine(&[(&right, 1), (&left, 1)])), expected);
    }
}

// The general contract

#[test]
fn one_column_strategies_read_the_first_column() {
    let values = [num(8), num(1)];
    let state = ReducerImpl::init(&MinReducer, &Key(1), &values).unwrap();
    assert_eq!(state, num(8));
    assert!(ReducerImpl::can_init(&MinReducer, &Key(1), &values));
    assert!(!ReducerImpl::can_init(&MinReducer, &Key(1), &[]));
    let state = ReducerImpl::init(&ArgMaxReducer, &Key(6), &values).unwrap();
    assert_eq!(state, (num(8), Key(6)));
    let (a, b) = (num(8), num(1));
    assert_eq!(ReducerImpl::combine(&MaxReducer, &[(&a, 1), (&b, 1)]), num(8));
    assert!(ReducerImpl::can_combine(&MaxReducer, &[(&a, 1), (&b, 1)]));
    assert_eq!(ReducerImpl::finish(&MaxReducer, a), num(8));
}

#[test]
fn selector_names_every_strategy() {
    let all = [
        Reducer::FloatSum,
        Reducer::IntSum,
        Reducer::ArraySum,
        Reducer::Unique,
        Reducer::Min,
        Reducer::ArgMin,
        Reducer::Max,
        Reducer::ArgMax,
        Reducer::SortedTuple(true),
        Reducer::Tuple(false),
        Reducer::Any,
    ];
    assert_eq!(all.len(), 11);
    assert!(matches!(all[8], Reducer::SortedTuple(true)));
    assert!(matches!(all[9], Reducer::Tuple(false)));
    assert_eq!(format!("{:?}", all[0]), "FloatSum");
}
