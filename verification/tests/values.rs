use ordered_float::OrderedFloat;
use reducers::{Comparison, Float, FloatArray, IntArray, Key, Value};
use std::cmp::Ordering;

fn float(x: f64) -> Value {
    Value::Float(Float(x.to_bits()))
}

fn text(s: &str) -> Value {
    Value::String(s.to_string())
}

fn ints(shape: &[usize], elems: &[i64]) -> Value {
    Value::IntArray(IntArray::from_shape_vec(&shape.to_vec(), elems.to_vec()).unwrap())
}

fn floats(shape: &[usize], elems: &[f64]) -> Value {
    let bits: Vec<i64> = elems.iter().map(|x| x.to_bits() as i64).collect();
    Value::FloatArray(FloatArray(IntArray::from_shape_vec(&shape.to_vec(), bits).unwrap()))
}

fn expected(o: Ordering) -> Comparison {
    match o {
        Ordering::Less => Comparison::Less,
        Ordering::Equal => Comparison::Equal,
        Ordering::Greater => Comparison::Greater,
    }
}

#[test]
fn variants_are_ordered_absent_first() {
    let ladder = vec![
        Value::Absent,
        Value::Int(i64::MAX),
        float(f64::NEG_INFINITY),
        Value::Pointer(Key(0)),
        text(""),
        Value::Tuple(vec![]),
        ints(&[0], &[]),
        floats(&[0], &[]),
    ];
    for i in 0..ladder.len() {
        for j in 0..ladder.len() {
            assert_eq!(ladder[i].compare(&ladder[j]), expected(i.cmp(&j)));
        }
    }
}

#[test]
fn integers_are_ordered_as_numbers() {
    assert_eq!(Value::Int(-3).compare(&Value::Int(2)), Comparison::Less);
    assert_eq!(Value::Int(2).compare(&Value::Int(2)), Comparison::Equal);
    assert_eq!(Value::Int(i64::MAX).compare(&Value::Int(i64::MIN)), Comparison::Greater);
}

#[test]
fn floats_are_ordered_as_ordered_float_orders_them() {
    let samples = [
        f64::NEG_INFINITY,
        f64::MIN,
        -1.5,
        -f64::MIN_POSITIVE,
        -5e-324,
        -0.0,
        0.0,
        5e-324,
        f64::MIN_POSITIVE,
        1.0,
        1.5,
        f64::MAX,
        f64::INFINITY,
        f64::NAN,
        -f64::NAN,
        f64::from_bits(0x7FF0_0000_0000_0001),
    ];
    for a in samples {
        for b in samples {
            assert_eq!(
                float(a).compare(&float(b)),
                expected(OrderedFloat(a).cmp(&OrderedFloat(b))),
                "{a:?} against {b:?}"
            );
            assert_eq!(float(a) == float(b), OrderedFloat(a) == OrderedFloat(b));
        }
    }
}

#[test]
fn float_places_are_exact() {
    assert_eq!(Float(0).order_place(), 0);
    assert_eq!(Float(0x8000_0000_0000_0000).order_place(), 0);
    assert_eq!(Float(1.0f64.to_bits()).order_place(), 0x3FF0_0000_0000_0000);
    assert_eq!(Float((-1.0f64).to_bits()).order_place(), -0x3FF0_0000_0000_0000);
    assert_eq!(Float(f64::INFINITY.to_bits()).order_place(), 0x7FF0_0000_0000_0000);
    assert_eq!(Float(f64::NAN.to_bits()).order_place(), 0x8000_0000_0000_0000);
}

#[test]
fn keys_are_ordered_by_number() {
    assert_eq!(
        Value::Pointer(Key(1)).compare(&Value::Pointer(Key(u128::MAX))),
        Comparison::Less
    );
    assert_eq!(Value::Pointer(Key(9)).compare(&Value::Pointer(Key(9))), Comparison::Equal);
}

#[test]
fn strings_are_ordered_by_bytes() {
    let samples = ["", "a", "ab", "abc", "b", "B", "é", "z", "日本", "\u{10FFFF}"];
    for a in samples {
        for b in samples {
            assert_eq!(text(a).compare(&text(b)), expected(a.cmp(b)), "{a:?} against {b:?}");
        }
    }
}

#[test]
fn tuples_are_ordered_item_by_item() {
    let t = |items: &[i64]| Value::Tuple(items.iter().map(|i| Value::Int(*i)).collect());
    assert_eq!(t(&[]).compare(&t(&[])), Comparison::Equal);
    assert_eq!(t(&[]).compare(&t(&[0])), Comparison::Less);
    assert_eq!(t(&[1, 2]).compare(&t(&[1, 2, 0])), Comparison::Less);
    assert_eq!(t(&[1, 3]).compare(&t(&[1, 2, 9])), Comparison::Greater);
    assert_eq!(t(&[1, 2, 3]).compare(&t(&[1, 2, 3])), Comparison::Equal);
    let nested = Value::Tuple(vec![t(&[1]), Value::Absent]);
    let other = Value::Tuple(vec![t(&[1]), Value::Int(0)]);
    assert_eq!(nested.compare(&other), Comparison::Less);
    assert_eq!(other.compare(&nested), Comparison::Greater);
}

#[test]
fn arrays_are_ordered_by_axes_then_elements() {
    assert_eq!(ints(&[2], &[9, 9]).compare(&ints(&[3], &[0, 0, 0])), Comparison::Less);
    assert_eq!(ints(&[2, 1], &[0, 0]).compare(&ints(&[2], &[5, 5])), Comparison::Greater);
    assert_eq!(ints(&[2], &[1, 2]).compare(&ints(&[2], &[1, 3])), Comparison::Less);
    assert_eq!(ints(&[2], &[1, 2]).compare(&ints(&[2], &[1, 2])), Comparison::Equal);
    assert_eq!(ints(&[2], &[-1, 2]).compare(&ints(&[2], &[-2, 9])), Comparison::Greater);
}

#[test]
fn float_arrays_are_ordered_by_axes_then_elements() {
    assert_eq!(
        floats(&[2], &[1.0, -2.0]).compare(&floats(&[2], &[1.0, -1.0])),
        Comparison::Less
    );
    assert_eq!(
        floats(&[2], &[0.0, 1.0]).compare(&floats(&[2], &[-0.0, 1.0])),
        Comparison::Equal
    );
    assert_eq!(floats(&[2], &[0.0, 1.0]), floats(&[2], &[-0.0, 1.0]));
    assert_eq!(
        floats(&[1], &[f64::NAN]).compare(&floats(&[1], &[f64::INFINITY])),
        Comparison::Greater
    );
    assert_eq!(floats(&[1], &[9.0]).compare(&floats(&[2], &[0.0, 0.0])), Comparison::Less);
}

#[test]
fn le_agrees_with_compare() {
    assert!(Value::Int(1).le(&Value::Int(1)));
    assert!(Value::Int(1).le(&Value::Int(2)));
    assert!(!Value::Int(2).le(&Value::Int(1)));
    assert!(Value::Absent.le(&Value::Int(i64::MIN)));
}

#[test]
fn clone_gives_an_equal_value() {
    let v = Value::Tuple(vec![
        Value::Absent,
        Value::Int(4),
        float(2.5),
        Value::Pointer(Key(77)),
        text("row"),
        Value::Tuple(vec![Value::Int(1), Value::Tuple(vec![])]),
        ints(&[2, 2], &[1, 2, 3, 4]),
        floats(&[2], &[1.0, 2.0]),
    ]);
    let copy = v.clone();
    assert_eq!(copy, v);
    assert_eq!(copy.compare(&v), Comparison::Equal);
}

#[test]
fn ranks_follow_the_variants() {
    assert_eq!(Value::Absent.rank(), 0);
    assert_eq!(Value::Int(0).rank(), 1);
    assert_eq!(float(0.0).rank(), 2);
    assert_eq!(Value::Pointer(Key(0)).rank(), 3);
    assert_eq!(text("").rank(), 4);
    assert_eq!(Value::Tuple(vec![]).rank(), 5);
    assert_eq!(ints(&[0], &[]).rank(), 6);
    assert_eq!(floats(&[0], &[]).rank(), 7);
    assert!(Value::Absent.is_absent());
    assert!(!Value::Int(0).is_absent());
}

#[test]
fn salting_folds_the_seed_into_the_key() {
    assert_eq!(Key(0b1010).salted_with(0b0110), Key(0b1100));
    assert_eq!(Key(5).salted_with(0), Key(5));
    assert_eq!(Key(5).salted_with(9).salted_with(9), Key(5));
    assert_eq!(reducers::key::SALT, 0xDEADBEEF_DEADBEEF_DEADBEEF_DEADBEEF);
}
