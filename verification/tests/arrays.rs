use reducers::IntArray;

#[test]
fn array_keeps_shape_and_elements() {
    let a = IntArray::from_shape_vec(&vec![2, 3], vec![1, 2, 3, 4, 5, 6]).unwrap();
    assert_eq!(a.shape(), vec![2, 3]);
    assert_eq!(a.to_vec(), vec![1, 2, 3, 4, 5, 6]);
    assert_eq!(a.clone(), a);
}

#[test]
fn array_refuses_wrong_element_count() {
    assert!(IntArray::from_shape_vec(&vec![2, 3], vec![1, 2, 3]).is_none());
    assert!(IntArray::from_shape_vec(&vec![], vec![]).is_none());
    assert!(IntArray::from_shape_vec(&vec![3], vec![1, 2, 3, 4]).is_none());
}

#[test]
fn array_without_axes_holds_one_element() {
    let a = IntArray::from_shape_vec(&vec![], vec![7]).unwrap();
    assert_eq!(a.shape(), Vec::<usize>::new());
    assert_eq!(a.to_vec(), vec![7]);
}

#[test]
fn array_with_an_empty_axis_holds_nothing() {
    let a = IntArray::from_shape_vec(&vec![0, 5], vec![]).unwrap();
    assert_eq!(a.shape(), vec![0, 5]);
    assert_eq!(a.to_vec(), Vec::<i64>::new());
}

#[test]
fn array_refuses_axes_too_large_to_address() {
    let huge = usize::MAX / 2 + 1;
    assert!(IntArray::from_shape_vec(&vec![0, huge, 4], vec![]).is_none());
}
