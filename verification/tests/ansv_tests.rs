use vec_impl::compute_ansv;

#[test]
fn ansv_example_sequence() {
    let numbers = [1, 8, 4, 12, 2, 10, 6, 14, 1, 9, 5, 13, 3, 0, 11, 7, 15];
    let res = compute_ansv(&numbers);
    let expected = vec![
        None, Some(1), Some(1), Some(4), Some(1), Some(2), Some(2), Some(6), None, Some(1),
        Some(1), Some(5), Some(1), None, Some(0), Some(0), Some(7),
    ];
    assert_eq!(res.as_slice(), expected.as_slice());
}

// Equal values are not smaller.
#[test]
fn ansv_ties_and_empty() {
    let res = compute_ansv(&[2, 5, 5, 1, 5]);
    assert_eq!(res.as_slice(), &[None, Some(2), Some(2), None, Some(1)]);
    let res = compute_ansv(&[]);
    assert!(res.is_empty());
    let res = compute_ansv(&[i32::MIN, i32::MAX, i32::MIN]);
    assert_eq!(res.as_slice(), &[None, Some(i32::MIN), None]);
}
