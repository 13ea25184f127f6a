use algorithms::binary_search::BinarySearch;

#[test]
fn test_partition_point() {
    let v = vec![2, 4, 3, 3, 3, 5];
    assert_eq!(BinarySearch::partition_point(v.as_slice(), |x: &i32| x % 2 == 0), 2);
    assert_eq!(BinarySearch::partition_point(v.as_slice(), |x: &i32| x < &6), 6);
    assert_eq!(BinarySearch::partition_point(v.as_slice(), |x: &i32| x < &0), 0);
    assert_eq!(BinarySearch::partition_point(v.as_slice(), |x: &i32| x < &5), 5);
}

#[test]
fn test_lower_bound() {
    let v = vec![1, 2, 3, 3, 3, 4, 5];
    assert_eq!(v.lower_bound(&3), 2);
    assert_eq!(v.lower_bound(&6), 7);
    assert_eq!(v.lower_bound(&0), 0);
}

#[test]
fn test_upper_bound() {
    let v = vec![1, 2, 3, 3, 3, 4, 5];
    assert_eq!(v.upper_bound(&3), 5);
    assert_eq!(v.upper_bound(&6), 7);
    assert_eq!(v.upper_bound(&0), 0);
}

#[test]
fn test_binary_search2() {
    let v = vec![1, 2, 3, 3, 3, 4, 5];
    assert_eq!(v.binary_search2(&3), Some(2));
    assert_eq!(v.binary_search2(&6), None);
    assert_eq!(v.binary_search2(&0), None);
}

#[test]
fn test_count() {
    let v = vec![1, 2, 3, 3, 3, 4, 5];
    assert_eq!(v.count(&3), 3);
    assert_eq!(v.count(&6), 0);
    assert_eq!(v.count(&0), 0);
}

#[test]
fn searches_in_empty_slice() {
    let v: Vec<u64> = Vec::new();
    assert_eq!(v.lower_bound(&3), 0);
    assert_eq!(v.upper_bound(&3), 0);
    assert_eq!(v.binary_search2(&3), None);
    assert_eq!(v.count(&3), 0);
}

#[test]
fn searches_a_gap() {
    let v = vec![1, 2, 4, 5];
    assert_eq!(v.lower_bound(&3), 2);
    assert_eq!(v.upper_bound(&3), 2);
    assert_eq!(v.binary_search2(&3), None);
    assert_eq!(v.binary_search2(&5), Some(3));
    assert_eq!(v.count(&1), 1);
}
