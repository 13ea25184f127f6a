use algorithms::order::Tagged;
use algorithms::sort::{BubbleSort, HeapSort, MergeSort, QuickSort, Sort};

#[test]
fn test_bubble_sort() {
    let mut v = vec![3, 2, 1, 4, 5];
    v.bubble_sort();
    assert_eq!(v, vec![1, 2, 3, 4, 5]);

    let mut v = vec![3, 2, 1, 4, 5, 6, 7, 8, 9, 4, 5, 6, 7];
    v.bubble_sort();
    assert_eq!(v, vec![1, 2, 3, 4, 4, 5, 5, 6, 6, 7, 7, 8, 9]);
}

#[test]
fn test_quick_sort() {
    let mut v = vec![3, 2, 1, 4, 5];
    v.quick_sort();
    assert_eq!(v, vec![1, 2, 3, 4, 5]);

    let mut v = vec![3, 2, 1, 4, 5, 6, 7, 8, 9, 4, 5, 6, 7];
    v.quick_sort();
    assert_eq!(v, vec![1, 2, 3, 4, 4, 5, 5, 6, 6, 7, 7, 8, 9]);
}

#[test]
fn test_quick_sort_2() {
    let mut v = vec![8, 2, 9, 8, 1];
    v.quick_sort();
    assert_eq!(v, vec![1, 2, 8, 8, 9]);
}

#[test]
fn test_heap_sort() {
    let mut v = vec![3, 2, 1, 4, 5];
    v.heap_sort();
    assert_eq!(v, vec![1, 2, 3, 4, 5]);

    let mut v = vec![3, 2, 1, 4, 5, 6, 7, 8, 9, 4, 5, 6, 7];
    v.heap_sort();
    assert_eq!(v, vec![1, 2, 3, 4, 4, 5, 5, 6, 6, 7, 7, 8, 9]);
}

#[test]
fn test_merge_sort() {
    let mut v = vec![3, 2, 1, 4, 5];
    v.merge_sort();
    assert_eq!(v, vec![1, 2, 3, 4, 5]);

    let mut v = vec![3, 2, 1, 4, 5, 6, 7, 8, 9, 4, 5, 6, 7];
    v.merge_sort();
    assert_eq!(v, vec![1, 2, 3, 4, 4, 5, 5, 6, 6, 7, 7, 8, 9]);
}

#[test]
fn default_sort_is_quick_sort() {
    let mut v = vec![3, 2, 1, 4, 5, 6, 7, 8, 9, 4, 5, 6, 7];
    Sort::sort(v.as_mut_slice());
    assert_eq!(v, vec![1, 2, 3, 4, 4, 5, 5, 6, 6, 7, 7, 8, 9]);
}

#[test]
fn empty_and_single_unchanged() {
    let empty: Vec<i32> = Vec::new();

    let mut v = empty.clone();
    v.bubble_sort();
    assert_eq!(v, empty);
    let mut v = empty.clone();
    v.quick_sort();
    assert_eq!(v, empty);
    let mut v = empty.clone();
    v.heap_sort();
    assert_eq!(v, empty);
    let mut v = empty.clone();
    v.merge_sort();
    assert_eq!(v, empty);

    let mut v = vec![7];
    v.bubble_sort();
    assert_eq!(v, vec![7]);
    v.quick_sort();
    assert_eq!(v, vec![7]);
    v.heap_sort();
    assert_eq!(v, vec![7]);
    v.merge_sort();
    assert_eq!(v, vec![7]);
}

#[test]
fn sorting_sorted_input_is_identity() {
    let sorted = vec![1, 2, 3, 4, 4, 5, 5, 6, 6, 7, 7, 8, 9];

    let mut v = sorted.clone();
    v.bubble_sort();
    assert_eq!(v, sorted);
    let mut v = sorted.clone();
    v.quick_sort();
    assert_eq!(v, sorted);
    let mut v = sorted.clone();
    v.heap_sort();
    assert_eq!(v, sorted);
    let mut v = sorted.clone();
    v.merge_sort();
    assert_eq!(v, sorted);
}

#[test]
fn bubble_sort_second_run_keeps_result() {
    let mut v = vec![3, 2, 1, 4, 5];
    v.bubble_sort();
    assert_eq!(v, vec![1, 2, 3, 4, 5]);
    v.bubble_sort();
    assert_eq!(v, vec![1, 2, 3, 4, 5]);
}

#[test]
fn quick_sort_pivot_at_range_extremes() {
    // the middle value is the greatest of the range
    let mut v = vec![1, 2, 9, 3, 4];
    v.quick_sort();
    assert_eq!(v, vec![1, 2, 3, 4, 9]);

    // the middle value is the least of the range
    let mut v = vec![5, 7, 0, 6, 8];
    v.quick_sort();
    assert_eq!(v, vec![0, 5, 6, 7, 8]);

    // every value equals the pivot
    let mut v = vec![4, 4, 4, 4, 4, 4];
    v.quick_sort();
    assert_eq!(v, vec![4, 4, 4, 4, 4, 4]);
}

#[test]
fn sorts_descending_input() {
    let expected: Vec<u64> = (0..40).collect();
    let input: Vec<u64> = (0..40).rev().collect();

    let mut v = input.clone();
    v.bubble_sort();
    assert_eq!(v, expected);
    let mut v = input.clone();
    v.quick_sort();
    assert_eq!(v, expected);
    let mut v = input.clone();
    v.heap_sort();
    assert_eq!(v, expected);
    let mut v = input.clone();
    v.merge_sort();
    assert_eq!(v, expected);
}

#[test]
fn sorts_extreme_values() {
    let mut v = vec![i64::MAX, 0, i64::MIN, -1, i64::MAX, i64::MIN];
    v.merge_sort();
    assert_eq!(v, vec![i64::MIN, i64::MIN, -1, 0, i64::MAX, i64::MAX]);
    let mut v = vec![i64::MAX, 0, i64::MIN, -1, i64::MAX, i64::MIN];
    v.heap_sort();
    assert_eq!(v, vec![i64::MIN, i64::MIN, -1, 0, i64::MAX, i64::MAX]);
}

fn tagged(keys: &[i64]) -> Vec<Tagged> {
    keys.iter()
        .enumerate()
        .map(|(i, k)| Tagged { key: *k, tag: i as u64 })
        .collect()
}

#[test]
fn merge_sort_is_stable() {
    let mut v = tagged(&[3, 2, 1, 4, 5, 6, 7, 8, 9, 4, 5, 6, 7]);
    v.merge_sort();
    let keys: Vec<i64> = v.iter().map(|t| t.key).collect();
    assert_eq!(keys, vec![1, 2, 3, 4, 4, 5, 5, 6, 6, 7, 7, 8, 9]);
    let tags: Vec<u64> = v.iter().map(|t| t.tag).collect();
    assert_eq!(tags, vec![2, 1, 0, 3, 9, 4, 10, 5, 11, 6, 12, 7, 8]);
}

#[test]
fn merge_sort_keeps_equal_keys_in_order() {
    let mut v = tagged(&[1, 1, 1, 0, 0, 0]);
    v.merge_sort();
    let tags: Vec<u64> = v.iter().map(|t| t.tag).collect();
    assert_eq!(tags, vec![3, 4, 5, 0, 1, 2]);
}

#[test]
fn unstable_sorts_order_tagged_keys() {
    let input = tagged(&[3, 2, 1, 4, 5, 6, 7, 8, 9, 4, 5, 6, 7]);
    let expected = vec![1, 2, 3, 4, 4, 5, 5, 6, 6, 7, 7, 8, 9];

    let mut v = input.clone();
    v.quick_sort();
    assert_eq!(v.iter().map(|t| t.key).collect::<Vec<i64>>(), expected);
    let mut v = input.clone();
    v.heap_sort();
    assert_eq!(v.iter().map(|t| t.key).collect::<Vec<i64>>(), expected);
    let mut v = input.clone();
    v.bubble_sort();
    assert_eq!(v.iter().map(|t| t.key).collect::<Vec<i64>>(), expected);
}

#[test]
fn range_sorts_leave_the_rest() {
    let mut v = vec![9, 8, 7, 6, 5, 4];
    v._quick_sort(1, 4);
    assert_eq!(v, vec![9, 5, 6, 7, 8, 4]);

    let mut v = vec![9, 8, 7, 6, 5, 4];
    v._merge_sort(2, 5);
    assert_eq!(v, vec![9, 8, 4, 5, 6, 7]);

    let mut v = vec![2, 1];
    v._quick_sort(1, 0);
    assert_eq!(v, vec![2, 1]);
    assert_eq!(v._quick_sort_len(), 2);
    assert_eq!(v._merge_sort_len(), 2);
}

#[test]
fn sorts_small_integer_types() {
    let mut v: Vec<u8> = vec![200, 3, 255, 0, 3];
    v.quick_sort();
    assert_eq!(v, vec![0, 3, 3, 200, 255]);
    let mut w: Vec<i128> = vec![5, -7, i128::MIN, 2];
    w.merge_sort();
    assert_eq!(w, vec![i128::MIN, -7, 2, 5]);
}
