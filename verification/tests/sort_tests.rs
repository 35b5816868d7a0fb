use mini_bitcask::sort::bubble_sort;

#[test]
fn test_bubble_sort_exact() {
    assert_eq!(bubble_sort(vec![5, 3, 8, 1]), vec![1, 3, 5, 8]);
}

#[test]
fn test_bubble_sort_empty_and_single() {
    assert_eq!(bubble_sort(Vec::new()), Vec::<i32>::new());
    assert_eq!(bubble_sort(vec![7]), vec![7]);
}

#[test]
fn test_bubble_sort_duplicates_and_negatives() {
    assert_eq!(bubble_sort(vec![2, 2, 1, -4, 2]), vec![-4, 1, 2, 2, 2]);
}

#[test]
fn test_bubble_sort_already_sorted() {
    assert_eq!(bubble_sort(vec![1, 2, 3, 4]), vec![1, 2, 3, 4]);
}
