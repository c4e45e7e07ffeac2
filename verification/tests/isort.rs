use cdio_paranoia::isort::{find_match, sample_to_bucket, SortInfo};

#[test]
fn test_sort_info_creation() {
    let data = vec![100i16, 200, 100, 300, 100];
    let sort = SortInfo::from_vector(&data, 0);
    assert_eq!(sort.len(), 5);
}

#[test]
fn test_find_first() {
    let data = vec![100i16, 200, 100, 300, 100];
    let sort = SortInfo::from_vector(&data, 10);

    // Value 100 appears at positions 10, 12, 14
    let first = sort.find_first(100);
    assert!(first.is_some());
    let pos = first.unwrap();
    assert!(pos == 10 || pos == 12 || pos == 14);

    // Value 200 appears at position 11
    assert_eq!(sort.find_first(200), Some(11));

    // Value 999 doesn't exist
    assert_eq!(sort.find_first(999), None);
}

#[test]
fn test_find_all() {
    let data = vec![100i16, 200, 100, 300, 100];
    let sort = SortInfo::from_vector(&data, 10);

    let all = sort.find_all(100);
    assert_eq!(all.len(), 3);
    assert!(all.contains(&10));
    assert!(all.contains(&12));
    assert!(all.contains(&14));
}

#[test]
fn test_search_range() {
    let data = vec![100i16, 200, 100, 300, 100];
    let mut sort = SortInfo::from_vector(&data, 10);

    assert_eq!(sort.find_all(100).len(), 3);

    sort.set_search_range(11, 14);
    assert_eq!(sort.find_all(100).len(), 1);
    assert_eq!(sort.find_first(100), Some(12));
}

#[test]
fn test_sample_to_bucket() {
    assert_eq!(sample_to_bucket(-32768), 0);
    assert_eq!(sample_to_bucket(0), 32768);
    assert_eq!(sample_to_bucket(32767), 65535);
}

#[test]
fn test_find_match() {
    let block_a = vec![1i16, 2, 3, 4, 5, 6, 7, 8];
    let block_b = vec![10i16, 20, 1, 2, 3, 4, 5, 30];
    let sort_b = SortInfo::from_vector(&block_b, 100);

    let offset = find_match(&block_a, 0, 0, &sort_b, 5);
    assert_eq!(offset, Some(102));
}

#[test]
fn isort_find_all_descending_and_get() {
    let data = vec![7i16, 1, 7, 7];
    let sort = SortInfo::from_vector(&data, -2);
    assert_eq!(sort.find_all(7), vec![1, 0, -2]);
    assert_eq!(sort.find_first(7), Some(1));
    assert_eq!(sort.get(-1), Some(1));
    assert_eq!(sort.get(2), None);
    assert_eq!(sort.get(-3), None);
    assert_eq!(sort.vector(), &[7, 1, 7, 7][..]);
}

#[test]
fn isort_match_iterator_and_rebuild() {
    let data = vec![3i16, 4, 3];
    let mut sort = SortInfo::from_vector(&data, 0);
    let mut it = sort.iter_matches(3);
    assert_eq!(it.next(), Some(2));
    assert_eq!(it.next(), Some(0));
    assert_eq!(it.next(), None);
    sort.rebuild(&[9, 9], 50);
    assert_eq!(sort.find_all(9), vec![51, 50]);
    assert_eq!(sort.find_all(3), Vec::<i64>::new());
    sort.clear();
    assert!(sort.is_empty());
}

#[test]
fn isort_find_match_needs_full_run() {
    let block_a = vec![1i16, 2, 3, 4];
    let block_b = vec![1i16, 2, 3, 9];
    let sort_b = SortInfo::from_vector(&block_b, 0);
    assert_eq!(find_match(&block_a, 0, 0, &sort_b, 3), Some(0));
    assert_eq!(find_match(&block_a, 0, 0, &sort_b, 4), None);
    // A position outside block A finds nothing.
    assert_eq!(find_match(&block_a, 10, 0, &sort_b, 1), None);
}

#[test]
fn isort_bucket_order() {
    assert_eq!(sample_to_bucket(-1), 32767);
    assert_eq!(sample_to_bucket(1), 32769);
}
