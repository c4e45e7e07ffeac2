use cdio_paranoia::constants::MIN_WORDS_OVERLAP;
use cdio_paranoia::isort::SortInfo;
use cdio_paranoia::overlap::{find_overlap, DynamicOverlap, OffsetStats, MAX_OVERLAP_WORDS};

#[test]
fn test_offset_stats() {
    let mut stats = OffsetStats::new(5);
    stats.add(10);
    stats.add(20);
    stats.add(30);

    assert_eq!(stats.mean(), 20);
    assert_eq!(stats.max_abs(), 30);
}

#[test]
fn test_dynamic_overlap() {
    let mut overlap = DynamicOverlap::new();
    assert_eq!(overlap.overlap, MIN_WORDS_OVERLAP);

    for i in 0..15 {
        overlap.record_jitter(i * 10, 1);
    }

    assert!(overlap.overlap >= MIN_WORDS_OVERLAP);
}

#[test]
fn test_find_overlap() {
    let existing = vec![0i16, 1, 2, 3, 4, 5, 6, 7, 8, 9];
    let sort = SortInfo::from_vector(&existing, 100);

    let new = vec![5i16, 6, 7, 8, 9, 10, 11, 12];

    let offset = find_overlap(&new, 200, &sort, 4, 100);
    assert!(offset.is_some());
    assert_eq!(offset.unwrap(), -95);
}

#[test]
fn overlap_stats_window_wraps() {
    let mut stats = OffsetStats::new(2);
    stats.add(10);
    stats.add(-30);
    stats.add(6);
    // The window holds the last two offsets: -30 and 6.
    assert_eq!(stats.mean(), -12);
    assert_eq!(stats.max_abs(), 30);
    stats.clear();
    assert_eq!(stats.mean(), 0);
    assert_eq!(stats.max_abs(), 0);
}

#[test]
fn overlap_stats_mean_rounds_toward_zero() {
    let mut stats = OffsetStats::new(4);
    stats.add(-1);
    stats.add(-2);
    assert_eq!(stats.mean(), -1);
    stats.add(10);
    assert_eq!(stats.mean(), 2);
}

#[test]
fn overlap_margin_twice_std_dev() {
    let mut stats = OffsetStats::new(4);
    stats.add(2);
    stats.add(4);
    stats.add(4);
    stats.add(6);
    // Sample variance 8/3; twice the standard deviation is 3.26..., floored.
    assert_eq!(stats.margin(), 3);
    let mut one = OffsetStats::new(4);
    one.add(100);
    assert_eq!(one.margin(), 0);
}

#[test]
fn overlap_recalibration_after_ten_measurements() {
    let mut d = DynamicOverlap::new();
    for _ in 0..9 {
        d.record_jitter(100, 1);
    }
    assert_eq!(d.overlap, MIN_WORDS_OVERLAP);
    d.record_jitter(100, 1);
    // max jitter 100, no spread, plus the minimum overlap
    assert_eq!(d.overlap, 164);
    assert_eq!(d.search, 164);
    assert_eq!(d.drift, 50);
    assert_eq!(d.overlap_sectors(), 1);
}

#[test]
fn overlap_recalibration_is_capped() {
    let mut d = DynamicOverlap::new();
    for _ in 0..10 {
        d.record_jitter(1_000_000, 2);
    }
    assert_eq!(d.overlap, MAX_OVERLAP_WORDS);
    assert_eq!(d.overlap_sectors(), 32);
    d.set_overlap(5);
    assert_eq!(d.overlap, MIN_WORDS_OVERLAP);
    d.reset();
    assert_eq!(d.overlap, MIN_WORDS_OVERLAP);
    assert_eq!(d.drift, 0);
}

#[test]
fn overlap_find_overlap_none() {
    let existing = vec![0i16, 1, 2, 3];
    let sort = SortInfo::from_vector(&existing, 0);
    let new = vec![7i16, 8, 9];
    assert_eq!(find_overlap(&new, 0, &sort, 2, 10), None);
}
