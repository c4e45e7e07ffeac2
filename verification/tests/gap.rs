use cdio_paranoia::gap::{
    analyze_rift_backward, analyze_rift_forward, find_silence_boundary, is_silent, overlap_backward,
    overlap_forward, stutter_or_gap, RiftType,
};

#[test]
fn test_overlap_forward() {
    let a = vec![1i16, 2, 3, 4, 5, 6];
    let b = vec![1i16, 2, 3, 9, 9, 9];

    let count = overlap_forward(&a, 0, 0, &b, 0, 0);
    assert_eq!(count, 3);
}

#[test]
fn test_overlap_backward() {
    let a = vec![9i16, 9, 1, 2, 3, 4];
    let b = vec![9i16, 9, 1, 2, 3, 4];

    let count = overlap_backward(&a, 0, 5, &b, 0, 5);
    assert_eq!(count, 6);

    let c = vec![0i16, 0, 1, 2, 3, 4];
    let count2 = overlap_backward(&a, 0, 5, &c, 0, 5);
    assert_eq!(count2, 4); // Only 1, 2, 3, 4 match
}

#[test]
fn test_is_silent() {
    let silent = vec![0i16, 1, -1, 0, 2, -2];
    let noisy = vec![0i16, 1, 100, 0, 2, -2];

    assert!(is_silent(&silent, 5));
    assert!(!is_silent(&noisy, 5));
}

#[test]
fn test_find_silence_boundary() {
    let data = vec![0i16, 0, 0, 100, 200, 0];

    let boundary = find_silence_boundary(&data, 0, 0, 5);
    assert_eq!(boundary, Some(3));
}

#[test]
fn gap_overlap_with_offsets_and_bounds() {
    let a = vec![5i16, 6, 7, 8];
    let b = vec![0i16, 5, 6, 7, 1];
    // a placed at 10, b at 9: position 10 holds 5 in both.
    assert_eq!(overlap_forward(&a, 10, 10, &b, 9, 10), 3);
    assert_eq!(overlap_forward(&a, 10, 20, &b, 9, 10), 0);
    assert_eq!(overlap_backward(&a, 10, 12, &b, 9, 12), 3);
}

#[test]
fn gap_stutter_and_rifts() {
    // b repeats the sample 3: from the first difference (index 4), b falls
    // back into step one sample later.
    let a: Vec<i16> = (0..40).collect();
    let mut b: Vec<i16> = (0..40).collect();
    b.insert(3, 3);
    let (ma, mb) = stutter_or_gap(&a, 0, 4, &b, 0, 4, 8);
    assert_eq!(ma, 0);
    assert_eq!(mb, 1);
    assert_eq!(analyze_rift_forward(&a, 0, 4, &b, 0, 4, 8), RiftType::StutterInB(1));
    assert_eq!(analyze_rift_forward(&b, 0, 4, &a, 0, 4, 8), RiftType::StutterInA(1));
    // Past the end of a block there is no rift.
    assert_eq!(analyze_rift_forward(&a, 0, 40, &b, 0, 4, 8), RiftType::NoRift);
    // Nothing resynchronises.
    let c = vec![-1i16; 40];
    assert_eq!(analyze_rift_forward(&a, 0, 0, &c, 0, 0, 8), RiftType::Unknown);
}

#[test]
fn gap_backward_rift_outside() {
    let a = vec![1i16, 2, 3, 4, 5];
    let b = vec![1i16, 2, 4, 5, 6];
    assert_eq!(analyze_rift_backward(&a, 5, 2, &b, 0, 1, 4), RiftType::NoRift);
    let c = vec![-1i16; 5];
    assert_eq!(analyze_rift_backward(&a, 0, 4, &c, 0, 4, 4), RiftType::Unknown);
}

#[test]
fn gap_silence_edges() {
    assert!(is_silent(&[], 5));
    assert!(is_silent(&[5, -5], 5));
    assert!(!is_silent(&[6], 5));
    assert_eq!(find_silence_boundary(&[0, 0, 0], 0, 0, 5), None);
    assert_eq!(find_silence_boundary(&[0, 9], 100, 100, 5), Some(101));
    assert_eq!(find_silence_boundary(&[0, 9], 100, 99, 5), None);
    assert_eq!(find_silence_boundary(&[0, -9], 100, 102, 5), None);
}

#[test]
fn gap_most_negative_sample_is_loud() {
    assert!(!is_silent(&[i16::MIN], 5));
    assert!(!is_silent(&[0, 1, i16::MIN], 5));
    assert_eq!(find_silence_boundary(&[0, 2, i16::MIN, 0], 100, 100, 5), Some(102));
}
