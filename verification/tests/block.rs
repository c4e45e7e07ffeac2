use cdio_paranoia::block::{CBlock, RootBlock, VFragment};
use cdio_paranoia::types::SampleFlags;

#[test]
fn test_cblock_creation() {
    let data = vec![1i16, 2, 3, 4, 5];
    let block = CBlock::from_sectors(&data, 100, 0);
    assert_eq!(block.len(), 5);
    assert_eq!(block.begin, 100);
    assert_eq!(block.end(), 105);
}

#[test]
fn test_cblock_contains() {
    let data = vec![1i16, 2, 3, 4, 5];
    let block = CBlock::from_sectors(&data, 100, 0);
    assert!(block.contains(100));
    assert!(block.contains(104));
    assert!(!block.contains(99));
    assert!(!block.contains(105));
}

#[test]
fn test_cblock_get() {
    let data = vec![10i16, 20, 30, 40, 50];
    let block = CBlock::from_sectors(&data, 100, 0);
    assert_eq!(block.get(100), Some(10));
    assert_eq!(block.get(102), Some(30));
    assert_eq!(block.get(99), None);
}

#[test]
fn test_vfragment_from_cblock() {
    let data = vec![1i16, 2, 3, 4, 5, 6, 7, 8, 9, 10];
    let block = CBlock::from_sectors(&data, 100, 0);
    let frag = VFragment::from_cblock(&block, 102, 107);
    assert_eq!(frag.len(), 5);
    assert_eq!(frag.begin, 102);
    assert_eq!(frag.vector, vec![3, 4, 5, 6, 7]);
}

#[test]
fn test_vfragment_merge() {
    // Create two overlapping verified fragments
    let data1: Vec<i16> = (0..100).collect();
    let data2: Vec<i16> = (50..150).collect();

    let mut frag1 = VFragment::from_samples_verified(&data1, 0, 0);
    let frag2 = VFragment::from_samples_verified(&data2, 50, 0);

    // Merge should succeed (overlapping region 50-100 matches)
    assert!(frag1.try_merge(&frag2));

    // Result should span 0-150
    assert_eq!(frag1.begin, 0);
    assert_eq!(frag1.end(), 150);
    assert_eq!(frag1.len(), 150);

    // Overlapping region should be verified
    for i in 50..100 {
        assert!(frag1.is_verified(i), "Sample {i} should be verified");
    }
}

#[test]
fn test_vfragment_merge_mismatch() {
    let data1: Vec<i16> = (0..100).collect();
    let mut data2: Vec<i16> = (50..150).collect();
    data2[0] = 9999; // Mismatch at position 50

    let mut frag1 = VFragment::from_samples_verified(&data1, 0, 0);
    let frag2 = VFragment::from_samples_verified(&data2, 50, 0);

    // Merge should fail (overlapping region doesn't match)
    assert!(!frag1.try_merge(&frag2));

    // Original fragment should be unchanged
    assert_eq!(frag1.len(), 100);
}

#[test]
fn test_root_block_merge_fragment() {
    let mut root = RootBlock::new();

    let data1: Vec<i16> = (0..100).collect();
    let frag1 = VFragment::from_samples_verified(&data1, 0, 0);
    root.merge_fragment(&frag1);

    assert_eq!(root.begin, 0);
    assert_eq!(root.end(), 100);

    let data2: Vec<i16> = (50..200).collect();
    let frag2 = VFragment::from_samples_verified(&data2, 50, 0);
    root.merge_fragment(&frag2);

    // Root should now span 0-200
    assert_eq!(root.begin, 0);
    assert_eq!(root.end(), 200);

    assert!(root.frame_verified_count(0) > 0);
}

#[test]
fn block_cblock_flags_and_marking() {
    let data = vec![1i16, 2, 3, 4, 5];
    let mut block = CBlock::from_sectors(&data, 10, 3);
    assert_eq!(block.get_flags(12), Some(SampleFlags::none()));
    block.mark_verified(11, 13);
    assert_eq!(block.get_flags(11), Some(SampleFlags::verified()));
    assert_eq!(block.get_flags(12), Some(SampleFlags::verified()));
    assert_eq!(block.get_flags(13), Some(SampleFlags::none()));
    assert_eq!(block.get_flags(20), None);
    block.clear();
    assert!(block.is_empty());
    assert_eq!(block.begin, 0);
}

#[test]
fn block_fragment_merge_adjacent_and_gap() {
    let mut a = VFragment::from_samples(&[1, 2, 3], 0, 1);
    let b = VFragment::from_samples(&[4, 5], 3, 2);
    assert!(a.try_merge(&b));
    assert_eq!(a.vector, vec![1, 2, 3, 4, 5]);
    assert_eq!(a.lastsector, 2);
    // Adjacent fragments share no position, so nothing becomes verified.
    assert_eq!(a.verified_count(), 0);

    let c = VFragment::from_samples(&[9], 10, 5);
    assert!(!a.try_merge(&c));
    assert_eq!(a.len(), 5);
}

#[test]
fn block_fragment_edges() {
    let data: Vec<i16> = (0..10).collect();
    let mut frag = VFragment::from_samples_verified(&data, 0, 0);
    frag.mark_edges(2);
    assert!(frag.get_flags(0).unwrap().is_edge());
    assert!(!frag.is_verified(1));
    assert!(frag.is_verified(2));
    assert!(frag.is_verified(7));
    assert!(!frag.is_verified(8));
    assert_eq!(frag.verified_count(), 6);
    assert!(!frag.all_verified());
}

#[test]
fn block_root_prefers_verified_samples() {
    let mut root = RootBlock::new();
    let unverified = VFragment::from_samples(&[1, 1, 1, 1], 0, 0);
    root.merge_fragment(&unverified);
    let verified = VFragment::from_samples_verified(&[2, 2], 1, 0);
    root.merge_fragment(&verified);
    assert_eq!(root.vector, vec![1, 2, 2, 1]);
    assert!(!root.flags[0].is_verified());
    assert!(root.flags[1].is_verified());
    // Prepend
    let before = VFragment::from_samples(&[7, 8, 1], -2, 0);
    root.merge_fragment(&before);
    assert_eq!(root.begin, -2);
    assert_eq!(root.vector, vec![7, 8, 1, 2, 2, 1]);
}

#[test]
fn block_root_extract_frame() {
    let mut root = RootBlock::new();
    let data: Vec<i16> = (0..3000).map(|v| (v % 1000) as i16).collect();
    let frag = VFragment::from_samples_verified(&data, 1176, 0);
    root.merge_fragment(&frag);
    let frame = root.extract_frame(1176).unwrap();
    assert_eq!(frame.len(), 1176);
    assert_eq!(frame[0], 0);
    assert_eq!(frame[1175], 175);
    assert!(root.extract_frame(1176 * 2 + 1000).is_none());
    assert!(root.extract_frame(0).is_none());
    assert!(root.is_frame_verified(1176));
    assert_eq!(root.frame_verified_count(1176 + 3000 - 100), 100);
}

#[test]
fn test_cblock_set_flags() {
    let data = vec![10i16, 20, 30];
    let mut block = CBlock::from_sectors(&data, 100, 0);
    block.set_flags(101, SampleFlags::verified());
    assert_eq!(block.get_flags(101), Some(SampleFlags::verified()));
    assert_eq!(block.get_flags(100), Some(SampleFlags::none()));
    // Outside the block nothing changes.
    block.set_flags(103, SampleFlags::verified());
    assert_eq!(block.get_flags(103), None);
    assert_eq!(block.get(101), Some(20));
}

#[test]
fn block_mark_verified_marks_only_the_range() {
    let f0 = VFragment::from_samples(&[1i16, 2, 3, 4, 5], 100, 0);
    let mut f = f0.clone();
    f.mark_verified(101, 103);
    assert!(!f.is_verified(100) && f.is_verified(101) && f.is_verified(102) && !f.is_verified(103));
    assert_eq!(f.verified_count(), 2);
    assert_eq!(f.vector, f0.vector);
    // A range before the fragment, a reversed range and one past it mark nothing.
    let mut g = f0.clone();
    g.mark_verified(50, 60);
    g.mark_verified(104, 101);
    g.mark_verified(200, 300);
    assert_eq!(g.verified_count(), 0);
    let mut block = CBlock::from_sectors(&[1i16, 2, 3], 100, 0);
    block.mark_verified(50, 60);
    assert_eq!(block.get_flags(100), Some(SampleFlags::none()));
    block.mark_verified(90, 101);
    assert_eq!(block.get_flags(100), Some(SampleFlags::verified()));
    assert_eq!(block.get_flags(101), Some(SampleFlags::none()));
    // A portion outside a block is empty.
    assert!(VFragment::from_cblock(&block, 50, 60).is_empty());
    assert_eq!(VFragment::from_cblock(&block, 101, 200).len(), 2);
}

#[test]
fn block_verified_count_is_verified_positions() {
    let mut f = VFragment::from_samples(&[1i16, 2, 3, 4, 5, 6], 40, 0);
    f.mark_verified(41, 43);
    f.mark_verified(45, 46);
    let positions = (40..46).filter(|&p| f.is_verified(p)).count();
    assert_eq!(f.verified_count(), positions);
    assert_eq!(positions, 3);
}

#[test]
fn block_verified_frame_is_whole() {
    let mut root = RootBlock::new();
    let data: Vec<i16> = (0..2500).map(|v| (v % 700) as i16).collect();
    root.merge_fragment(&VFragment::from_samples_verified(&data, 0, 0));
    for pos in [0i64, 100, 1324] {
        assert!(root.is_frame_verified(pos));
        assert!(root.extract_frame(pos).is_some());
        assert_eq!(root.frame_verified_count(pos), 1176);
    }
    assert!(!root.is_frame_verified(1325));
}
