use cdio_paranoia::consensus::{
    find_mismatches, vote_samples, vote_three, ConsensusBuilder, ReadResult, MIN_READS_FOR_CONSENSUS,
};

#[test]
fn test_vote_three() {
    assert_eq!(vote_three(1, 1, 2), 1);
    assert_eq!(vote_three(1, 2, 1), 1);
    assert_eq!(vote_three(2, 1, 1), 1);
    assert_eq!(vote_three(1, 2, 3), 1); // No majority, returns a
}

#[test]
fn test_vote_samples() {
    let read1: Vec<i16> = vec![1, 2, 3, 4, 5];
    let read2: Vec<i16> = vec![1, 2, 3, 4, 5];
    let read3: Vec<i16> = vec![1, 9, 3, 4, 5];

    let result = vote_samples(&[&read1, &read2, &read3]).unwrap();
    assert_eq!(result, vec![1, 2, 3, 4, 5]);
}

#[test]
fn test_consensus_builder() {
    let mut builder = ConsensusBuilder::new(0, 10);

    builder.add_read(ReadResult::new(vec![1, 2, 3, 4, 5, 6, 7, 8, 9, 10], 0, 0));
    builder.add_read(ReadResult::new(vec![1, 2, 3, 4, 5, 6, 7, 8, 9, 10], 0, 0));
    builder.add_read(ReadResult::new(vec![1, 2, 99, 4, 5, 6, 7, 8, 9, 10], 0, 0));

    assert!(builder.has_enough_reads());

    let result = builder.build_with_stats().unwrap();
    assert_eq!(result.samples[2], 3); // Majority wins over 99
    let verified_percent = result.verified_count as f64 / result.samples.len() as f64 * 100.0;
    assert!(verified_percent > 90.0);
}

#[test]
fn test_read_result_with_jitter() {
    let read = ReadResult::new(vec![10, 20, 30, 40, 50], 100, 2);

    // With jitter of 2, position 102 should map to sample at index 0
    assert_eq!(read.get(102), Some(10));
    assert_eq!(read.get(104), Some(30));
}

#[test]
fn test_find_mismatches() {
    let read1 = vec![1, 2, 3, 4, 5];
    let read2 = vec![1, 9, 3, 9, 5];

    let mismatches = find_mismatches(&read1, &read2);
    assert_eq!(mismatches, vec![1, 3]);
}

#[test]
fn consensus_needs_three_reads() {
    let mut builder = ConsensusBuilder::new(0, 3);
    builder.add_read(ReadResult::new(vec![1, 2, 3], 0, 0));
    builder.add_read(ReadResult::new(vec![1, 2, 3], 0, 0));
    assert_eq!(builder.read_count(), 2);
    assert!(!builder.has_enough_reads());
    assert!(builder.build_with_stats().is_none());
    assert!(builder.build_consensus().is_none());
    assert_eq!(MIN_READS_FOR_CONSENSUS, 3);
}

#[test]
fn consensus_counts_and_acceptability() {
    let mut builder = ConsensusBuilder::new(0, 4);
    builder.add_read(ReadResult::new(vec![1, 2, 3, 4], 0, 0));
    builder.add_read(ReadResult::new(vec![1, 5, 3, 4], 0, 0));
    builder.add_read(ReadResult::new(vec![1, 6, 3, 4], 0, 0));
    let result = builder.build_with_stats().unwrap();
    // Position 1 has no majority: the first value with the most votes wins.
    assert_eq!(result.samples, vec![1, 2, 3, 4]);
    assert_eq!(result.verified_count, 3);
    assert_eq!(result.read_count, 3);
    assert_eq!(result.begin, 0);
    assert_eq!(result.end(), 4);
    assert!(!result.is_acceptable());
    assert_eq!(builder.find_disagreements(), vec![1]);
}

#[test]
fn consensus_missing_samples_are_blanked() {
    let mut builder = ConsensusBuilder::new(0, 4);
    builder.add_read(ReadResult::new(vec![1, 2], 0, 0));
    builder.add_read(ReadResult::new(vec![1, 2], 0, 0));
    builder.add_read(ReadResult::new(vec![1, 2], 0, 0));
    let result = builder.build_with_stats().unwrap();
    assert_eq!(result.blanked_count, 2);
    assert_eq!(result.samples[2], 0);
    assert_eq!(result.verified_count, 2);
}

#[test]
fn consensus_vote_three_majorities() {
    assert_eq!(vote_three(5, 7, 7), 7);
    assert_eq!(vote_three(-3, -3, -3), -3);
}

#[test]
fn consensus_vote_samples_edge_cases() {
    assert!(vote_samples(&[]).is_none());
    let a: Vec<i16> = vec![1, 2, 3];
    let b: Vec<i16> = vec![4, 2];
    assert!(vote_samples(&[&a, &b]).is_none());
    let c: Vec<i16> = vec![4, 2, 3];
    let voted = vote_samples(&[&a, &c]).unwrap();
    assert_eq!(voted, vec![1, 2, 3]);
}

#[test]
fn consensus_read_result_bounds() {
    let read = ReadResult::new(vec![10, 20, 30], 100, -1);
    assert_eq!(read.get(99), Some(10));
    assert_eq!(read.get(98), None);
    assert_eq!(read.get(102), None);
    assert_eq!(read.end(), 103);
}

#[test]
fn consensus_counts_added_reads() {
    let mut b = ConsensusBuilder::new(0, 4);
    for k in 0..5usize {
        assert_eq!(b.read_count(), k);
        assert_eq!(b.has_enough_reads(), k >= MIN_READS_FOR_CONSENSUS);
        assert_eq!(b.build_consensus().is_some(), b.has_enough_reads());
        b.add_read(ReadResult::new(vec![1, 2, 3, 4], 0, 0));
    }
    assert_eq!(b.read_count(), 5);
}

#[test]
fn consensus_disagreements_are_the_unflagged_positions() {
    let mut b = ConsensusBuilder::new(10, 16);
    b.add_read(ReadResult::new(vec![1, 2, 3, 4], 10, 0));
    b.add_read(ReadResult::new(vec![1, 5, 3, 7], 10, 0));
    b.add_read(ReadResult::new(vec![1, 6, 9, 8], 10, 0));
    let d = b.find_disagreements();
    // Positions 14 and 15 are covered by no read: never reported.
    assert_eq!(d, vec![11, 13]);
    let (_, flags) = b.build_consensus().unwrap();
    for p in 10..16i64 {
        let none = flags[(p - 10) as usize] == cdio_paranoia::types::SampleFlags::none();
        assert_eq!(d.contains(&p), none);
    }
}
