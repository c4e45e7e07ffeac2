use std::collections::HashMap;

use cdio_paranoia::constants::CD_FRAMEWORDS;
use cdio_paranoia::error::Error;
use cdio_paranoia::gap::RiftType;
use cdio_paranoia::paranoia::{
    analyze_rift, detect_jitter_offset_static, find_mismatch_position, DriveReply, Paranoia, ReadAction,
    SeekWhence,
};
use cdio_paranoia::types::{ParanoiaCallback, ParanoiaMode};

/// Answer a read from a map of sectors, zeros where a sector is not loaded.
fn stub_read(store: &HashMap<i32, Vec<i16>>, begin: i32, sectors: i64) -> Vec<i16> {
    let mut out = vec![0i16; sectors as usize * CD_FRAMEWORDS];
    for s in 0..sectors {
        if let Some(data) = store.get(&(begin + s as i32)) {
            let n = data.len().min(CD_FRAMEWORDS);
            let at = s as usize * CD_FRAMEWORDS;
            out[at..at + n].copy_from_slice(&data[..n]);
        }
    }
    out
}

/// Run one read to completion against a drive that answers each request.
fn run_read<F>(p: &mut Paranoia, mut drive: F) -> Result<Vec<i16>, Error>
where
    F: FnMut(i32, i64) -> Option<Vec<i16>>,
{
    let mut action = p.start_read();
    loop {
        match action {
            ReadAction::ReadAudio { begin, sectors } => {
                let reply = match drive(begin, sectors) {
                    Some(d) => DriveReply::Samples(d),
                    None => DriveReply::Failed,
                };
                action = p.resume(reply);
            }
            ReadAction::Backoff { .. } => {
                action = p.resume(DriveReply::Settled);
            }
            ReadAction::Done(r) => return r.map(|_| p.output_buffer().to_vec()),
        }
    }
}

#[test]
fn test_paranoia_creation() {
    let paranoia = Paranoia::new(0, 0);
    assert_eq!(paranoia.mode(), ParanoiaMode::full());
}

#[test]
fn test_paranoia_mode_set() {
    let mut paranoia = Paranoia::new(0, 0);

    paranoia.set_mode(ParanoiaMode::disable());
    assert_eq!(paranoia.mode(), ParanoiaMode::disable());

    paranoia.set_mode(ParanoiaMode::verify().union(ParanoiaMode::overlap()));
    assert!(paranoia.mode().contains(ParanoiaMode::verify()));
    assert!(paranoia.mode().contains(ParanoiaMode::overlap()));
}

#[test]
fn test_paranoia_seek() {
    // A one-track test disc with audio from sector 0 to sector 100.
    let mut paranoia = Paranoia::new(0, 100);

    let pos = paranoia.seek(50, SeekWhence::Start);
    assert_eq!(pos, 50);
    assert_eq!(paranoia.cursor_sector(), 50);
}

#[test]
fn test_paranoia_read_disabled() {
    let mut store = HashMap::new();
    let test_data: Vec<i16> = (0..CD_FRAMEWORDS)
        .map(|value| i16::try_from(value).expect("CD_FRAMEWORDS fits in i16"))
        .collect();
    store.insert(0, test_data.clone());

    let mut paranoia = Paranoia::new(0, 10);
    paranoia.set_mode(ParanoiaMode::disable());

    let result = run_read(&mut paranoia, |b, s| Some(stub_read(&store, b, s)));
    assert!(result.is_ok());
    let data = result.unwrap();
    assert_eq!(data.len(), CD_FRAMEWORDS);
}

#[test]
fn test_fragment_based_verification() {
    let mut store = HashMap::new();
    for sector in 0..50usize {
        let test_data: Vec<i16> =
            (0..CD_FRAMEWORDS).map(|i| ((sector * CD_FRAMEWORDS + i) % 32768) as i16).collect();
        store.insert(sector as i32, test_data);
    }

    let mut paranoia = Paranoia::new(0, 50);
    paranoia.set_mode(ParanoiaMode::full());

    for _ in 0..5 {
        let result = run_read(&mut paranoia, |b, s| Some(stub_read(&store, b, s)));
        assert!(result.is_ok());
    }

    assert!(paranoia.fragment_count() > 0);
}

fn ramp_disc(sectors: i32) -> HashMap<i32, Vec<i16>> {
    let mut store = HashMap::new();
    for sector in 0..sectors {
        let data: Vec<i16> = (0..CD_FRAMEWORDS)
            .map(|i| (((sector as usize * CD_FRAMEWORDS + i) * 7) % 30000) as i16)
            .collect();
        store.insert(sector, data);
    }
    store
}

#[test]
fn paranoia_verified_reads_return_the_disc() {
    let store = ramp_disc(40);
    let mut paranoia = Paranoia::new(0, 39);
    for sector in 0..40 {
        let frame = run_read(&mut paranoia, |b, s| Some(stub_read(&store, b, s))).unwrap();
        assert_eq!(frame, store[&sector]);
        assert_eq!(paranoia.cursor_sector(), sector + 1);
    }
    let reports = paranoia.take_reports();
    assert_eq!(reports.first().map(|r| r.event), Some(ParanoiaCallback::Read));
    assert_eq!(reports.last().map(|r| r.event), Some(ParanoiaCallback::Finished));
    assert!(paranoia.take_reports().is_empty());
    // Past the last sector
    let past = run_read(&mut paranoia, |b, s| Some(stub_read(&store, b, s)));
    assert!(matches!(past, Err(Error::UnaddressableSector(40))));
}

#[test]
fn paranoia_second_read_fetches_whole_batch() {
    let store = ramp_disc(60);
    let mut paranoia = Paranoia::new(0, 59);
    let first = paranoia.start_read();
    // overlap of 2 sectors before sector 0 is clipped to the range start
    assert!(matches!(first, ReadAction::ReadAudio { begin: 0, sectors: 28 }));
    let second = paranoia.resume(DriveReply::Samples(stub_read(&store, 0, 28)));
    assert!(matches!(second, ReadAction::ReadAudio { begin: 0, sectors: 28 }));
    let done = paranoia.resume(DriveReply::Samples(stub_read(&store, 0, 28)));
    assert!(matches!(done, ReadAction::Done(Ok(()))));
    assert_eq!(paranoia.output_buffer(), &store[&0][..]);
    assert_eq!(paranoia.fragment_count(), 1);
    // 28 sectors, with half a frame of edge at each end unverified
    assert_eq!(paranoia.total_verified_samples(), 28 * CD_FRAMEWORDS - CD_FRAMEWORDS);
    assert!(paranoia.last_frame_verified() == false);
    assert_eq!(paranoia.last_frame_verified_count(), CD_FRAMEWORDS - 588);
}

#[test]
fn paranoia_failing_drive_skips_with_silence() {
    let mut paranoia = Paranoia::new(0, 10);
    // Full paranoia but for never-skip.
    paranoia.set_mode(ParanoiaMode::from_bits_retain(0xFF & !0x20));
    let frame = run_read(&mut paranoia, |_, _| None).unwrap();
    assert_eq!(frame, vec![0i16; CD_FRAMEWORDS]);
    assert_eq!(paranoia.cursor_sector(), 1);
    let reports = paranoia.take_reports();
    assert!(reports.iter().any(|r| r.event == ParanoiaCallback::ReadError));
    assert!(reports.iter().any(|r| r.event == ParanoiaCallback::Overlap));
    assert_eq!(reports.last().map(|r| r.event), Some(ParanoiaCallback::Skip));
}

#[test]
fn paranoia_failing_drive_neverskip_errors() {
    let mut paranoia = Paranoia::new(0, 10);
    paranoia.set_mode(ParanoiaMode::full().union(ParanoiaMode::neverskip()));
    let result = run_read(&mut paranoia, |_, _| None);
    assert!(matches!(result, Err(Error::SectorSkip(0, 20))));
    assert_eq!(paranoia.cursor_sector(), 0);
    // A new reader is in full mode, so it never skips either.
    let mut fresh = Paranoia::new(0, 10);
    let result = run_read(&mut fresh, |_, _| None);
    assert!(matches!(result, Err(Error::SectorSkip(0, 20))));
    assert_eq!(fresh.cursor_sector(), 0);
}

#[test]
fn paranoia_backoff_moves_back_and_waits() {
    let mut paranoia = Paranoia::new(0, 100);
    assert_eq!(paranoia.seek(40, SeekWhence::Start), 40);
    let mut action = paranoia.start_read();
    for _ in 0..3 {
        assert!(matches!(action, ReadAction::ReadAudio { .. }));
        action = paranoia.resume(DriveReply::Failed);
    }
    match action {
        ReadAction::Backoff { sector, delay } => {
            assert_eq!(sector, 40 - 16);
            assert_eq!(delay.as_millis(), 50);
        }
        other => panic!("unexpected action {other:?}"),
    }
}

#[test]
fn paranoia_unverifiable_reads_go_to_consensus() {
    let mut paranoia = Paranoia::new(0, 30);
    let mut count = 0i16;
    let frame = run_read(&mut paranoia, |b, s| {
        let k = count;
        count += 1;
        Some(
            (0..(s as usize * CD_FRAMEWORDS))
                .map(|i| (((b as usize * CD_FRAMEWORDS + i) % 300) as i16) * 100 + k * 7)
                .collect(),
        )
    })
    .unwrap();
    // every read differs: the vote falls to the first read
    let expected: Vec<i16> = (0..CD_FRAMEWORDS).map(|i| ((i % 300) as i16) * 100).collect();
    assert_eq!(frame, expected);
    let reports = paranoia.take_reports();
    assert!(reports.iter().any(|r| r.event == ParanoiaCallback::Verify));
    assert!(reports.iter().any(|r| r.event == ParanoiaCallback::Scratch));
    // two reads that disagree, then three more for the vote
    assert_eq!(count, 5);
}

#[test]
fn paranoia_set_range_and_settings() {
    let mut paranoia = Paranoia::new(0, 100);
    assert_eq!(paranoia.seek(80, SeekWhence::Start), 80);
    paranoia.set_range(10, 50, 0, 100);
    assert_eq!(paranoia.cursor_sector(), 10);
    assert_eq!(paranoia.seek(-5, SeekWhence::End), 45);
    assert_eq!(paranoia.seek(100, SeekWhence::Current), 50);
    assert_eq!(paranoia.seek(-100, SeekWhence::Current), 10);
    assert_eq!(paranoia.cursor(), 10 * CD_FRAMEWORDS as i64);
    assert_eq!(paranoia.cache_model_size(-1), 1200);
    assert_eq!(paranoia.cache_model_size(5), 1200);
    assert_eq!(paranoia.cache_model_size(-1), 5);
    paranoia.set_overlap(1);
    paranoia.set_range(-10, 500, 0, 100);
    assert_eq!(paranoia.cursor_sector(), 10);
    assert_eq!(paranoia.seek(0, SeekWhence::End), 100);
}

#[test]
fn paranoia_detect_jitter() {
    let reference: Vec<i16> = (0..200).collect();
    let mut shifted = vec![-1i16, -1, -1];
    shifted.extend_from_slice(&reference);
    assert_eq!(detect_jitter_offset_static(&reference, &shifted, 10), 3);
    assert_eq!(detect_jitter_offset_static(&shifted, &reference, 10), -3);
    assert_eq!(detect_jitter_offset_static(&reference, &reference, 10), 0);
    assert_eq!(detect_jitter_offset_static(&reference, &shifted, 2), 0);
    assert_eq!(detect_jitter_offset_static(&reference[..10], &shifted, 10), 0);
}

#[test]
fn paranoia_mismatch_and_rift() {
    let a: Vec<i16> = (0..100).map(|i| i * 10).collect();
    let mut b = a.clone();
    b.insert(20, 190);
    assert_eq!(find_mismatch_position(&a, &b), Some(20));
    assert_eq!(find_mismatch_position(&a, &a), None);
    assert_eq!(find_mismatch_position(&a[..5], &b), None);
    assert_eq!(analyze_rift(&a, &b, 20), RiftType::StutterInB(1));
    let quiet_a = vec![0i16; 100];
    let mut quiet_b = vec![0i16; 100];
    quiet_b[10] = 3;
    assert_eq!(analyze_rift(&quiet_a, &quiet_b, 10), RiftType::NoRift);
}

#[test]
fn paranoia_cached_batch_verifies_without_second_read() {
    let store = ramp_disc(60);
    let mut paranoia = Paranoia::new(0, 59);
    // First time: the cache is empty, so the batch is read twice.
    let first = paranoia.start_read();
    assert!(matches!(first, ReadAction::ReadAudio { begin: 0, sectors: 28 }));
    let second = paranoia.resume(DriveReply::Samples(stub_read(&store, 0, 28)));
    assert!(matches!(second, ReadAction::ReadAudio { begin: 0, sectors: 28 }));
    let done = paranoia.resume(DriveReply::Samples(stub_read(&store, 0, 28)));
    assert!(matches!(done, ReadAction::Done(Ok(()))));
    assert_eq!(paranoia.cache.len(), 1);
    // Read the same sector again with the root emptied: the batch is the
    // same, and the cache verifies it from one read.
    paranoia.cursor = 0;
    paranoia.root.clear();
    let again = paranoia.start_read();
    assert!(matches!(again, ReadAction::ReadAudio { begin: 0, sectors: 28 }));
    let done = paranoia.resume(DriveReply::Samples(stub_read(&store, 0, 28)));
    assert!(matches!(done, ReadAction::Done(Ok(()))));
    assert_eq!(paranoia.output_buffer(), &store[&0][..]);
    assert_eq!(paranoia.cache.len(), 2);
}

#[test]
fn paranoia_shifted_second_read_agrees() {
    let store = ramp_disc(60);
    let mut paranoia = Paranoia::new(0, 59);
    let first = paranoia.start_read();
    assert!(matches!(first, ReadAction::ReadAudio { begin: 0, sectors: 28 }));
    let read1 = stub_read(&store, 0, 28);
    let second = paranoia.resume(DriveReply::Samples(read1.clone()));
    assert!(matches!(second, ReadAction::ReadAudio { begin: 0, sectors: 28 }));
    // The second read arrives three samples late.
    let mut read2 = vec![0i16; 3];
    read2.extend_from_slice(&read1[..read1.len() - 3]);
    let done = paranoia.resume(DriveReply::Samples(read2));
    assert!(matches!(done, ReadAction::Done(Ok(()))));
    assert_eq!(paranoia.output_buffer(), &store[&0][..]);
    let events: Vec<ParanoiaCallback> = paranoia.take_reports().iter().map(|r| r.event).collect();
    assert!(events.contains(&ParanoiaCallback::FixupEdge));
}
