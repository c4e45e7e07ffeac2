use cdio_paranoia::cdda::{get_default_device, samples_from_bytes, version, DiscToc, CDIO_INVALID_LSN};
use cdio_paranoia::error::Error;
use cdio_paranoia::types::TocEntry;

#[test]
fn test_get_default_device() {
    // This may or may not return a device depending on the system
    let _ = get_default_device();
}

#[test]
fn cdda_version_and_bytes() {
    assert_eq!(version(), "0.1.0");
    assert_eq!(samples_from_bytes(&[0x01, 0x00, 0xff, 0xff, 0x00, 0x80], false), vec![1, -1, -32768]);
    assert_eq!(samples_from_bytes(&[0x01, 0x00, 0x7f], true), vec![256]);
    assert!(samples_from_bytes(&[], false).is_empty());
}

#[test]
fn cdda_toc_reading_and_lookups() {
    let mut toc = DiscToc::new();
    let lsns = [0, 100, 200];
    let audio = [true, true, false];
    let last = [99, 199, 299];
    assert!(toc.read_toc(3, 1, &lsns, &audio, &last).is_ok());
    assert_eq!(toc.track_count(), 3);
    assert_eq!(toc.track_first_sector(1).unwrap(), 0);
    assert_eq!(toc.track_first_sector(2).unwrap(), 100);
    assert!(matches!(toc.track_first_sector(4), Err(Error::InvalidTrack(4))));
    assert_eq!(toc.track_last_sector(1).unwrap(), 99);
    assert_eq!(toc.track_last_sector(3).unwrap(), 199);
    assert_eq!(toc.sector_get_track(150), Some(2));
    assert_eq!(toc.sector_get_track(-5), None);
    assert!(toc.track_is_audio(2));
    assert!(!toc.track_is_audio(3));
    assert!(!toc.track_is_audio(0));
    assert_eq!(toc.disc_first_sector(), 0);
    assert_eq!(toc.disc_last_sector(), 199);
    assert_eq!(toc.disc_toc[1], TocEntry { track: 2, start_sector: 100 });
}

#[test]
fn cdda_toc_errors() {
    let mut toc = DiscToc::new();
    assert!(matches!(toc.read_toc(0, 1, &[], &[], &[]), Err(Error::NoAudioTracks)));
    assert!(matches!(toc.read_toc(1, 255, &[0], &[true], &[9]), Err(Error::TocReadError(_))));
    let mut toc = DiscToc::new();
    let r = toc.read_toc(2, 1, &[0, CDIO_INVALID_LSN], &[true, true], &[9, 19]);
    assert!(matches!(r, Err(Error::TocReadError(_))));
    assert_eq!(toc.disc_toc[0].start_sector, 0);
    let mut toc = DiscToc::new();
    let r = toc.read_toc(2, 1, &[0, 10], &[false, false], &[9, 19]);
    assert!(matches!(r, Err(Error::NoAudioTracks)));
    assert_eq!(toc.tracks, 2);
}

#[test]
fn cdda_toc_last_sector_skips_invalid() {
    let mut toc = DiscToc::new();
    let r = toc.read_toc(2, 5, &[150, 400], &[true, true], &[399, CDIO_INVALID_LSN]);
    assert!(r.is_ok());
    assert_eq!(toc.disc_first_sector(), 150);
    assert_eq!(toc.disc_last_sector(), 399);
    assert_eq!(toc.sector_get_track(500), Some(6));
    assert!(toc.valid_track(2));
    assert!(!toc.valid_track(3));
}

#[test]
fn cdda_toc_error_messages() {
    let mut toc = DiscToc::new();
    match toc.read_toc(1, 255, &[0], &[true], &[9]) {
        Err(Error::TocReadError(m)) => assert_eq!(m, "Invalid first track"),
        other => panic!("unexpected {other:?}"),
    }
    let mut toc = DiscToc::new();
    match toc.read_toc(3, 1, &[0, CDIO_INVALID_LSN, CDIO_INVALID_LSN], &[true, true, true], &[9, 19, 29]) {
        Err(Error::TocReadError(m)) => assert_eq!(m, "Invalid LSN for track 2"),
        other => panic!("unexpected {other:?}"),
    }
}

#[test]
fn test_set_even_tracks() {
    let mut toc = DiscToc::new();
    toc.set_even_tracks(3, 0, 10);
    assert_eq!(toc.track_count(), 3);
    assert_eq!(toc.disc_first_sector(), 0);
    assert_eq!(toc.disc_last_sector(), 10);
    let starts: Vec<i32> = (0..3).map(|i| toc.disc_toc[i].start_sector).collect();
    assert_eq!(starts, vec![0, 3, 6]);
    assert_eq!(toc.disc_toc[2].track, 3);
    assert!(toc.track_is_audio(1) && toc.track_is_audio(3));
    // A span that runs backwards rounds toward zero too.
    let mut back = DiscToc::new();
    back.set_even_tracks(3, 10, 0);
    let starts: Vec<i32> = (0..3).map(|i| back.disc_toc[i].start_sector).collect();
    assert_eq!(starts, vec![10, 7, 4]);
    assert_eq!(back.track_first_sector(2).unwrap(), 7);
}

#[test]
fn test_track_queries_from_drive_answers() {
    let mut toc = DiscToc::new();
    toc.set_even_tracks(2, 0, 200);
    // A drive answer is taken where it is valid, else the table's.
    assert_eq!(toc.track_last_sector_from(1, Some(150)).unwrap(), 150);
    assert_eq!(toc.track_last_sector_from(1, Some(CDIO_INVALID_LSN)).unwrap(), 99);
    assert_eq!(toc.track_last_sector_from(2, None).unwrap(), 200);
    assert!(matches!(toc.track_last_sector_from(3, Some(5)), Err(Error::InvalidTrack(3))));
    assert_eq!(toc.sector_get_track_from(150, Some(1)), Some(1));
    assert_eq!(toc.sector_get_track_from(150, Some(255)), Some(2));
    assert_eq!(toc.sector_get_track_from(-1, None), None);
    assert!(!toc.track_is_audio_from(1, Some(false)));
    assert!(toc.track_is_audio_from(1, None));
    assert!(!toc.track_is_audio_from(0, Some(true)));
    assert_eq!(toc.track_channels_from(1, Some(4)), 4);
    assert_eq!(toc.track_channels_from(1, Some(0)), 2);
    assert_eq!(toc.track_channels_from(9, Some(4)), 2);
    assert_eq!(toc.track_flag_from(1, Some(true)), 1);
    assert_eq!(toc.track_flag_from(1, None), 0);
    assert_eq!(toc.track_flag_from(0, Some(true)), -1);
}

#[test]
fn test_track_info() {
    let mut toc = DiscToc::new();
    toc.set_even_tracks(3, 0, 300);

    assert_eq!(toc.track_count(), 3);
    assert_eq!(toc.track_first_sector(1).unwrap(), 0);
    assert_eq!(toc.track_first_sector(2).unwrap(), 100);
}
