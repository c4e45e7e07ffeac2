use cdio_paranoia::types::{JitterTest, ParanoiaCallback, ParanoiaMode, SampleFlags, TocEntry};

#[test]
fn types_mode_bits() {
    assert_eq!(ParanoiaMode::disable().bits(), 0);
    assert_eq!(ParanoiaMode::full().bits(), 0xFF);
    assert!(ParanoiaMode::disable().is_empty());
    assert!(!ParanoiaMode::verify().is_empty());
    let m = ParanoiaMode::verify().union(ParanoiaMode::neverskip());
    assert_eq!(m.bits(), 0x21);
    assert!(m.contains(ParanoiaMode::neverskip()));
    assert!(!m.contains(ParanoiaMode::overlap()));
    assert_eq!(ParanoiaMode::from_bits_truncate(0x1FF).bits(), 0xFF);
    assert_eq!(ParanoiaMode::from_bits_retain(0x1FF).bits(), 0x1FF);
    assert_eq!(ParanoiaMode::default().bits(), 0xFF);
}

#[test]
fn types_callback_codes_round_trip() {
    for code in 0..16 {
        let cb = ParanoiaCallback::from_code(code);
        assert_eq!(cb.code(), code);
    }
    assert_eq!(ParanoiaCallback::from_code(99), ParanoiaCallback::Read);
    assert_eq!(ParanoiaCallback::from(9), ParanoiaCallback::Overlap);
    assert_eq!(ParanoiaCallback::FixupDuped.as_str(), "fixup_duped");
    assert_eq!(ParanoiaCallback::Finished.as_str(), "finished");
}

#[test]
fn types_sample_flags() {
    assert!(SampleFlags::verified().is_verified());
    assert!(!SampleFlags::verified().is_edge());
    assert!(SampleFlags::edge().is_edge());
    assert!(SampleFlags::blanked().is_blanked());
    assert!(!SampleFlags::none().is_verified());
    assert_eq!(SampleFlags(0x05).is_verified(), true);
    assert_eq!(SampleFlags(0x05).is_edge(), true);
}

#[test]
fn types_toc_and_jitter() {
    let e = TocEntry::default();
    assert_eq!(e, TocEntry { track: 0, start_sector: 0 });
    assert_eq!(JitterTest::Small.code(), 1);
    assert_eq!(JitterTest::Massive.code(), 3);
}
