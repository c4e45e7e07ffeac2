//! Constants shared by the whole library.

use vstd::prelude::*;

verus! {

/// CD frame size in bytes (2352 bytes per sector).
pub const CDIO_CD_FRAMESIZE_RAW: usize = 2352;

/// Number of 16-bit samples per CD frame.
pub const CD_FRAMEWORDS: usize = CDIO_CD_FRAMESIZE_RAW / 2;

/// Number of stereo samples per frame.
pub const CD_FRAMESAMPLES: usize = CDIO_CD_FRAMESIZE_RAW / 4;

/// Maximum number of tracks on a CD.
pub const MAXTRK: usize = 100;

/// Minimum overlap in 16-bit words.
pub const MIN_WORDS_OVERLAP: i64 = 64;

/// Minimum search window in 16-bit words.
pub const MIN_WORDS_SEARCH: i64 = 64;

/// Minimum rift size in 16-bit words.
pub const MIN_WORDS_RIFT: i64 = 16;

/// Maximum sector overlap.
pub const MAX_SECTOR_OVERLAP: i64 = 32;

/// Minimum sector epsilon in words.
pub const MIN_SECTOR_EPSILON: i64 = 128;

/// Minimum silence boundary in words.
pub const MIN_SILENCE_BOUNDARY: i64 = 1024;

/// Default cache model size in sectors.
pub const CACHEMODEL_SECTORS: i32 = 1200;

/// Sample rate for CD audio (Hz).
pub const CD_SAMPLE_RATE: u32 = 44100;

/// Number of channels (stereo).
pub const CD_CHANNELS: u8 = 2;

/// Bits per sample.
pub const CD_BITS_PER_SAMPLE: u8 = 16;

/// Version string of this library.
pub const VERSION: &'static str = "0.1.0";

} // verus!
