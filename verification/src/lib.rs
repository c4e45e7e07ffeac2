//! Verified core of a CD audio extraction library with error correction.
//!
//! The modules hold the data structures and algorithms that decide what a
//! verified audio frame is: caching and merging of reads, sample indexes,
//! rift analysis, consensus voting, dynamic overlap and backoff policies.
//! Drive access and the C ABI live outside this crate's verified part.

pub mod constants;
pub mod seqs;
pub mod types;
pub mod error;
pub mod backoff;
pub mod gap;
pub mod isort;
pub mod overlap;
pub mod block;
pub mod consensus;
pub mod cdda;
pub mod paranoia;

pub use crate::block::{CBlock, RootBlock, VFragment};
pub use crate::cdda::DiscToc;
pub use crate::constants::{
    CACHEMODEL_SECTORS, CDIO_CD_FRAMESIZE_RAW, CD_BITS_PER_SAMPLE, CD_CHANNELS, CD_FRAMESAMPLES, CD_FRAMEWORDS,
    CD_SAMPLE_RATE, MAXTRK, MAX_SECTOR_OVERLAP, MIN_SECTOR_EPSILON, MIN_SILENCE_BOUNDARY, MIN_WORDS_OVERLAP,
    MIN_WORDS_RIFT, MIN_WORDS_SEARCH, VERSION,
};
pub use crate::error::{Error, Result, TransportError};
pub use crate::paranoia::{DriveReply, Paranoia, ReadAction, Report, SeekWhence};
pub use crate::types::{
    JitterTest, Lsn, MessageDest, ParanoiaCallback, ParanoiaMode, SampleFlags, TocEntry, TrackNum,
};
