//! Core type definitions: modes, callback events, per-sample flags.

use vstd::prelude::*;

verus! {

/// Logical Sector Number: absolute sector position on disc.
pub type Lsn = i32;

/// Track number (1-99, or 0xAA for lead-out).
pub type TrackNum = u8;

/// Paranoia mode flags controlling error correction behavior.
///
/// A set of bits; the defined flags occupy the low eight bits.
#[derive(Debug, Clone, Copy, PartialEq, Eq, Structural)]
pub struct ParanoiaMode(i32);

/// The bits that some defined mode flag covers.
pub const PARANOIA_MODE_KNOWN_BITS: i32 = 0xFF;

impl ParanoiaMode {
    /// No fixups: disable all error correction.
    pub fn disable() -> (r: ParanoiaMode)
        ensures
            r.spec_bits() == 0x00,
    {
        ParanoiaMode(0x00)
    }
    /// Verify data integrity in overlap areas.
    pub fn verify() -> (r: ParanoiaMode)
        ensures
            r.spec_bits() == 0x01,
    {
        ParanoiaMode(0x01)
    }
    /// Fragment mode (unsupported).
    pub fn fragment() -> (r: ParanoiaMode)
        ensures
            r.spec_bits() == 0x02,
    {
        ParanoiaMode(0x02)
    }
    /// Perform overlapped reads.
    pub fn overlap() -> (r: ParanoiaMode)
        ensures
            r.spec_bits() == 0x04,
    {
        ParanoiaMode(0x04)
    }
    /// Scratch detection (unsupported).
    pub fn scratch() -> (r: ParanoiaMode)
        ensures
            r.spec_bits() == 0x08,
    {
        ParanoiaMode(0x08)
    }
    /// Repair mode (unsupported).
    pub fn repair() -> (r: ParanoiaMode)
        ensures
            r.spec_bits() == 0x10,
    {
        ParanoiaMode(0x10)
    }
    /// Do not skip failed reads.
    pub fn neverskip() -> (r: ParanoiaMode)
        ensures
            r.spec_bits() == 0x20,
    {
        ParanoiaMode(0x20)
    }
    /// Maximum paranoia: all supported modes enabled.
    pub fn full() -> (r: ParanoiaMode)
        ensures
            r.spec_bits() == 0xFF,
    {
        ParanoiaMode(0xFF)
    }

    /// The raw bits of this mode, as a spec value.
    pub closed spec fn spec_bits(self) -> i32 {
        self.0
    }

    /// The raw bits of this mode.
    pub fn bits(&self) -> (r: i32)
        ensures
            r == self.spec_bits(),
    {
        self.0
    }

    /// Keeps only the bits that some defined flag covers.
    pub fn from_bits_truncate(bits: i32) -> (r: ParanoiaMode)
        ensures
            r.spec_bits() == bits & PARANOIA_MODE_KNOWN_BITS,
    {
        ParanoiaMode(bits & PARANOIA_MODE_KNOWN_BITS)
    }

    /// Keeps every bit as given.
    pub fn from_bits_retain(bits: i32) -> (r: ParanoiaMode)
        ensures
            r.spec_bits() == bits,
    {
        ParanoiaMode(bits)
    }

    /// Whether every bit of `other` is set in `self`.
    pub fn contains(&self, other: ParanoiaMode) -> (r: bool)
        ensures
            r == (self.spec_bits() & other.spec_bits() == other.spec_bits()),
    {
        (self.0 & other.0) == other.0
    }

    /// The bits set in either mode.
    pub fn union(self, other: ParanoiaMode) -> (r: ParanoiaMode)
        ensures
            r.spec_bits() == self.spec_bits() | other.spec_bits(),
    {
        ParanoiaMode(self.0 | other.0)
    }

    /// Whether no bit is set.
    pub fn is_empty(&self) -> (r: bool)
        ensures
            r == (self.spec_bits() == 0),
    {
        self.0 == 0
    }
}

impl Default for ParanoiaMode {
    fn default() -> (r: Self)
        ensures
            r.spec_bits() == 0xFF,
    {
        ParanoiaMode::full()
    }
}

/// Callback event types reported during reading.
///
/// The variants are numbered from 0 in the order listed.
#[derive(Debug, Clone, Copy, PartialEq, Eq, Structural)]
pub enum ParanoiaCallback {
    /// Read operation
    Read,
    /// Verifying jitter
    Verify,
    /// Fixed edge jitter
    FixupEdge,
    /// Fixed atom jitter
    FixupAtom,
    /// Scratch detected (unsupported)
    Scratch,
    /// Repair performed (unsupported)
    Repair,
    /// Skip exhausted retry
    Skip,
    /// Drift detected and corrected
    Drift,
    /// Backoff (unsupported)
    Backoff,
    /// Dynamic overlap adjust
    Overlap,
    /// Fixed dropped bytes
    FixupDropped,
    /// Fixed duplicate bytes
    FixupDuped,
    /// Hard read error
    ReadError,
    /// Bad cache management
    CacheError,
    /// Wrote block
    Wrote,
    /// Finished writing
    Finished,
}

/// The event that a numeric code stands for; unknown codes read as `Read`.
pub open spec fn callback_of_code(value: i32) -> ParanoiaCallback {
    if value == 1 {
        ParanoiaCallback::Verify
    } else if value == 2 {
        ParanoiaCallback::FixupEdge
    } else if value == 3 {
        ParanoiaCallback::FixupAtom
    } else if value == 4 {
        ParanoiaCallback::Scratch
    } else if value == 5 {
        ParanoiaCallback::Repair
    } else if value == 6 {
        ParanoiaCallback::Skip
    } else if value == 7 {
        ParanoiaCallback::Drift
    } else if value == 8 {
        ParanoiaCallback::Backoff
    } else if value == 9 {
        ParanoiaCallback::Overlap
    } else if value == 10 {
        ParanoiaCallback::FixupDropped
    } else if value == 11 {
        ParanoiaCallback::FixupDuped
    } else if value == 12 {
        ParanoiaCallback::ReadError
    } else if value == 13 {
        ParanoiaCallback::CacheError
    } else if value == 14 {
        ParanoiaCallback::Wrote
    } else if value == 15 {
        ParanoiaCallback::Finished
    } else {
        ParanoiaCallback::Read
    }
}

impl ParanoiaCallback {
    /// The numeric code of an event.
    pub open spec fn spec_code(self) -> i32 {
        match self {
            ParanoiaCallback::Read => 0,
            ParanoiaCallback::Verify => 1,
            ParanoiaCallback::FixupEdge => 2,
            ParanoiaCallback::FixupAtom => 3,
            ParanoiaCallback::Scratch => 4,
            ParanoiaCallback::Repair => 5,
            ParanoiaCallback::Skip => 6,
            ParanoiaCallback::Drift => 7,
            ParanoiaCallback::Backoff => 8,
            ParanoiaCallback::Overlap => 9,
            ParanoiaCallback::FixupDropped => 10,
            ParanoiaCallback::FixupDuped => 11,
            ParanoiaCallback::ReadError => 12,
            ParanoiaCallback::CacheError => 13,
            ParanoiaCallback::Wrote => 14,
            ParanoiaCallback::Finished => 15,
        }
    }

    /// The name of an event.
    pub open spec fn spec_name(self) -> &'static str {
        match self {
            ParanoiaCallback::Read => "read",
            ParanoiaCallback::Verify => "verify",
            ParanoiaCallback::FixupEdge => "fixup_edge",
            ParanoiaCallback::FixupAtom => "fixup_atom",
            ParanoiaCallback::Scratch => "scratch",
            ParanoiaCallback::Repair => "repair",
            ParanoiaCallback::Skip => "skip",
            ParanoiaCallback::Drift => "drift",
            ParanoiaCallback::Backoff => "backoff",
            ParanoiaCallback::Overlap => "overlap",
            ParanoiaCallback::FixupDropped => "fixup_dropped",
            ParanoiaCallback::FixupDuped => "fixup_duped",
            ParanoiaCallback::ReadError => "read_error",
            ParanoiaCallback::CacheError => "cache_error",
            ParanoiaCallback::Wrote => "wrote",
            ParanoiaCallback::Finished => "finished",
        }
    }

    /// Convert to string representation.
    pub fn as_str(&self) -> (r: &'static str)
        ensures
            r == self.spec_name(),
    {
        match self {
            ParanoiaCallback::Read => "read",
            ParanoiaCallback::Verify => "verify",
            ParanoiaCallback::FixupEdge => "fixup_edge",
            ParanoiaCallback::FixupAtom => "fixup_atom",
            ParanoiaCallback::Scratch => "scratch",
            ParanoiaCallback::Repair => "repair",
            ParanoiaCallback::Skip => "skip",
            ParanoiaCallback::Drift => "drift",
            ParanoiaCallback::Backoff => "backoff",
            ParanoiaCallback::Overlap => "overlap",
            ParanoiaCallback::FixupDropped => "fixup_dropped",
            ParanoiaCallback::FixupDuped => "fixup_duped",
            ParanoiaCallback::ReadError => "read_error",
            ParanoiaCallback::CacheError => "cache_error",
            ParanoiaCallback::Wrote => "wrote",
            ParanoiaCallback::Finished => "finished",
        }
    }

    /// The numeric code of this event.
    pub fn code(&self) -> (r: i32)
        ensures
            r == self.spec_code(),
    {
        match self {
            ParanoiaCallback::Read => 0,
            ParanoiaCallback::Verify => 1,
            ParanoiaCallback::FixupEdge => 2,
            ParanoiaCallback::FixupAtom => 3,
            ParanoiaCallback::Scratch => 4,
            ParanoiaCallback::Repair => 5,
            ParanoiaCallback::Skip => 6,
            ParanoiaCallback::Drift => 7,
            ParanoiaCallback::Backoff => 8,
            ParanoiaCallback::Overlap => 9,
            ParanoiaCallback::FixupDropped => 10,
            ParanoiaCallback::FixupDuped => 11,
            ParanoiaCallback::ReadError => 12,
            ParanoiaCallback::CacheError => 13,
            ParanoiaCallback::Wrote => 14,
            ParanoiaCallback::Finished => 15,
        }
    }

    /// The event for a numeric code; codes outside 0..=15 give `Read`.
    pub fn from_code(value: i32) -> (r: ParanoiaCallback)
        ensures
            r == callback_of_code(value),
    {
        if value == 1 {
            ParanoiaCallback::Verify
        } else if value == 2 {
            ParanoiaCallback::FixupEdge
        } else if value == 3 {
            ParanoiaCallback::FixupAtom
        } else if value == 4 {
            ParanoiaCallback::Scratch
        } else if value == 5 {
            ParanoiaCallback::Repair
        } else if value == 6 {
            ParanoiaCallback::Skip
        } else if value == 7 {
            ParanoiaCallback::Drift
        } else if value == 8 {
            ParanoiaCallback::Backoff
        } else if value == 9 {
            ParanoiaCallback::Overlap
        } else if value == 10 {
            ParanoiaCallback::FixupDropped
        } else if value == 11 {
            ParanoiaCallback::FixupDuped
        } else if value == 12 {
            ParanoiaCallback::ReadError
        } else if value == 13 {
            ParanoiaCallback::CacheError
        } else if value == 14 {
            ParanoiaCallback::Wrote
        } else if value == 15 {
            ParanoiaCallback::Finished
        } else {
            ParanoiaCallback::Read
        }
    }
}

/// Decoding a code gives back the event that was encoded.
pub proof fn lemma_callback_code_roundtrip(c: ParanoiaCallback)
    ensures
        callback_of_code(c.spec_code()) == c,
        0 <= c.spec_code() <= 15,
{
}

impl From<i32> for ParanoiaCallback {
    fn from(value: i32) -> (r: Self) {
        ParanoiaCallback::from_code(value)
    }
}

impl vstd::std_specs::convert::FromSpecImpl<i32> for ParanoiaCallback {
    open spec fn obeys_from_spec() -> bool {
        true
    }

    open spec fn from_spec(v: i32) -> Self {
        callback_of_code(v)
    }
}

/// Message destination options.
#[derive(Debug, Clone, Copy, PartialEq, Eq, Structural)]
pub enum MessageDest {
    /// Discard messages
    ForgetIt,
    /// Print messages to stderr
    PrintIt,
    /// Log messages to buffer
    LogIt,
}

impl MessageDest {
    /// The destination with the given C code: 1 prints, 2 logs, anything
    /// else discards.
    pub fn from_code(code: i32) -> (r: MessageDest)
        ensures
            r == if code == 1 {
                MessageDest::PrintIt
            } else if code == 2 {
                MessageDest::LogIt
            } else {
                MessageDest::ForgetIt
            },
    {
        if code == 1 {
            MessageDest::PrintIt
        } else if code == 2 {
            MessageDest::LogIt
        } else {
            MessageDest::ForgetIt
        }
    }
}

/// Table of Contents entry.
#[derive(Debug, Clone, Copy, Default, PartialEq, Eq, Structural)]
pub struct TocEntry {
    /// Track number
    pub track: u8,
    /// Start sector (LSN)
    pub start_sector: Lsn,
}

/// Per-sample flags used in verification.
#[derive(Debug, Clone, Copy, PartialEq, Eq, Structural)]
pub struct SampleFlags(pub u8);

/// Bit that marks a sample at an edge.
pub const SAMPLE_EDGE_BIT: u8 = 0x01;

/// Bit that marks a blanked sample.
pub const SAMPLE_BLANKED_BIT: u8 = 0x02;

/// Bit that marks a verified sample.
pub const SAMPLE_VERIFIED_BIT: u8 = 0x04;

impl SampleFlags {
    /// No flags set
    pub fn none() -> (r: SampleFlags)
        ensures
            r == SampleFlags(0),
    {
        SampleFlags(0)
    }
    /// Sample is at an edge
    pub fn edge() -> (r: SampleFlags)
        ensures
            r == SampleFlags(0x01),
    {
        SampleFlags(0x01)
    }
    /// Sample has been blanked
    pub fn blanked() -> (r: SampleFlags)
        ensures
            r == SampleFlags(0x02),
    {
        SampleFlags(0x02)
    }
    /// Sample has been verified
    pub fn verified() -> (r: SampleFlags)
        ensures
            r == SampleFlags(0x04),
    {
        SampleFlags(0x04)
    }

    /// The edge bit is set.
    pub open spec fn spec_edge(self) -> bool {
        self.0 & SAMPLE_EDGE_BIT != 0
    }

    /// The blanked bit is set.
    pub open spec fn spec_blanked(self) -> bool {
        self.0 & SAMPLE_BLANKED_BIT != 0
    }

    /// The verified bit is set.
    pub open spec fn spec_verified(self) -> bool {
        self.0 & SAMPLE_VERIFIED_BIT != 0
    }

    /// Whether the edge bit is set.
    pub fn is_edge(self) -> (r: bool)
        ensures
            r == self.spec_edge(),
    {
        self.0 & SAMPLE_EDGE_BIT != 0
    }

    /// Whether the blanked bit is set.
    pub fn is_blanked(self) -> (r: bool)
        ensures
            r == self.spec_blanked(),
    {
        self.0 & SAMPLE_BLANKED_BIT != 0
    }

    /// Whether the verified bit is set.
    pub fn is_verified(self) -> (r: bool)
        ensures
            r == self.spec_verified(),
    {
        self.0 & SAMPLE_VERIFIED_BIT != 0
    }
}

/// Jitter test flags for testing and simulation.
#[derive(Debug, Clone, Copy, PartialEq, Eq, Structural)]
pub enum JitterTest {
    /// Small jitter simulation
    Small,
    /// Large jitter simulation
    Large,
    /// Massive jitter simulation
    Massive,
}

impl JitterTest {
    /// The numeric code of a jitter test (1, 2 or 3).
    pub fn code(&self) -> (r: i32)
        ensures
            r == match self {
                JitterTest::Small => 1i32,
                JitterTest::Large => 2i32,
                JitterTest::Massive => 3i32,
            },
    {
        match self {
            JitterTest::Small => 1,
            JitterTest::Large => 2,
            JitterTest::Massive => 3,
        }
    }
}

} // verus!
