//! Error types of the library.

use vstd::prelude::*;

verus! {

#[verifier::external_type_specification]
#[verifier::external_body]
pub struct ExIoError(std::io::Error);

/// Errors that can occur during CD audio extraction.
#[derive(Debug)]
pub enum Error {
    /// Unable to set CDROM to read audio mode
    CddaModeError,
    /// Unable to read table of contents
    TocReadError(String),
    /// CDROM reporting illegal number of tracks
    IllegalTrackCount,
    /// Could not read any data from drive
    NoDataRead,
    /// Unknown, unrecoverable error reading data
    UnknownReadError,
    /// Unable to identify CDROM model
    IdentifyError,
    /// CDROM reporting illegal table of contents
    IllegalToc,
    /// Unaddressable sector
    UnaddressableSector(i32),
    /// Interface not supported
    InterfaceNotSupported,
    /// Drive is neither a CDROM nor a WORM device
    NotCdromDevice,
    /// Permission denied on cdrom device
    PermissionDenied(String),
    /// Device not open
    DeviceNotOpen,
    /// Invalid track number
    InvalidTrack(u8),
    /// Track is not audio data
    NotAudioTrack(u8),
    /// No audio tracks on disc
    NoAudioTracks,
    /// No medium present
    NoMedium,
    /// Option not supported by drive
    OptionNotSupported,
    /// Transport error
    TransportError(TransportError),
    /// I/O error
    IoError(std::io::Error),
    /// Sector skip (after max retries exhausted): sector and retries
    SectorSkip(i32, i32),
}

/// Result type alias using the library's error type.
pub type Result<T> = core::result::Result<T, Error>;

/// Transport-level errors, numbered from 0 in the order listed.
#[derive(Debug, Clone, Copy, PartialEq, Eq, Structural)]
pub enum TransportError {
    /// Success
    Success,
    /// Error writing packet command to device
    WriteError,
    /// Error reading command from device
    ReadError,
    /// SCSI packet data underrun (too little data)
    Underrun,
    /// SCSI packet data overrun (too much data)
    Overrun,
    /// Illegal SCSI request (rejected by target)
    Illegal,
    /// Medium error reading data
    Medium,
    /// Device busy
    Busy,
    /// Device not ready
    NotReady,
    /// Target hardware fault
    Fault,
    /// Unspecified error
    Unknown,
    /// Drive lost streaming
    Streaming,
}

/// The transport error for a numeric code; codes 0-9 and 11 name their
/// variant, all others give `Unknown`.
pub open spec fn transport_error_of_code(value: i32) -> TransportError {
    if value == 0 {
        TransportError::Success
    } else if value == 1 {
        TransportError::WriteError
    } else if value == 2 {
        TransportError::ReadError
    } else if value == 3 {
        TransportError::Underrun
    } else if value == 4 {
        TransportError::Overrun
    } else if value == 5 {
        TransportError::Illegal
    } else if value == 6 {
        TransportError::Medium
    } else if value == 7 {
        TransportError::Busy
    } else if value == 8 {
        TransportError::NotReady
    } else if value == 9 {
        TransportError::Fault
    } else if value == 11 {
        TransportError::Streaming
    } else {
        TransportError::Unknown
    }
}

impl TransportError {
    /// The numeric code of a transport error.
    pub open spec fn spec_code(self) -> i32 {
        match self {
            TransportError::Success => 0,
            TransportError::WriteError => 1,
            TransportError::ReadError => 2,
            TransportError::Underrun => 3,
            TransportError::Overrun => 4,
            TransportError::Illegal => 5,
            TransportError::Medium => 6,
            TransportError::Busy => 7,
            TransportError::NotReady => 8,
            TransportError::Fault => 9,
            TransportError::Unknown => 10,
            TransportError::Streaming => 11,
        }
    }

    /// The transport error for a numeric code (see `transport_error_of_code`).
    pub fn from_code(value: i32) -> (r: TransportError)
        ensures
            r == transport_error_of_code(value),
    {
        if value == 0 {
            TransportError::Success
        } else if value == 1 {
            TransportError::WriteError
        } else if value == 2 {
            TransportError::ReadError
        } else if value == 3 {
            TransportError::Underrun
        } else if value == 4 {
            TransportError::Overrun
        } else if value == 5 {
            TransportError::Illegal
        } else if value == 6 {
            TransportError::Medium
        } else if value == 7 {
            TransportError::Busy
        } else if value == 8 {
            TransportError::NotReady
        } else if value == 9 {
            TransportError::Fault
        } else if value == 11 {
            TransportError::Streaming
        } else {
            TransportError::Unknown
        }
    }

    /// The transport error for a drive driver's return code: codes 0-9 name
    /// their variant, every other code (the drive reports no streaming
    /// loss) gives `Unknown`.
    pub fn from_driver_code(code: i32) -> (r: TransportError)
        ensures
            r == if 0 <= code <= 9 { transport_error_of_code(code) } else { TransportError::Unknown },
    {
        if 0 <= code && code <= 9 {
            TransportError::from_code(code)
        } else {
            TransportError::Unknown
        }
    }

    /// The numeric code of this error.
    pub fn code(&self) -> (r: i32)
        ensures
            r == self.spec_code(),
    {
        match self {
            TransportError::Success => 0,
            TransportError::WriteError => 1,
            TransportError::ReadError => 2,
            TransportError::Underrun => 3,
            TransportError::Overrun => 4,
            TransportError::Illegal => 5,
            TransportError::Medium => 6,
            TransportError::Busy => 7,
            TransportError::NotReady => 8,
            TransportError::Fault => 9,
            TransportError::Unknown => 10,
            TransportError::Streaming => 11,
        }
    }

    /// The human-readable description of this error.
    pub fn description(&self) -> (r: &'static str)
        ensures
            r == self.spec_description(),
    {
        match self {
            TransportError::Success => "Success",
            TransportError::WriteError => "Error writing packet command to device",
            TransportError::ReadError => "Error reading command from device",
            TransportError::Underrun => "SCSI packet data underrun (too little data)",
            TransportError::Overrun => "SCSI packet data overrun (too much data)",
            TransportError::Illegal => "Illegal SCSI request (rejected by target)",
            TransportError::Medium => "Medium error reading data",
            TransportError::Busy => "Device busy",
            TransportError::NotReady => "Device not ready",
            TransportError::Fault => "Target hardware fault",
            TransportError::Unknown => "Unspecified error",
            TransportError::Streaming => "Drive lost streaming",
        }
    }

    /// The description of each error.
    pub open spec fn spec_description(self) -> &'static str {
        match self {
            TransportError::Success => "Success",
            TransportError::WriteError => "Error writing packet command to device",
            TransportError::ReadError => "Error reading command from device",
            TransportError::Underrun => "SCSI packet data underrun (too little data)",
            TransportError::Overrun => "SCSI packet data overrun (too much data)",
            TransportError::Illegal => "Illegal SCSI request (rejected by target)",
            TransportError::Medium => "Medium error reading data",
            TransportError::Busy => "Device busy",
            TransportError::NotReady => "Device not ready",
            TransportError::Fault => "Target hardware fault",
            TransportError::Unknown => "Unspecified error",
            TransportError::Streaming => "Drive lost streaming",
        }
    }
}

/// Decoding a transport error's code gives back the error.
pub proof fn lemma_transport_code_roundtrip(e: TransportError)
    ensures
        transport_error_of_code(e.spec_code()) == e,
{
}

impl From<i32> for TransportError {
    fn from(value: i32) -> (r: Self) {
        TransportError::from_code(value)
    }
}

impl vstd::std_specs::convert::FromSpecImpl<i32> for TransportError {
    open spec fn obeys_from_spec() -> bool {
        true
    }

    open spec fn from_spec(v: i32) -> Self {
        transport_error_of_code(v)
    }
}

impl From<std::io::Error> for Error {
    fn from(e: std::io::Error) -> (r: Self) {
        Error::IoError(e)
    }
}

impl vstd::std_specs::convert::FromSpecImpl<std::io::Error> for Error {
    open spec fn obeys_from_spec() -> bool {
        true
    }

    open spec fn from_spec(v: std::io::Error) -> Self {
        Error::IoError(v)
    }
}

} // verus!
