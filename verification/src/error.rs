//! The error that decoding a commit or a segment ends with.

use crate::header::HeaderError;
use vstd::prelude::*;

verus! {

/// Why a commit, or one of its segments, could not be read. Each value names
/// the one check that failed; decoding stops there.
#[derive(Clone, Copy, Debug, PartialEq, Eq, Structural)]
pub enum SegmentReadError {
    /// The stream ended before the value did.
    UnexpectedEof,
    /// A string's bytes are not valid UTF-8.
    InvalidUtf8,
    /// A variable-length integer does not fit its width.
    VarIntTooLong,
    /// The file does not start with the codec magic.
    MagicMismatch,
    /// The file was written by another codec than the expected one.
    CodecMismatch,
    /// The format version is below the accepted range.
    VersionTooOld,
    /// The format version is above the accepted range.
    VersionTooNew,
    /// The suffix in the header is not that of the generation asked for.
    SuffixMismatch,
    /// The footer is not the one that belongs to the bytes before it.
    ChecksumMismatch,
    /// The segment file carries another id than the commit recorded for it.
    SegmentIdMismatch,
    /// The bytes are well-formed but what they say cannot be.
    CorruptedIndex,
    /// The directory has no file of the name asked for.
    NotFound,
    /// The directory failed to hand the file out.
    Io,
}

impl SegmentReadError {
    /// The error of the same name.
    pub open spec fn of_header(e: HeaderError) -> SegmentReadError {
        match e {
            HeaderError::UnexpectedEof => SegmentReadError::UnexpectedEof,
            HeaderError::InvalidUtf8 => SegmentReadError::InvalidUtf8,
            HeaderError::VarIntTooLong => SegmentReadError::VarIntTooLong,
            HeaderError::MagicMismatch => SegmentReadError::MagicMismatch,
            HeaderError::CodecMismatch => SegmentReadError::CodecMismatch,
            HeaderError::VersionTooOld => SegmentReadError::VersionTooOld,
            HeaderError::VersionTooNew => SegmentReadError::VersionTooNew,
        }
    }

    /// Carries a header error over: the result is the error of the same name.
    pub fn from_header(e: HeaderError) -> (r: SegmentReadError)
        ensures
            r == Self::of_header(e),
    {
        match e {
            HeaderError::UnexpectedEof => SegmentReadError::UnexpectedEof,
            HeaderError::InvalidUtf8 => SegmentReadError::InvalidUtf8,
            HeaderError::VarIntTooLong => SegmentReadError::VarIntTooLong,
            HeaderError::MagicMismatch => SegmentReadError::MagicMismatch,
            HeaderError::CodecMismatch => SegmentReadError::CodecMismatch,
            HeaderError::VersionTooOld => SegmentReadError::VersionTooOld,
            HeaderError::VersionTooNew => SegmentReadError::VersionTooNew,
        }
    }
}

/// A result with its error carried over to `SegmentReadError`.
pub open spec fn carried<T>(r: Result<T, HeaderError>) -> Result<T, SegmentReadError> {
    match r {
        Ok(v) => Ok(v),
        Err(e) => Err(SegmentReadError::of_header(e)),
    }
}

/// A parse with its error carried over to `SegmentReadError`.
pub open spec fn lifted<T>(p: (Result<T, HeaderError>, Seq<u8>)) -> (
    Result<T, SegmentReadError>,
    Seq<u8>,
) {
    (carried(p.0), p.1)
}

/// Carries the error of a result over to `SegmentReadError`.
pub fn lift<T>(r: Result<T, HeaderError>) -> (res: Result<T, SegmentReadError>)
    ensures
        res == carried(r),
{
    match r {
        Ok(v) => Ok(v),
        Err(e) => Err(SegmentReadError::from_header(e)),
    }
}

} // verus!
