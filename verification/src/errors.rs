//! The error kinds surfaced by the codec.

use vstd::prelude::*;

verus! {

/// Everything that can go wrong while framing, compressing or decompressing.
///
/// Format errors come from the frame header reader, block decode errors from
/// the block decoder, sizing errors from the compressor entry checks, and
/// `WrongCallSequence` from a misused incremental hash state.
#[derive(Clone, Copy, Debug, PartialEq, Eq, Structural)]
pub enum Lz4Error {
    IncorrectMagic,
    UnsupportedVersion,
    UnsupportedBlockDependence,
    UnsupportedBlockChecksumFlag,
    UnsupportedContentSizeFlag,
    UnsupportedReserved,
    UnsupportedDictFlag,
    UnsupportedBlockMaxSize,
    HeaderChecksumMismatch,
    UnsupportedBlockSize,
    OffsetZero,
    OffsetTooLarge,
    InputBufferTooSmall,
    OutputBufferTooSmall,
    TemporaryBufferTooSmall,
    WrongCallSequence,
}

/// The description text of each error kind.
pub open spec fn spec_message(e: Lz4Error) -> Seq<char> {
    match e {
        Lz4Error::IncorrectMagic => "Incorrect magic"@,
        Lz4Error::UnsupportedVersion => "Unsupported version"@,
        Lz4Error::UnsupportedBlockDependence => "Unsupported block dependence"@,
        Lz4Error::UnsupportedBlockChecksumFlag => "Unsupported block checksum flag"@,
        Lz4Error::UnsupportedContentSizeFlag => "Unsupported content size flag"@,
        Lz4Error::UnsupportedReserved => "Unsupported reserved"@,
        Lz4Error::UnsupportedDictFlag => "Unsupported dict flag"@,
        Lz4Error::UnsupportedBlockMaxSize => "Unsupported block max size"@,
        Lz4Error::HeaderChecksumMismatch => "Header checksum mismatch"@,
        Lz4Error::UnsupportedBlockSize => "Unsupported block size"@,
        Lz4Error::OffsetZero => "Offset 0"@,
        Lz4Error::OffsetTooLarge => "Offset too large"@,
        Lz4Error::InputBufferTooSmall => "Input buffer too small"@,
        Lz4Error::OutputBufferTooSmall => "Output buffer too small"@,
        Lz4Error::TemporaryBufferTooSmall => "Temporary buffer too small"@,
        Lz4Error::WrongCallSequence => "Wrong call sequence"@,
    }
}

impl Lz4Error {
    /// A human-readable description of the error.
    pub fn message(&self) -> (r: &'static str)
        ensures
            r@ == spec_message(*self),
    {
        match self {
            Lz4Error::IncorrectMagic => "Incorrect magic",
            Lz4Error::UnsupportedVersion => "Unsupported version",
            Lz4Error::UnsupportedBlockDependence => "Unsupported block dependence",
            Lz4Error::UnsupportedBlockChecksumFlag => "Unsupported block checksum flag",
            Lz4Error::UnsupportedContentSizeFlag => "Unsupported content size flag",
            Lz4Error::UnsupportedReserved => "Unsupported reserved",
            Lz4Error::UnsupportedDictFlag => "Unsupported dict flag",
            Lz4Error::UnsupportedBlockMaxSize => "Unsupported block max size",
            Lz4Error::HeaderChecksumMismatch => "Header checksum mismatch",
            Lz4Error::UnsupportedBlockSize => "Unsupported block size",
            Lz4Error::OffsetZero => "Offset 0",
            Lz4Error::OffsetTooLarge => "Offset too large",
            Lz4Error::InputBufferTooSmall => "Input buffer too small",
            Lz4Error::OutputBufferTooSmall => "Output buffer too small",
            Lz4Error::TemporaryBufferTooSmall => "Temporary buffer too small",
            Lz4Error::WrongCallSequence => "Wrong call sequence",
        }
    }
}

} // verus!
