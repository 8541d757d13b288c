//! The failures that decoding, encoding and framing can report.

use vstd::prelude::*;

verus! {

/// Why an operation gave up. Every failure is final for the operation that
/// reported it: nothing is retried and nothing is partially recovered.
#[derive(Debug, Clone, Copy, PartialEq, Eq, Structural)]
pub enum Error {
    /// Fewer bytes were left than a read asked for.
    OutOfData,
    /// The leading marker of an envelope or of an archive entry is wrong.
    BadMagic,
    /// A field at a fixed place holds a value the format does not allow.
    InvalidFormat,
    /// The checksum stored in the envelope differs from the payload's.
    ChecksumMismatch,
    /// A value starts with a tag byte that the codec does not know.
    UnsupportedTag(u8),
    /// The envelope does not hold exactly one root table.
    RecordCountUnsupported,
    /// The bytes of a string are not UTF-8.
    InvalidEncoding,
    /// The compressed stream of an archive entry could not be expanded.
    DecompressionFailed,
    /// The expanded entry is not as long as its header declares.
    DecompressionSizeMismatch,
    /// A string is longer than its one-byte length prefix can say.
    ValueTooLarge,
}

impl Error {
    /// A short fixed description of the failure, for messages.
    pub fn message(&self) -> (text: &'static str)
        ensures
            text@ == match *self {
                Error::OutOfData => "End of stream"@,
                Error::BadMagic => "Invalid magic value"@,
                Error::InvalidFormat => "Invalid format"@,
                Error::ChecksumMismatch => "Invalid crc"@,
                Error::UnsupportedTag(_) => "Unsupported tag"@,
                Error::RecordCountUnsupported => "Invalid number of files"@,
                Error::InvalidEncoding => "Invalid string encoding"@,
                Error::DecompressionFailed => "Decompression failed"@,
                Error::DecompressionSizeMismatch => "Decompressed size mismatch"@,
                Error::ValueTooLarge => "Value too large"@,
            },
    {
        match self {
            Error::OutOfData => "End of stream",
            Error::BadMagic => "Invalid magic value",
            Error::InvalidFormat => "Invalid format",
            Error::ChecksumMismatch => "Invalid crc",
            Error::UnsupportedTag(_) => "Unsupported tag",
            Error::RecordCountUnsupported => "Invalid number of files",
            Error::InvalidEncoding => "Invalid string encoding",
            Error::DecompressionFailed => "Decompression failed",
            Error::DecompressionSizeMismatch => "Decompressed size mismatch",
            Error::ValueTooLarge => "Value too large",
        }
    }
}

} // verus!
