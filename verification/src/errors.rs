//! The errors that decoding a page can end in.
use vstd::prelude::*;

verus! {

/// Why a page could not be bound or a value could not be decoded.
#[derive(Clone, Copy, Debug, PartialEq, Eq, Structural)]
pub enum ParquetError {
    /// The page ends in the middle of a value or of a header.
    NotEnoughBytes,
    /// The encoding cannot carry values of the physical type, or it needs
    /// more than this entry point is given.
    Unsupported,
    /// The encoding has no decoder.
    NotYetImplemented,
    /// A header field is out of range: a variable-length integer that does
    /// not fit, a block size that its mini-blocks do not divide, a bit width
    /// that is too wide, a dictionary index past the dictionary, a length
    /// that is negative.
    BadHeader,
}

impl ParquetError {
    /// The text of `message`.
    pub open spec fn text(self) -> Seq<char> {
        match self {
            ParquetError::NotEnoughBytes => "Not enough bytes to decode"@,
            ParquetError::Unsupported => "Encoding does not support this type"@,
            ParquetError::NotYetImplemented => "Encoding is not supported"@,
            ParquetError::BadHeader => "Malformed header"@,
        }
    }

    /// A short description for messages.
    pub fn message(&self) -> (s: &'static str)
        ensures
            s@ == self.text(),
    {
        match self {
            ParquetError::NotEnoughBytes => "Not enough bytes to decode",
            ParquetError::Unsupported => "Encoding does not support this type",
            ParquetError::NotYetImplemented => "Encoding is not supported",
            ParquetError::BadHeader => "Malformed header",
        }
    }
}

} // verus!
