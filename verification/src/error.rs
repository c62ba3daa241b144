use vstd::prelude::*;

verus! {

/// The error type for decode operations.
#[derive(Debug, PartialEq, Eq, Structural)]
pub struct DecodeError {
    pub kind: ErrorKind,
}

impl DecodeError {
    /// Returns the category of this error.
    pub fn kind(&self) -> (r: ErrorKind)
        ensures
            r == self.kind,
    {
        self.kind
    }
}

/// A list specifying general decode error categories.
///
/// Used with the [`DecodeError`] type.
#[non_exhaustive]
#[derive(Clone, Copy, Debug, Eq, Hash, Ord, PartialEq, PartialOrd, Structural)]
pub enum ErrorKind {
    /// An unexpected byte was read.
    UnexpectedByte(u8),
    /// Returned when a decode operation could not be completed because an
    /// "end of buffer" was reached prematurely.
    UnexpectedEndOfBuffer,
    /// Encoded dictionary is unsorted.
    UnsortedDictionary,
    /// All dictionary keys must be byte strings.
    InvalidDictionaryKey,
    /// Integers with leading zeros are not allowed.
    LeadingZeros,
    /// Negative zero is not allowed.
    NegativeZero,
    /// Data not valid for the operation were encountered.
    InvalidData,
}

} // verus!
