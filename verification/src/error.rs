use vstd::prelude::*;

verus! {

/// Why a value could not be encoded or decoded.
#[derive(Debug, Clone, Copy, PartialEq, Eq, Structural)]
pub enum EncodingError {
    /// A tag of the wrong class, number or shape was found.
    InvalidTag,
    /// A length field is out of range for the value it frames.
    InvalidLength,
    /// The data ended before the value was complete.
    UnexpectedEndOfData,
    /// The value is not representable in, or was not found in, the wire format.
    InvalidFormat,
}

/// Shorthand for results of the codec functions.
pub type Result<T> = core::result::Result<T, EncodingError>;

} // verus!
