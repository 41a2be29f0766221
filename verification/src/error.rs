use vstd::prelude::*;

verus! {

/// What a codec reports when it cannot decode or encode.
#[derive(Clone, Copy, Debug, PartialEq, Eq, Structural)]
pub enum Error {
    /// The buffer does not have the length that the encoded form needs.
    WrongNumberOfBytes,
    /// A field holds the given value, which its enumeration does not declare.
    OutOfRange(u8),
}

} // verus!
