//! The two codec contracts: values of a constant encoded width, and
//! structures whose encoded length depends on what they hold.
use crate::error::Error;
use vstd::prelude::*;

verus! {

/// Codec of a value whose encoded form has a constant, known width.
///
/// Both directions take a buffer of exactly that width and answer any other
/// length with [`Error::WrongNumberOfBytes`].
pub trait PackFixed: Sized {
    /// The width of the encoded form, in octets.
    spec fn wire_size() -> nat;

    /// What `pack` asks of the value: that it is within the limits of the
    /// encoder.
    spec fn packable(&self) -> bool;

    /// The encoded form of the value.
    spec fn wire(&self) -> Seq<u8>;

    /// The outcome of decoding `data`.
    spec fn parse(data: Seq<u8>) -> Result<Self, Error>;

    /// The encoded form has the constant width.
    proof fn lemma_wire_size(&self)
        ensures
            self.wire().len() == Self::wire_size(),
    ;

    /// A buffer of any other length than the constant width is rejected.
    proof fn lemma_parse_length(data: Seq<u8>)
        ensures
            data.len() != Self::wire_size() ==> Self::parse(data) == Err::<Self, Error>(
                Error::WrongNumberOfBytes,
            ),
    ;

    /// Writes the encoded form of the value into `data`.
    ///
    /// Succeeds exactly when `data` has the constant width; on failure
    /// `data` is left as it was.
    fn pack(&self, data: &mut [u8]) -> (r: Result<(), Error>)
        requires
            self.packable(),
        ensures
            final(data)@.len() == old(data)@.len(),
            match r {
                Ok(_) => old(data)@.len() == Self::wire_size() && final(data)@ == self.wire(),
                Err(e) => e == Error::WrongNumberOfBytes && old(data)@.len() != Self::wire_size()
                    && final(data)@ == old(data)@,
            },
    ;

    /// Decodes a value from `data`.
    fn unpack(data: &[u8]) -> (r: Result<Self, Error>)
        ensures
            r == Self::parse(data@),
    ;
}

/// Codec of a structure whose encoded length depends on its content.
///
/// The structure stands at the start of the buffer and may be shorter than
/// it: what follows belongs to the next structure of the stream.
pub trait Pack: View + Sized {
    /// What `pack` asks of the value: that it is within the limits of the
    /// encoder.
    spec fn packable(value: Self::V) -> bool;

    /// The encoded form of the value.
    spec fn wire(value: Self::V) -> Seq<u8>;

    /// The outcome of decoding the start of `data`: the value and the number
    /// of octets that it occupies.
    spec fn parse(data: Seq<u8>) -> Result<(Self::V, nat), Error>;

    /// A decoded structure lies within the buffer.
    proof fn lemma_parse_within(data: Seq<u8>)
        ensures
            Self::parse(data) matches Ok(found) ==> found.1 <= data.len(),
    ;

    /// Decoding looks at the octets of the structure only: a buffer that
    /// starts with the same octets decodes to the same value, whatever
    /// follows them.
    proof fn lemma_parse_ignores_rest(data: Seq<u8>, other: Seq<u8>)
        requires
            Self::parse(data) is Ok,
            Self::parse(data)->Ok_0.1 <= other.len(),
            other.take(Self::parse(data)->Ok_0.1 as int) == data.take(
                Self::parse(data)->Ok_0.1 as int,
            ),
        ensures
            Self::parse(other) == Self::parse(data),
    ;

    /// Writes the encoded form of the value to the start of `data` and
    /// returns its length.
    ///
    /// Succeeds exactly when `data` has room for the encoded form. The
    /// octets behind the encoded form are left untouched, and on failure
    /// all of `data` is.
    fn pack(&self, data: &mut [u8]) -> (r: Result<usize, Error>)
        requires
            Self::packable(self@),
        ensures
            final(data)@.len() == old(data)@.len(),
            match r {
                Ok(written) => {
                    &&& written == Self::wire(self@).len()
                    &&& written <= old(data)@.len()
                    &&& final(data)@ == Self::wire(self@) + old(data)@.skip(written as int)
                },
                Err(e) => {
                    &&& e == Error::WrongNumberOfBytes
                    &&& old(data)@.len() < Self::wire(self@).len()
                    &&& final(data)@ == old(data)@
                },
            },
    ;

    /// Decodes a value from the start of `data` and returns it with the
    /// number of octets that it occupies.
    fn unpack(data: &[u8]) -> (r: Result<(Self, usize), Error>)
        ensures
            match r {
                Ok(found) => {
                    &&& Self::parse(data@) == Ok::<(Self::V, nat), Error>(
                        (found.0@, found.1 as nat),
                    )
                    &&& found.1 <= data@.len()
                },
                Err(e) => Self::parse(data@) == Err::<(Self::V, nat), Error>(e),
            },
    ;
}

} // verus!
