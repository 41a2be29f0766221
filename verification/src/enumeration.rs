//! Closed enumerations over a byte: a table of declared values, the lookup
//! that rejects every other value, and the contract that each enumeration
//! of the stack meets.
use crate::error::Error;
use vstd::prelude::*;

verus! {

/// Whether `at` is the position of the first entry of `table` with the key
/// `key`.
pub open spec fn first_match<V>(table: Seq<(u8, V)>, key: u8, at: int) -> bool {
    &&& 0 <= at < table.len()
    &&& table[at].0 == key
    &&& forall|before: int| 0 <= before < at ==> (#[trigger] table[before]).0 != key
}

/// Whether some entry of `table` has the key `key`.
pub open spec fn has_key<V>(table: Seq<(u8, V)>, key: u8) -> bool {
    exists|at: int| 0 <= at < table.len() && (#[trigger] table[at]).0 == key
}

/// Whether no key stands twice in `table`.
pub open spec fn unique_keys<V>(table: Seq<(u8, V)>) -> bool {
    forall|i: int, j: int|
        0 <= i < j < table.len() ==> (#[trigger] table[i]).0 != (#[trigger] table[j]).0
}

/// Looks `key` up in `table`.
///
/// The match is exact: the value of the first entry whose key is `key`, or
/// [`Error::OutOfRange`] with the rejected key where no entry has it. The
/// table may list its entries in any order.
pub fn lookup<V: Copy>(table: &[(u8, V)], key: u8) -> (r: Result<V, Error>)
    ensures
        match r {
            Ok(value) => exists|at: int|
                #[trigger] first_match(table@, key, at) && table@[at].1 == value,
            Err(e) => e == Error::OutOfRange(key) && !has_key(table@, key),
        },
{
    let mut i: usize = 0;
    while i < table.len()
        invariant
            i <= table@.len(),
            forall|before: int| 0 <= before < i ==> (#[trigger] table@[before]).0 != key,
        decreases table@.len() - i,
    {
        if table[i].0 == key {
            assert(first_match(table@, key, i as int));
            return Ok(table[i].1);
        }
        i += 1;
    }
    Err(Error::OutOfRange(key))
}

/// In a table without repeated keys the order of the entries does not
/// matter: every entry with the key `key` is the first one, so a lookup
/// yields the value of whichever entry has the key.
pub proof fn lemma_unique_keys_any_order<V>(table: Seq<(u8, V)>, key: u8, at: int)
    requires
        unique_keys(table),
        0 <= at < table.len(),
        table[at].0 == key,
    ensures
        first_match(table, key, at),
        forall|other: int| first_match(table, key, other) ==> other == at,
{
    assert forall|before: int| 0 <= before < at implies (#[trigger] table[before]).0 != key by {
        assert(table[before].0 != table[at].0);
    }
    assert forall|other: int| first_match(table, key, other) implies other == at by {
        if other < at {
            assert(table[other].0 != table[at].0);
        } else if at < other {
            assert(table[at].0 != table[other].0);
        }
    }
}

/// A closed enumeration that stands on the wire as one small integer.
///
/// Each variant has one declared value, written down in the table of the
/// enumeration; every other integer is rejected, there is no fallback
/// variant. The declared values need not be contiguous.
pub trait ExtendedEnum: Copy + Sized {
    /// The declared value of the variant.
    spec fn spec_value(self) -> u8;

    /// The variant whose declared value is `raw`, if there is one.
    spec fn spec_from_value(raw: u8) -> Option<Self>;

    /// The table of the enumeration: every variant beside the value that
    /// declares it.
    spec fn declared() -> Seq<(u8, Self)>;

    /// The table holds no value twice, and it holds a value beside a
    /// variant exactly when the value leads to the variant.
    proof fn lemma_declared()
        ensures
            unique_keys(Self::declared()),
            forall|raw: u8, variant: Self|
                #[trigger] Self::declared().contains((raw, variant)) <==> Self::spec_from_value(
                    raw,
                ) == Some(variant),
    ;

    /// Every variant is found again under its own value.
    proof fn lemma_value_is_declared(self)
        ensures
            Self::spec_from_value(self.spec_value()) == Some(self),
    ;

    /// A value leads to no other variant than the one that declares it.
    proof fn lemma_declared_value(raw: u8)
        ensures
            Self::spec_from_value(raw) matches Some(variant) ==> variant.spec_value() == raw,
    ;

    /// The declared value of the variant.
    fn value(self) -> (raw: u8)
        ensures
            raw == self.spec_value(),
    ;

    /// Decodes `raw`, which the caller has already isolated from its byte.
    ///
    /// Fails with [`Error::OutOfRange`], carrying `raw`, exactly when no
    /// variant declares `raw`.
    fn from_value(raw: u8) -> (r: Result<Self, Error>)
        ensures
            r == (match Self::spec_from_value(raw) {
                Some(variant) => Ok::<Self, Error>(variant),
                None => Err::<Self, Error>(Error::OutOfRange(raw)),
            }),
    ;
}

/// The outcome of decoding `raw` as an `E`: what `E::from_value` returns.
pub open spec fn decoded<E: ExtendedEnum>(raw: u8) -> Result<E, Error> {
    match E::spec_from_value(raw) {
        Some(variant) => Ok(variant),
        None => Err(Error::OutOfRange(raw)),
    }
}

} // verus!
