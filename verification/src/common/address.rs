//! Device addresses. Both kinds stand on the wire as little-endian
//! integers of a constant width.
use crate::error::Error;
use crate::pack::PackFixed;
use vstd::prelude::*;

verus! {

/// Width of an encoded network address, in octets.
pub const NETWORK_ADDRESS_SIZE: usize = 2;

/// Width of an encoded extended address, in octets.
pub const EXTENDED_ADDRESS_SIZE: usize = 8;

/// The integer that `size` octets of `data`, from `offset` on, hold in
/// little-endian order.
pub open spec fn little_endian(data: Seq<u8>, offset: int, size: nat) -> nat
    decreases size,
{
    if size == 0 {
        0
    } else {
        data[offset] as nat + 0x100 * little_endian(data, offset + 1, (size - 1) as nat)
    }
}

/// The lowest `size` octets of `value` in little-endian order.
pub open spec fn little_endian_octets(value: nat, size: nat) -> Seq<u8>
    decreases size,
{
    if size == 0 {
        Seq::empty()
    } else {
        seq![(value % 0x100) as u8] + little_endian_octets(value / 0x100, (size - 1) as nat)
    }
}

/// The number of integers that `size` octets can hold.
pub open spec fn octet_range(size: nat) -> nat
    decreases size,
{
    if size == 0 {
        1
    } else {
        0x100 * octet_range((size - 1) as nat)
    }
}

/// `size` octets hold an integer below `octet_range(size)`.
pub proof fn lemma_little_endian_bound(data: Seq<u8>, offset: int, size: nat)
    ensures
        little_endian(data, offset, size) < octet_range(size),
    decreases size,
{
    if size > 0 {
        lemma_little_endian_bound(data, offset + 1, (size - 1) as nat);
    }
}

/// The integer depends on the `size` octets that are read, not on where
/// they stand.
pub proof fn lemma_little_endian_same_octets(
    a: Seq<u8>,
    a_offset: int,
    b: Seq<u8>,
    b_offset: int,
    size: nat,
)
    requires
        0 <= a_offset,
        a_offset + size <= a.len(),
        0 <= b_offset,
        b_offset + size <= b.len(),
        a.subrange(a_offset, a_offset + size) == b.subrange(b_offset, b_offset + size),
    ensures
        little_endian(a, a_offset, size) == little_endian(b, b_offset, size),
    decreases size,
{
    if size > 0 {
        let a_part = a.subrange(a_offset, a_offset + size);
        let b_part = b.subrange(b_offset, b_offset + size);
        assert(a[a_offset] == a_part[0]);
        assert(b[b_offset] == b_part[0]);
        assert(a.subrange(a_offset + 1, a_offset + size) =~= a_part.skip(1));
        assert(b.subrange(b_offset + 1, b_offset + size) =~= b_part.skip(1));
        lemma_little_endian_same_octets(a, a_offset + 1, b, b_offset + 1, (size - 1) as nat);
    }
}

/// An integer is written in as many octets as are asked for.
pub proof fn lemma_octets_len(value: nat, size: nat)
    ensures
        little_endian_octets(value, size).len() == size,
    decreases size,
{
    if size > 0 {
        lemma_octets_len(value / 0x100, (size - 1) as nat);
    }
}

/// Reading back the octets of an integer that fits in them gives the
/// integer.
pub proof fn lemma_octets_read_back(value: nat, size: nat)
    requires
        value < octet_range(size),
    ensures
        little_endian(little_endian_octets(value, size), 0, size) == value,
    decreases size,
{
    if size > 0 {
        let rest = little_endian_octets(value / 0x100, (size - 1) as nat);
        let all = little_endian_octets(value, size);
        lemma_octets_len(value / 0x100, (size - 1) as nat);
        lemma_octets_read_back(value / 0x100, (size - 1) as nat);
        assert(all.subrange(1, size as int) =~= rest.subrange(0, size - 1));
        lemma_little_endian_same_octets(all, 1, rest, 0, (size - 1) as nat);
        assert(all[0] == (value % 0x100) as u8);
    }
}

/// Writing the integer that octets hold gives the same octets.
pub proof fn lemma_read_octets_back(data: Seq<u8>, offset: int, size: nat)
    requires
        0 <= offset,
        offset + size <= data.len(),
    ensures
        little_endian_octets(little_endian(data, offset, size), size) == data.subrange(
            offset,
            offset + size,
        ),
    decreases size,
{
    if size > 0 {
        let rest = little_endian(data, offset + 1, (size - 1) as nat);
        lemma_read_octets_back(data, offset + 1, (size - 1) as nat);
        let value = little_endian(data, offset, size);
        assert(value == data[offset] as nat + 0x100 * rest);
        assert(value % 0x100 == data[offset] as nat);
        assert(value / 0x100 == rest);
        assert(seq![data[offset]] + data.subrange(offset + 1, offset + size) =~= data.subrange(
            offset,
            offset + size,
        ));
    } else {
        assert(data.subrange(offset, offset + size) =~= Seq::<u8>::empty());
    }
}

/// Reads all of `data` as one little-endian integer.
pub fn read_little_endian(data: &[u8]) -> (value: u64)
    requires
        data@.len() <= 8,
    ensures
        value == little_endian(data@, 0, data@.len()),
{
    let size = data.len();
    let mut value: u64 = 0;
    let mut at: usize = size;
    while at > 0
        invariant
            size == data@.len(),
            size <= 8,
            at <= size,
            value == little_endian(data@, at as int, (size - at) as nat),
        decreases at,
    {
        proof {
            lemma_little_endian_bound(data@, at as int, (size - at) as nat);
            reveal_with_fuel(octet_range, 9);
        }
        at -= 1;
        value = value * 0x100 + data[at] as u64;
    }
    value
}

/// Writes `value` into `data` in little-endian order, lowest octets first,
/// as many octets as `data` holds.
pub fn write_little_endian(value: u64, data: &mut [u8])
    ensures
        final(data)@.len() == old(data)@.len(),
        final(data)@ == little_endian_octets(value as nat, old(data)@.len()),
{
    let size = data.len();
    let mut rest: u64 = value;
    let mut at: usize = 0;
    while at < size
        invariant
            size == data@.len(),
            at <= size,
            little_endian_octets(value as nat, size as nat) == data@.take(at as int)
                + little_endian_octets(rest as nat, (size - at) as nat),
        decreases size - at,
    {
        let ghost before = data@;
        data[at] = (rest % 0x100) as u8;
        proof {
            let tail = little_endian_octets((rest / 0x100) as nat, (size - at - 1) as nat);
            assert(little_endian_octets(rest as nat, (size - at) as nat) == seq![
                (rest % 0x100) as u8,
            ] + tail);
            assert(data@.take(at as int + 1) + tail =~= before.take(at as int) + (seq![
                (rest % 0x100) as u8,
            ] + tail));
        }
        rest = rest / 0x100;
        at += 1;
    }
    proof {
        lemma_octets_len(value as nat, size as nat);
        assert(data@.take(size as int) + Seq::<u8>::empty() =~= data@);
    }
}

/// The 16-bit address of a device within its network.
#[derive(Clone, Copy, Debug, PartialEq, Eq, Structural)]
pub struct NetworkAddress(pub u16);

impl PackFixed for NetworkAddress {
    open spec fn wire_size() -> nat {
        NETWORK_ADDRESS_SIZE as nat
    }

    open spec fn packable(&self) -> bool {
        true
    }

    open spec fn wire(&self) -> Seq<u8> {
        little_endian_octets(self.0 as nat, NETWORK_ADDRESS_SIZE as nat)
    }

    open spec fn parse(data: Seq<u8>) -> Result<Self, Error> {
        if data.len() != NETWORK_ADDRESS_SIZE {
            Err(Error::WrongNumberOfBytes)
        } else {
            Ok(NetworkAddress(little_endian(data, 0, NETWORK_ADDRESS_SIZE as nat) as u16))
        }
    }

    proof fn lemma_wire_size(&self) {
        lemma_octets_len(self.0 as nat, NETWORK_ADDRESS_SIZE as nat);
    }

    proof fn lemma_parse_length(data: Seq<u8>) {
    }

    fn pack(&self, data: &mut [u8]) -> (r: Result<(), Error>) {
        if data.len() != NETWORK_ADDRESS_SIZE {
            return Err(Error::WrongNumberOfBytes);
        }
        write_little_endian(self.0 as u64, data);
        Ok(())
    }

    fn unpack(data: &[u8]) -> (r: Result<Self, Error>) {
        if data.len() != NETWORK_ADDRESS_SIZE {
            return Err(Error::WrongNumberOfBytes);
        }
        let value = read_little_endian(data);
        proof {
            lemma_little_endian_bound(data@, 0, NETWORK_ADDRESS_SIZE as nat);
            reveal_with_fuel(octet_range, 3);
        }
        Ok(NetworkAddress(value as u16))
    }
}

/// The 64-bit address that identifies a device, or a network, everywhere.
#[derive(Clone, Copy, Debug, PartialEq, Eq, Structural)]
pub struct ExtendedAddress(pub u64);

impl PackFixed for ExtendedAddress {
    open spec fn wire_size() -> nat {
        EXTENDED_ADDRESS_SIZE as nat
    }

    open spec fn packable(&self) -> bool {
        true
    }

    open spec fn wire(&self) -> Seq<u8> {
        little_endian_octets(self.0 as nat, EXTENDED_ADDRESS_SIZE as nat)
    }

    open spec fn parse(data: Seq<u8>) -> Result<Self, Error> {
        if data.len() != EXTENDED_ADDRESS_SIZE {
            Err(Error::WrongNumberOfBytes)
        } else {
            Ok(ExtendedAddress(little_endian(data, 0, EXTENDED_ADDRESS_SIZE as nat) as u64))
        }
    }

    proof fn lemma_wire_size(&self) {
        lemma_octets_len(self.0 as nat, EXTENDED_ADDRESS_SIZE as nat);
    }

    proof fn lemma_parse_length(data: Seq<u8>) {
    }

    fn pack(&self, data: &mut [u8]) -> (r: Result<(), Error>) {
        if data.len() != EXTENDED_ADDRESS_SIZE {
            return Err(Error::WrongNumberOfBytes);
        }
        write_little_endian(self.0, data);
        Ok(())
    }

    fn unpack(data: &[u8]) -> (r: Result<Self, Error>) {
        if data.len() != EXTENDED_ADDRESS_SIZE {
            return Err(Error::WrongNumberOfBytes);
        }
        Ok(ExtendedAddress(read_little_endian(data)))
    }
}

/// A network address that is encoded and decoded again is unchanged.
pub proof fn lemma_network_address_round_trip(address: NetworkAddress)
    ensures
        NetworkAddress::parse(address.wire()) == Ok::<NetworkAddress, Error>(address),
{
    reveal_with_fuel(octet_range, 3);
    lemma_octets_len(address.0 as nat, NETWORK_ADDRESS_SIZE as nat);
    lemma_octets_read_back(address.0 as nat, NETWORK_ADDRESS_SIZE as nat);
}

/// Octets that decode to a network address are the ones that the address
/// encodes to.
pub proof fn lemma_network_address_octets(data: Seq<u8>)
    requires
        data.len() == NETWORK_ADDRESS_SIZE,
    ensures
        NetworkAddress::parse(data) is Ok,
        NetworkAddress::parse(data)->Ok_0.wire() == data,
{
    reveal_with_fuel(octet_range, 3);
    lemma_little_endian_bound(data, 0, NETWORK_ADDRESS_SIZE as nat);
    lemma_read_octets_back(data, 0, NETWORK_ADDRESS_SIZE as nat);
    assert(data.subrange(0, NETWORK_ADDRESS_SIZE as int) =~= data);
}

/// An extended address that is encoded and decoded again is unchanged.
pub proof fn lemma_extended_address_round_trip(address: ExtendedAddress)
    ensures
        ExtendedAddress::parse(address.wire()) == Ok::<ExtendedAddress, Error>(address),
{
    reveal_with_fuel(octet_range, 9);
    lemma_octets_len(address.0 as nat, EXTENDED_ADDRESS_SIZE as nat);
    lemma_octets_read_back(address.0 as nat, EXTENDED_ADDRESS_SIZE as nat);
}

/// Octets that decode to an extended address are the ones that the address
/// encodes to.
pub proof fn lemma_extended_address_octets(data: Seq<u8>)
    requires
        data.len() == EXTENDED_ADDRESS_SIZE,
    ensures
        ExtendedAddress::parse(data) is Ok,
        ExtendedAddress::parse(data)->Ok_0.wire() == data,
{
    reveal_with_fuel(octet_range, 9);
    lemma_little_endian_bound(data, 0, EXTENDED_ADDRESS_SIZE as nat);
    lemma_read_octets_back(data, 0, EXTENDED_ADDRESS_SIZE as nat);
    assert(data.subrange(0, EXTENDED_ADDRESS_SIZE as int) =~= data);
}

} // verus!
