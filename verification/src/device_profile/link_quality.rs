//! The neighbour table of a device, as it reports it on request: one record
//! for each neighbour, and the response that carries a run of the records.
use crate::common::address::{
    lemma_extended_address_octets, lemma_extended_address_round_trip,
    lemma_network_address_octets, lemma_network_address_round_trip, ExtendedAddress,
    NetworkAddress, EXTENDED_ADDRESS_SIZE, NETWORK_ADDRESS_SIZE,
};
use crate::device_profile::status::Status;
use crate::enumeration::{decoded, lookup, ExtendedEnum};
use crate::error::Error;
use crate::pack::{Pack, PackFixed};
use vstd::prelude::*;

verus! {

/// The role of a neighbour in the network.
#[derive(Clone, Copy, Debug, PartialEq, Eq, Structural)]
pub enum DeviceType {
    Coordinator,
    Router,
    EndDevice,
    Unknown,
}

/// The declared values of [`DeviceType`].
pub const DEVICE_TYPE_VALUES: [(u8, DeviceType); 4] = [
    (0x00, DeviceType::Coordinator),
    (0x01, DeviceType::Router),
    (0x02, DeviceType::EndDevice),
    (0x03, DeviceType::Unknown),
];

impl ExtendedEnum for DeviceType {
    open spec fn spec_value(self) -> u8 {
        match self {
            DeviceType::Coordinator => 0x00,
            DeviceType::Router => 0x01,
            DeviceType::EndDevice => 0x02,
            DeviceType::Unknown => 0x03,
        }
    }

    open spec fn spec_from_value(raw: u8) -> Option<Self> {
        match raw {
            0x00 => Some(DeviceType::Coordinator),
            0x01 => Some(DeviceType::Router),
            0x02 => Some(DeviceType::EndDevice),
            0x03 => Some(DeviceType::Unknown),
            _ => None,
        }
    }

    open spec fn declared() -> Seq<(u8, Self)> {
        DEVICE_TYPE_VALUES@
    }

    proof fn lemma_declared() {
    }

    proof fn lemma_value_is_declared(self) {
    }

    proof fn lemma_declared_value(raw: u8) {
    }

    fn value(self) -> (raw: u8) {
        match self {
            DeviceType::Coordinator => 0x00,
            DeviceType::Router => 0x01,
            DeviceType::EndDevice => 0x02,
            DeviceType::Unknown => 0x03,
        }
    }

    fn from_value(raw: u8) -> (r: Result<Self, Error>) {
        let table = DEVICE_TYPE_VALUES;
        lookup(&table, raw)
    }
}

/// Whether the receiver of a neighbour stays on while it is idle.
#[derive(Clone, Copy, Debug, PartialEq, Eq, Structural)]
pub enum RxOnWhenIdle {
    Off,
    On,
    Unknown,
}

/// The declared values of [`RxOnWhenIdle`].
pub const RX_ON_WHEN_IDLE_VALUES: [(u8, RxOnWhenIdle); 3] = [
    (0x00, RxOnWhenIdle::Off),
    (0x01, RxOnWhenIdle::On),
    (0x02, RxOnWhenIdle::Unknown),
];

impl ExtendedEnum for RxOnWhenIdle {
    open spec fn spec_value(self) -> u8 {
        match self {
            RxOnWhenIdle::Off => 0x00,
            RxOnWhenIdle::On => 0x01,
            RxOnWhenIdle::Unknown => 0x02,
        }
    }

    open spec fn spec_from_value(raw: u8) -> Option<Self> {
        match raw {
            0x00 => Some(RxOnWhenIdle::Off),
            0x01 => Some(RxOnWhenIdle::On),
            0x02 => Some(RxOnWhenIdle::Unknown),
            _ => None,
        }
    }

    open spec fn declared() -> Seq<(u8, Self)> {
        RX_ON_WHEN_IDLE_VALUES@
    }

    proof fn lemma_declared() {
    }

    proof fn lemma_value_is_declared(self) {
    }

    proof fn lemma_declared_value(raw: u8) {
    }

    fn value(self) -> (raw: u8) {
        match self {
            RxOnWhenIdle::Off => 0x00,
            RxOnWhenIdle::On => 0x01,
            RxOnWhenIdle::Unknown => 0x02,
        }
    }

    fn from_value(raw: u8) -> (r: Result<Self, Error>) {
        let table = RX_ON_WHEN_IDLE_VALUES;
        lookup(&table, raw)
    }
}

/// What a neighbour is to the device that reports it.
#[derive(Clone, Copy, Debug, PartialEq, Eq, Structural)]
pub enum Relationship {
    Parent,
    Child,
    Sibling,
    NoneOfAbove,
    PreviousChild,
}

/// The declared values of [`Relationship`].
pub const RELATIONSHIP_VALUES: [(u8, Relationship); 5] = [
    (0x00, Relationship::Parent),
    (0x01, Relationship::Child),
    (0x02, Relationship::Sibling),
    (0x03, Relationship::NoneOfAbove),
    (0x04, Relationship::PreviousChild),
];

impl ExtendedEnum for Relationship {
    open spec fn spec_value(self) -> u8 {
        match self {
            Relationship::Parent => 0x00,
            Relationship::Child => 0x01,
            Relationship::Sibling => 0x02,
            Relationship::NoneOfAbove => 0x03,
            Relationship::PreviousChild => 0x04,
        }
    }

    open spec fn spec_from_value(raw: u8) -> Option<Self> {
        match raw {
            0x00 => Some(Relationship::Parent),
            0x01 => Some(Relationship::Child),
            0x02 => Some(Relationship::Sibling),
            0x03 => Some(Relationship::NoneOfAbove),
            0x04 => Some(Relationship::PreviousChild),
            _ => None,
        }
    }

    open spec fn declared() -> Seq<(u8, Self)> {
        RELATIONSHIP_VALUES@
    }

    proof fn lemma_declared() {
    }

    proof fn lemma_value_is_declared(self) {
    }

    proof fn lemma_declared_value(raw: u8) {
    }

    fn value(self) -> (raw: u8) {
        match self {
            Relationship::Parent => 0x00,
            Relationship::Child => 0x01,
            Relationship::Sibling => 0x02,
            Relationship::NoneOfAbove => 0x03,
            Relationship::PreviousChild => 0x04,
        }
    }

    fn from_value(raw: u8) -> (r: Result<Self, Error>) {
        let table = RELATIONSHIP_VALUES;
        lookup(&table, raw)
    }
}

/// Whether a neighbour accepts devices that want to join.
#[derive(Clone, Copy, Debug, PartialEq, Eq, Structural)]
pub enum PermitJoining {
    Yes,
    No,
    Unknown,
}

/// The declared values of [`PermitJoining`].
pub const PERMIT_JOINING_VALUES: [(u8, PermitJoining); 3] = [
    (0x00, PermitJoining::Yes),
    (0x01, PermitJoining::No),
    (0x02, PermitJoining::Unknown),
];

impl ExtendedEnum for PermitJoining {
    open spec fn spec_value(self) -> u8 {
        match self {
            PermitJoining::Yes => 0x00,
            PermitJoining::No => 0x01,
            PermitJoining::Unknown => 0x02,
        }
    }

    open spec fn spec_from_value(raw: u8) -> Option<Self> {
        match raw {
            0x00 => Some(PermitJoining::Yes),
            0x01 => Some(PermitJoining::No),
            0x02 => Some(PermitJoining::Unknown),
            _ => None,
        }
    }

    open spec fn declared() -> Seq<(u8, Self)> {
        PERMIT_JOINING_VALUES@
    }

    proof fn lemma_declared() {
    }

    proof fn lemma_value_is_declared(self) {
    }

    proof fn lemma_declared_value(raw: u8) {
    }

    fn value(self) -> (raw: u8) {
        match self {
            PermitJoining::Yes => 0x00,
            PermitJoining::No => 0x01,
            PermitJoining::Unknown => 0x02,
        }
    }

    fn from_value(raw: u8) -> (r: Result<Self, Error>) {
        let table = PERMIT_JOINING_VALUES;
        lookup(&table, raw)
    }
}

/// Width of an encoded neighbour record, in octets.
pub const NEIGHBOR_SIZE: usize = 22;

/// Position of the octet that holds device type, receiver state and
/// relationship.
pub const KIND_OFFSET: usize = 18;

/// Position of the octet that holds the joining state.
pub const JOINING_OFFSET: usize = 19;

/// Position of the depth.
pub const DEPTH_OFFSET: usize = 20;

/// Position of the link quality.
pub const LINK_QUALITY_OFFSET: usize = 21;

/// Bits of the kind octet that hold the device type.
pub const DEVICE_TYPE_MASK: u8 = 0b0000_0011;

/// Bits of the kind octet that hold the receiver state.
pub const RX_ON_WHEN_IDLE_MASK: u8 = 0b0000_1100;

/// Position of the receiver state in the kind octet.
pub const RX_ON_WHEN_IDLE_SHIFT: u8 = 2;

/// Bits of the kind octet that hold the relationship.
pub const RELATIONSHIP_MASK: u8 = 0b0111_0000;

/// Position of the relationship in the kind octet.
pub const RELATIONSHIP_SHIFT: u8 = 4;

/// Bit of the kind octet that belongs to no field.
pub const RESERVED_KIND_BITS: u8 = 0b1000_0000;

/// Bits of the joining octet that hold the joining state. The other bits
/// are reserved and ignored.
pub const PERMIT_JOINING_MASK: u8 = 0b1100_0000;

/// Position of the joining state in the joining octet.
pub const PERMIT_JOINING_SHIFT: u8 = 6;

/// Bits of the joining octet that belong to no field.
pub const RESERVED_JOINING_BITS: u8 = 0b0011_1111;

/// One record of a neighbour table.
#[derive(Clone, Debug, PartialEq)]
pub struct Neighbor {
    pub pan_identifier: ExtendedAddress,
    pub extended_address: ExtendedAddress,
    pub network_address: NetworkAddress,
    pub device_type: DeviceType,
    pub rx_idle: RxOnWhenIdle,
    pub relationship: Relationship,
    pub permit_joining: PermitJoining,
    pub depth: u8,
    pub link_quality: u8,
}

impl View for Neighbor {
    type V = Neighbor;

    open spec fn view(&self) -> Neighbor {
        *self
    }
}

impl Neighbor {
    /// The octet that carries device type, receiver state and relationship.
    pub open spec fn kind_octet(self) -> u8 {
        self.device_type.spec_value() | self.rx_idle.spec_value() << RX_ON_WHEN_IDLE_SHIFT
            | self.relationship.spec_value() << RELATIONSHIP_SHIFT
    }

    /// The octet that carries the joining state; its reserved bits are
    /// clear.
    pub open spec fn joining_octet(self) -> u8 {
        self.permit_joining.spec_value() << PERMIT_JOINING_SHIFT
    }

    /// Whether the reserved bits of the record that `data` starts with are
    /// clear.
    pub open spec fn reserved_bits_clear(data: Seq<u8>) -> bool {
        &&& data[KIND_OFFSET as int] & RESERVED_KIND_BITS == 0
        &&& data[JOINING_OFFSET as int] & RESERVED_JOINING_BITS == 0
    }

    /// The octets of `data` in which the extended address of the network
    /// stands.
    pub open spec fn pan_identifier_octets(data: Seq<u8>) -> Seq<u8> {
        data.subrange(0, EXTENDED_ADDRESS_SIZE as int)
    }

    /// The octets of `data` in which the extended address of the neighbour
    /// stands.
    pub open spec fn extended_address_octets(data: Seq<u8>) -> Seq<u8> {
        data.subrange(EXTENDED_ADDRESS_SIZE as int, 2 * EXTENDED_ADDRESS_SIZE)
    }

    /// The octets of `data` in which the network address of the neighbour
    /// stands.
    pub open spec fn network_address_octets(data: Seq<u8>) -> Seq<u8> {
        data.subrange(2 * EXTENDED_ADDRESS_SIZE, KIND_OFFSET as int)
    }
}

impl Pack for Neighbor {
    open spec fn packable(value: Neighbor) -> bool {
        true
    }

    open spec fn wire(value: Neighbor) -> Seq<u8> {
        value.pan_identifier.wire() + value.extended_address.wire()
            + value.network_address.wire() + seq![
            value.kind_octet(),
            value.joining_octet(),
            value.depth,
            value.link_quality,
        ]
    }

    open spec fn parse(data: Seq<u8>) -> Result<(Neighbor, nat), Error> {
        if data.len() < NEIGHBOR_SIZE {
            Err(Error::WrongNumberOfBytes)
        } else {
            let kind = data[KIND_OFFSET as int];
            let joining = data[JOINING_OFFSET as int];
            match (
                ExtendedAddress::parse(Self::pan_identifier_octets(data)),
                ExtendedAddress::parse(Self::extended_address_octets(data)),
                NetworkAddress::parse(Self::network_address_octets(data)),
                decoded::<DeviceType>(kind & DEVICE_TYPE_MASK),
                decoded::<RxOnWhenIdle>((kind & RX_ON_WHEN_IDLE_MASK) >> RX_ON_WHEN_IDLE_SHIFT),
                decoded::<Relationship>((kind & RELATIONSHIP_MASK) >> RELATIONSHIP_SHIFT),
                decoded::<PermitJoining>((joining & PERMIT_JOINING_MASK) >> PERMIT_JOINING_SHIFT),
            ) {
                (Err(e), _, _, _, _, _, _) => Err(e),
                (_, Err(e), _, _, _, _, _) => Err(e),
                (_, _, Err(e), _, _, _, _) => Err(e),
                (_, _, _, Err(e), _, _, _) => Err(e),
                (_, _, _, _, Err(e), _, _) => Err(e),
                (_, _, _, _, _, Err(e), _) => Err(e),
                (_, _, _, _, _, _, Err(e)) => Err(e),
                (
                    Ok(pan_identifier),
                    Ok(extended_address),
                    Ok(network_address),
                    Ok(device_type),
                    Ok(rx_idle),
                    Ok(relationship),
                    Ok(permit_joining),
                ) => Ok(
                    (
                        Neighbor {
                            pan_identifier,
                            extended_address,
                            network_address,
                            device_type,
                            rx_idle,
                            relationship,
                            permit_joining,
                            depth: data[DEPTH_OFFSET as int],
                            link_quality: data[LINK_QUALITY_OFFSET as int],
                        },
                        NEIGHBOR_SIZE as nat,
                    ),
                ),
            }
        }
    }

    proof fn lemma_parse_within(data: Seq<u8>) {
    }

    proof fn lemma_parse_ignores_rest(data: Seq<u8>, other: Seq<u8>) {
        let used = NEIGHBOR_SIZE as int;
        assert(Self::pan_identifier_octets(other) =~= Self::pan_identifier_octets(
            other.take(used),
        ));
        assert(Self::pan_identifier_octets(data) =~= Self::pan_identifier_octets(data.take(used)));
        assert(Self::extended_address_octets(other) =~= Self::extended_address_octets(
            other.take(used),
        ));
        assert(Self::extended_address_octets(data) =~= Self::extended_address_octets(
            data.take(used),
        ));
        assert(Self::network_address_octets(other) =~= Self::network_address_octets(
            other.take(used),
        ));
        assert(Self::network_address_octets(data) =~= Self::network_address_octets(
            data.take(used),
        ));
        assert(other[KIND_OFFSET as int] == other.take(used)[KIND_OFFSET as int]);
        assert(data[KIND_OFFSET as int] == data.take(used)[KIND_OFFSET as int]);
        assert(other[JOINING_OFFSET as int] == other.take(used)[JOINING_OFFSET as int]);
        assert(data[JOINING_OFFSET as int] == data.take(used)[JOINING_OFFSET as int]);
        assert(other[DEPTH_OFFSET as int] == other.take(used)[DEPTH_OFFSET as int]);
        assert(data[DEPTH_OFFSET as int] == data.take(used)[DEPTH_OFFSET as int]);
        assert(other[LINK_QUALITY_OFFSET as int] == other.take(used)[LINK_QUALITY_OFFSET as int]);
        assert(data[LINK_QUALITY_OFFSET as int] == data.take(used)[LINK_QUALITY_OFFSET as int]);
    }

    fn pack(&self, data: &mut [u8]) -> (r: Result<usize, Error>) {
        if data.len() < NEIGHBOR_SIZE {
            proof {
                self.pan_identifier.lemma_wire_size();
                self.extended_address.lemma_wire_size();
                self.network_address.lemma_wire_size();
            }
            return Err(Error::WrongNumberOfBytes);
        }
        let (record, rest) = data.split_at_mut(NEIGHBOR_SIZE);
        let (pan_identifier, behind_pan_identifier) = record.split_at_mut(EXTENDED_ADDRESS_SIZE);
        let (extended_address, behind_extended_address) = behind_pan_identifier.split_at_mut(
            EXTENDED_ADDRESS_SIZE,
        );
        let (network_address, fields) = behind_extended_address.split_at_mut(
            NETWORK_ADDRESS_SIZE,
        );
        match self.pan_identifier.pack(pan_identifier) {
            Ok(_) => {},
            Err(e) => {
                return Err(e);
            },
        }
        match self.extended_address.pack(extended_address) {
            Ok(_) => {},
            Err(e) => {
                return Err(e);
            },
        }
        match self.network_address.pack(network_address) {
            Ok(_) => {},
            Err(e) => {
                return Err(e);
            },
        }
        fields[0] = self.device_type.value() | self.rx_idle.value() << RX_ON_WHEN_IDLE_SHIFT
            | self.relationship.value() << RELATIONSHIP_SHIFT;
        fields[1] = self.permit_joining.value() << PERMIT_JOINING_SHIFT;
        fields[2] = self.depth;
        fields[3] = self.link_quality;
        proof {
            self.pan_identifier.lemma_wire_size();
            self.extended_address.lemma_wire_size();
            self.network_address.lemma_wire_size();
            assert(pan_identifier@ + (extended_address@ + (network_address@ + fields@))
                =~= Self::wire(*self));
            assert(rest@ =~= old(data)@.skip(NEIGHBOR_SIZE as int));
        }
        Ok(NEIGHBOR_SIZE)
    }

    fn unpack(data: &[u8]) -> (r: Result<(Self, usize), Error>) {
        if data.len() < NEIGHBOR_SIZE {
            return Err(Error::WrongNumberOfBytes);
        }
        let pan_identifier = match ExtendedAddress::unpack(&data[0..EXTENDED_ADDRESS_SIZE]) {
            Ok(address) => address,
            Err(e) => {
                return Err(e);
            },
        };
        let extended_address = match ExtendedAddress::unpack(
            &data[EXTENDED_ADDRESS_SIZE..2 * EXTENDED_ADDRESS_SIZE],
        ) {
            Ok(address) => address,
            Err(e) => {
                return Err(e);
            },
        };
        let network_address = match NetworkAddress::unpack(
            &data[2 * EXTENDED_ADDRESS_SIZE..KIND_OFFSET],
        ) {
            Ok(address) => address,
            Err(e) => {
                return Err(e);
            },
        };
        let device_type = match DeviceType::from_value(data[KIND_OFFSET] & DEVICE_TYPE_MASK) {
            Ok(device_type) => device_type,
            Err(e) => {
                return Err(e);
            },
        };
        let rx_idle = match RxOnWhenIdle::from_value(
            (data[KIND_OFFSET] & RX_ON_WHEN_IDLE_MASK) >> RX_ON_WHEN_IDLE_SHIFT,
        ) {
            Ok(rx_idle) => rx_idle,
            Err(e) => {
                return Err(e);
            },
        };
        let relationship = match Relationship::from_value(
            (data[KIND_OFFSET] & RELATIONSHIP_MASK) >> RELATIONSHIP_SHIFT,
        ) {
            Ok(relationship) => relationship,
            Err(e) => {
                return Err(e);
            },
        };
        let permit_joining = match PermitJoining::from_value(
            (data[JOINING_OFFSET] & PERMIT_JOINING_MASK) >> PERMIT_JOINING_SHIFT,
        ) {
            Ok(permit_joining) => permit_joining,
            Err(e) => {
                return Err(e);
            },
        };
        Ok(
            (
                Neighbor {
                    pan_identifier,
                    extended_address,
                    network_address,
                    device_type,
                    rx_idle,
                    relationship,
                    permit_joining,
                    depth: data[DEPTH_OFFSET],
                    link_quality: data[LINK_QUALITY_OFFSET],
                },
                NEIGHBOR_SIZE,
            ),
        )
    }
}

/// An encoded record takes 22 octets.
pub proof fn lemma_neighbor_wire_size(neighbor: Neighbor)
    ensures
        Neighbor::wire(neighbor).len() == NEIGHBOR_SIZE,
{
    neighbor.pan_identifier.lemma_wire_size();
    neighbor.extended_address.lemma_wire_size();
    neighbor.network_address.lemma_wire_size();
}

/// A buffer that is shorter than a record is rejected.
pub proof fn lemma_neighbor_needs_record(data: Seq<u8>)
    requires
        data.len() < NEIGHBOR_SIZE,
    ensures
        Neighbor::parse(data) == Err::<(Neighbor, nat), Error>(Error::WrongNumberOfBytes),
{
}

/// A record always takes 22 octets, whatever its reserved bits hold.
pub proof fn lemma_neighbor_takes_record(data: Seq<u8>)
    ensures
        Neighbor::parse(data) matches Ok(found) ==> found.1 == NEIGHBOR_SIZE,
{
}

/// A buffer of at least 22 octets decodes to a record exactly when its
/// fields for receiver state, relationship and joining state hold declared
/// values (a device type always does). Otherwise the error carries the
/// value of the first of these fields, in this order, that is not declared.
pub proof fn lemma_neighbor_parse(data: Seq<u8>)
    requires
        NEIGHBOR_SIZE <= data.len(),
    ensures
        ({
            let kind = data[KIND_OFFSET as int];
            let joining = data[JOINING_OFFSET as int];
            let rx_idle = (kind & RX_ON_WHEN_IDLE_MASK) >> RX_ON_WHEN_IDLE_SHIFT;
            let relationship = (kind & RELATIONSHIP_MASK) >> RELATIONSHIP_SHIFT;
            let permit_joining = (joining & PERMIT_JOINING_MASK) >> PERMIT_JOINING_SHIFT;
            match Neighbor::parse(data) {
                Ok(found) => {
                    &&& DeviceType::spec_from_value(kind & DEVICE_TYPE_MASK) == Some(
                        found.0.device_type,
                    )
                    &&& RxOnWhenIdle::spec_from_value(rx_idle) == Some(found.0.rx_idle)
                    &&& Relationship::spec_from_value(relationship) == Some(
                        found.0.relationship,
                    )
                    &&& PermitJoining::spec_from_value(permit_joining) == Some(
                        found.0.permit_joining,
                    )
                },
                Err(e) => if RxOnWhenIdle::spec_from_value(rx_idle) is None {
                    e == Error::OutOfRange(rx_idle)
                } else if Relationship::spec_from_value(relationship) is None {
                    e == Error::OutOfRange(relationship)
                } else {
                    PermitJoining::spec_from_value(permit_joining) is None && e
                        == Error::OutOfRange(permit_joining)
                },
            }
        }),
{
    let kind = data[KIND_OFFSET as int];
    assert(kind & DEVICE_TYPE_MASK <= 3) by (bit_vector);
}

/// A record is unchanged by encoding it and decoding the result, whatever
/// follows it in the buffer.
pub proof fn lemma_neighbor_round_trip(neighbor: Neighbor, rest: Seq<u8>)
    ensures
        Neighbor::parse(Neighbor::wire(neighbor) + rest) == Ok::<(Neighbor, nat), Error>(
            (neighbor, NEIGHBOR_SIZE as nat),
        ),
{
    let data = Neighbor::wire(neighbor) + rest;
    neighbor.pan_identifier.lemma_wire_size();
    neighbor.extended_address.lemma_wire_size();
    neighbor.network_address.lemma_wire_size();
    lemma_extended_address_round_trip(neighbor.pan_identifier);
    lemma_extended_address_round_trip(neighbor.extended_address);
    lemma_network_address_round_trip(neighbor.network_address);
    assert(Neighbor::pan_identifier_octets(data) =~= neighbor.pan_identifier.wire());
    assert(Neighbor::extended_address_octets(data) =~= neighbor.extended_address.wire());
    assert(Neighbor::network_address_octets(data) =~= neighbor.network_address.wire());
    let device_type = neighbor.device_type.spec_value();
    let rx_idle = neighbor.rx_idle.spec_value();
    let relationship = neighbor.relationship.spec_value();
    let permit_joining = neighbor.permit_joining.spec_value();
    let kind = neighbor.kind_octet();
    let joining = neighbor.joining_octet();
    assert({
        &&& kind & DEVICE_TYPE_MASK == device_type
        &&& (kind & RX_ON_WHEN_IDLE_MASK) >> RX_ON_WHEN_IDLE_SHIFT == rx_idle
        &&& (kind & RELATIONSHIP_MASK) >> RELATIONSHIP_SHIFT == relationship
    }) by (bit_vector)
        requires
            device_type <= 3,
            rx_idle <= 3,
            relationship <= 7,
            kind == device_type | rx_idle << RX_ON_WHEN_IDLE_SHIFT | relationship
                << RELATIONSHIP_SHIFT,
    ;
    assert((joining & PERMIT_JOINING_MASK) >> PERMIT_JOINING_SHIFT == permit_joining)
        by (bit_vector)
        requires
            permit_joining <= 3,
            joining == permit_joining << PERMIT_JOINING_SHIFT,
    ;
    assert(data[KIND_OFFSET as int] == kind);
    assert(data[JOINING_OFFSET as int] == joining);
    neighbor.device_type.lemma_value_is_declared();
    neighbor.rx_idle.lemma_value_is_declared();
    neighbor.relationship.lemma_value_is_declared();
    neighbor.permit_joining.lemma_value_is_declared();
}

/// A decoded record whose reserved bits are clear encodes to the octets
/// that it was decoded from.
pub proof fn lemma_neighbor_octets_reproduced(data: Seq<u8>)
    requires
        Neighbor::parse(data) is Ok,
        Neighbor::reserved_bits_clear(data),
    ensures
        Neighbor::wire(Neighbor::parse(data)->Ok_0.0) == data.take(NEIGHBOR_SIZE as int),
{
    let neighbor = Neighbor::parse(data)->Ok_0.0;
    let kind = data[KIND_OFFSET as int];
    let joining = data[JOINING_OFFSET as int];
    lemma_extended_address_octets(Neighbor::pan_identifier_octets(data));
    lemma_extended_address_octets(Neighbor::extended_address_octets(data));
    lemma_network_address_octets(Neighbor::network_address_octets(data));
    DeviceType::lemma_declared_value(kind & DEVICE_TYPE_MASK);
    RxOnWhenIdle::lemma_declared_value((kind & RX_ON_WHEN_IDLE_MASK) >> RX_ON_WHEN_IDLE_SHIFT);
    Relationship::lemma_declared_value((kind & RELATIONSHIP_MASK) >> RELATIONSHIP_SHIFT);
    PermitJoining::lemma_declared_value(
        (joining & PERMIT_JOINING_MASK) >> PERMIT_JOINING_SHIFT,
    );
    assert((kind & DEVICE_TYPE_MASK) | ((kind & RX_ON_WHEN_IDLE_MASK) >> RX_ON_WHEN_IDLE_SHIFT)
        << RX_ON_WHEN_IDLE_SHIFT | ((kind & RELATIONSHIP_MASK) >> RELATIONSHIP_SHIFT)
        << RELATIONSHIP_SHIFT == kind) by (bit_vector)
        requires
            kind & RESERVED_KIND_BITS == 0,
    ;
    assert(((joining & PERMIT_JOINING_MASK) >> PERMIT_JOINING_SHIFT) << PERMIT_JOINING_SHIFT
        == joining) by (bit_vector)
        requires
            joining & RESERVED_JOINING_BITS == 0,
    ;
    assert(neighbor.kind_octet() == kind);
    assert(neighbor.joining_octet() == joining);
    assert(Neighbor::wire(neighbor) =~= data.take(NEIGHBOR_SIZE as int));
}

/// Width of the header of a response, in octets: status, size of the whole
/// table, position of the first record, number of records.
pub const RESPONSE_HEADER_SIZE: usize = 4;

/// The highest number of records that the count octet can announce.
pub const HIGHEST_NEIGHBOR_COUNT: usize = 255;

/// A run of records from the neighbour table of a device.
///
/// `neighbors_total` is the size of the whole table and `index` the
/// position in it of the first record of `neighbors`; the records follow in
/// the order of the table.
#[derive(Clone, Debug, PartialEq)]
pub struct ManagementLinkQualityIndicatorResponse {
    pub status: Status,
    pub neighbors_total: u8,
    pub index: u8,
    pub neighbors: Vec<Neighbor>,
}

/// What a [`ManagementLinkQualityIndicatorResponse`] holds, with its records
/// as a sequence.
pub struct ManagementLinkQualityIndicatorResponseView {
    pub status: Status,
    pub neighbors_total: u8,
    pub index: u8,
    pub neighbors: Seq<Neighbor>,
}

impl View for ManagementLinkQualityIndicatorResponse {
    type V = ManagementLinkQualityIndicatorResponseView;

    open spec fn view(&self) -> ManagementLinkQualityIndicatorResponseView {
        ManagementLinkQualityIndicatorResponseView {
            status: self.status,
            neighbors_total: self.neighbors_total,
            index: self.index,
            neighbors: self.neighbors@,
        }
    }
}

/// Where in a response the record at `position` starts.
pub open spec fn neighbor_offset(position: int) -> int {
    RESPONSE_HEADER_SIZE + position * NEIGHBOR_SIZE
}

/// The outcome of decoding the first `count` records of the response
/// `data`, one after the other: the records in the order of the buffer, or
/// the error of the first record that does not decode.
pub open spec fn parse_neighbors(data: Seq<u8>, count: nat) -> Result<Seq<Neighbor>, Error>
    decreases count,
{
    if count == 0 {
        Ok(Seq::empty())
    } else {
        match parse_neighbors(data, (count - 1) as nat) {
            Err(e) => Err(e),
            Ok(front) => match Neighbor::parse(data.skip(neighbor_offset(count - 1))) {
                Err(e) => Err(e),
                Ok(found) => Ok(front.push(found.0)),
            },
        }
    }
}

/// The encoded forms of `neighbors`, one behind the other.
pub open spec fn neighbors_wire(neighbors: Seq<Neighbor>) -> Seq<u8>
    decreases neighbors.len(),
{
    if neighbors.len() == 0 {
        Seq::empty()
    } else {
        neighbors_wire(neighbors.drop_last()) + Neighbor::wire(neighbors.last())
    }
}

/// Once a record has failed to decode, the error stays, however many
/// records are asked for.
pub proof fn lemma_parse_neighbors_error_stays(data: Seq<u8>, failed: nat, count: nat)
    requires
        parse_neighbors(data, failed) is Err,
        failed <= count,
    ensures
        parse_neighbors(data, count) == parse_neighbors(data, failed),
    decreases count,
{
    if failed < count {
        lemma_parse_neighbors_error_stays(data, failed, (count - 1) as nat);
    }
}

/// The records decode exactly when each of them does, and then there are
/// `count` of them, each the record that stands at its position. Otherwise
/// the error is that of the first record that does not decode.
pub proof fn lemma_parse_neighbors(data: Seq<u8>, count: nat)
    ensures
        match parse_neighbors(data, count) {
            Ok(neighbors) => {
                &&& neighbors.len() == count
                &&& forall|i: int|
                    0 <= i < count ==> Neighbor::parse(#[trigger] data.skip(neighbor_offset(i)))
                        == Ok::<(Neighbor, nat), Error>((neighbors[i], NEIGHBOR_SIZE as nat))
            },
            Err(e) => exists|first: int|
                {
                    &&& 0 <= first < count
                    &&& Neighbor::parse(#[trigger] data.skip(neighbor_offset(first))) == Err::<
                        (Neighbor, nat),
                        Error,
                    >(e)
                    &&& forall|i: int|
                        0 <= i < first ==> Neighbor::parse(
                            #[trigger] data.skip(neighbor_offset(i)),
                        ) is Ok
                },
        },
    decreases count,
{
    if count > 0 {
        lemma_parse_neighbors(data, (count - 1) as nat);
        match parse_neighbors(data, (count - 1) as nat) {
            Err(e) => {},
            Ok(front) => {
                match Neighbor::parse(data.skip(neighbor_offset(count - 1))) {
                    Err(e) => {
                        let first = count - 1;
                        assert(Neighbor::parse(data.skip(neighbor_offset(first))) == Err::<
                            (Neighbor, nat),
                            Error,
                        >(e));
                    },
                    Ok(found) => {},
                }
            },
        }
    }
}

/// Encoded records take 22 octets each, and each record stands in the
/// octets of its position.
pub proof fn lemma_neighbors_wire(neighbors: Seq<Neighbor>)
    ensures
        neighbors_wire(neighbors).len() == neighbors.len() * NEIGHBOR_SIZE,
        forall|i: int|
            0 <= i < neighbors.len() ==> neighbors_wire(neighbors).subrange(
                i * NEIGHBOR_SIZE,
                (i + 1) * NEIGHBOR_SIZE,
            ) == Neighbor::wire(#[trigger] neighbors[i]),
    decreases neighbors.len(),
{
    if neighbors.len() > 0 {
        let front = neighbors.drop_last();
        let last = neighbors.last();
        lemma_neighbors_wire(front);
        lemma_neighbor_wire_size(last);
        assert forall|i: int| 0 <= i < neighbors.len() implies neighbors_wire(neighbors).subrange(
            i * NEIGHBOR_SIZE,
            (i + 1) * NEIGHBOR_SIZE,
        ) == Neighbor::wire(#[trigger] neighbors[i]) by {
            if i < front.len() {
                assert(front[i] == neighbors[i]);
                assert(neighbors_wire(neighbors).subrange(
                    i * NEIGHBOR_SIZE,
                    (i + 1) * NEIGHBOR_SIZE,
                ) =~= neighbors_wire(front).subrange(i * NEIGHBOR_SIZE, (i + 1) * NEIGHBOR_SIZE));
            } else {
                assert(neighbors_wire(neighbors).subrange(
                    i * NEIGHBOR_SIZE,
                    (i + 1) * NEIGHBOR_SIZE,
                ) =~= Neighbor::wire(last));
            }
        }
    }
}

/// The records of a response are decoded from the octets of the response
/// only.
pub proof fn lemma_neighbors_ignore_rest(data: Seq<u8>, other: Seq<u8>, announced: nat, count: nat)
    requires
        count <= announced,
        RESPONSE_HEADER_SIZE + announced * NEIGHBOR_SIZE <= data.len(),
        RESPONSE_HEADER_SIZE + announced * NEIGHBOR_SIZE <= other.len(),
        other.take(RESPONSE_HEADER_SIZE + announced * NEIGHBOR_SIZE) == data.take(
            RESPONSE_HEADER_SIZE + announced * NEIGHBOR_SIZE,
        ),
        parse_neighbors(data, count) is Ok,
    ensures
        parse_neighbors(other, count) == parse_neighbors(data, count),
    decreases count,
{
    if count > 0 {
        let used = RESPONSE_HEADER_SIZE + announced * NEIGHBOR_SIZE;
        let at = neighbor_offset(count - 1);
        lemma_neighbors_ignore_rest(data, other, announced, (count - 1) as nat);
        assert(other.skip(at).take(NEIGHBOR_SIZE as int) =~= other.take(used).subrange(
            at,
            at + NEIGHBOR_SIZE,
        ));
        assert(data.skip(at).take(NEIGHBOR_SIZE as int) =~= data.take(used).subrange(
            at,
            at + NEIGHBOR_SIZE,
        ));
        Neighbor::lemma_parse_ignores_rest(data.skip(at), other.skip(at));
    }
}

impl Pack for ManagementLinkQualityIndicatorResponse {
    open spec fn packable(value: ManagementLinkQualityIndicatorResponseView) -> bool {
        value.neighbors.len() <= HIGHEST_NEIGHBOR_COUNT
    }

    open spec fn wire(value: ManagementLinkQualityIndicatorResponseView) -> Seq<u8> {
        seq![
            value.status.spec_value(),
            value.neighbors_total,
            value.index,
            value.neighbors.len() as u8,
        ] + neighbors_wire(value.neighbors)
    }

    open spec fn parse(data: Seq<u8>) -> Result<
        (ManagementLinkQualityIndicatorResponseView, nat),
        Error,
    > {
        if data.len() < RESPONSE_HEADER_SIZE {
            Err(Error::WrongNumberOfBytes)
        } else {
            match decoded::<Status>(data[0]) {
                Err(e) => Err(e),
                Ok(status) => {
                    let count = data[3] as nat;
                    if data.len() < RESPONSE_HEADER_SIZE + count * NEIGHBOR_SIZE {
                        Err(Error::WrongNumberOfBytes)
                    } else {
                        match parse_neighbors(data, count) {
                            Err(e) => Err(e),
                            Ok(neighbors) => Ok(
                                (
                                    ManagementLinkQualityIndicatorResponseView {
                                        status,
                                        neighbors_total: data[1],
                                        index: data[2],
                                        neighbors,
                                    },
                                    (RESPONSE_HEADER_SIZE + count * NEIGHBOR_SIZE) as nat,
                                ),
                            ),
                        }
                    }
                },
            }
        }
    }

    proof fn lemma_parse_within(data: Seq<u8>) {
    }

    proof fn lemma_parse_ignores_rest(data: Seq<u8>, other: Seq<u8>) {
        let used = Self::parse(data)->Ok_0.1 as int;
        let count = data[3] as nat;
        assert(forall|k: int| 0 <= k < 4 ==> other[k] == other.take(used)[k]);
        assert(forall|k: int| 0 <= k < 4 ==> data[k] == data.take(used)[k]);
        lemma_neighbors_ignore_rest(data, other, count, count);
    }

    fn pack(&self, data: &mut [u8]) -> (r: Result<usize, Error>) {
        let count = self.neighbors.len();
        proof {
            lemma_neighbors_wire(self.neighbors@);
        }
        if data.len() < RESPONSE_HEADER_SIZE + count * NEIGHBOR_SIZE {
            return Err(Error::WrongNumberOfBytes);
        }
        data[0] = self.status.value();
        data[1] = self.neighbors_total;
        data[2] = self.index;
        data[3] = count as u8;
        let ghost header = data@.take(RESPONSE_HEADER_SIZE as int);
        let mut offset: usize = RESPONSE_HEADER_SIZE;
        let mut position: usize = 0;
        while position < count
            invariant
                count == self.neighbors@.len(),
                position <= count,
                offset == RESPONSE_HEADER_SIZE + position * NEIGHBOR_SIZE,
                data.len() == old(data)@.len(),
                RESPONSE_HEADER_SIZE + count * NEIGHBOR_SIZE <= data.len(),
                data@.take(offset as int) == header + neighbors_wire(
                    self.neighbors@.take(position as int),
                ),
                data@.skip(offset as int) == old(data)@.skip(offset as int),
            decreases count - position,
        {
            let ghost before = data@;
            proof {
                lemma_neighbor_wire_size(self.neighbors@[position as int]);
            }
            let (written, rest) = data.split_at_mut(offset);
            let used = match self.neighbors[position].pack(rest) {
                Ok(used) => used,
                Err(e) => {
                    return Err(e);
                },
            };
            proof {
                let neighbor = self.neighbors@[position as int];
                let taken = self.neighbors@.take(position as int + 1);
                assert(taken.drop_last() =~= self.neighbors@.take(position as int));
                assert(taken.last() == neighbor);
                assert(data@ == before.take(offset as int) + (Neighbor::wire(neighbor)
                    + before.skip(offset as int).skip(NEIGHBOR_SIZE as int)));
                assert(data@.take(offset as int + NEIGHBOR_SIZE as int) =~= before.take(
                    offset as int,
                ) + Neighbor::wire(neighbor));
                assert(data@.skip(offset as int + NEIGHBOR_SIZE as int) =~= old(data)@.skip(
                    offset as int + NEIGHBOR_SIZE as int,
                ));
            }
            offset += used;
            position += 1;
        }
        proof {
            assert(self.neighbors@.take(count as int) =~= self.neighbors@);
            assert(header =~= seq![
                self.status.spec_value(),
                self.neighbors_total,
                self.index,
                count as u8,
            ]);
            assert(data@ =~= data@.take(offset as int) + data@.skip(offset as int));
        }
        Ok(offset)
    }

    fn unpack(data: &[u8]) -> (r: Result<(Self, usize), Error>) {
        if data.len() < RESPONSE_HEADER_SIZE {
            return Err(Error::WrongNumberOfBytes);
        }
        let status = match Status::from_value(data[0]) {
            Ok(status) => status,
            Err(e) => {
                return Err(e);
            },
        };
        let neighbors_total = data[1];
        let index = data[2];
        let num_entries = data[3] as usize;
        if data.len() < RESPONSE_HEADER_SIZE + num_entries * NEIGHBOR_SIZE {
            return Err(Error::WrongNumberOfBytes);
        }
        let mut offset: usize = RESPONSE_HEADER_SIZE;
        let mut neighbors: Vec<Neighbor> = Vec::with_capacity(num_entries);
        let mut position: usize = 0;
        while position < num_entries
            invariant
                position <= num_entries,
                offset == RESPONSE_HEADER_SIZE + position * NEIGHBOR_SIZE,
                RESPONSE_HEADER_SIZE + num_entries * NEIGHBOR_SIZE <= data.len(),
                num_entries == data@[3],
                decoded::<Status>(data@[0]) == Ok::<Status, Error>(status),
                parse_neighbors(data@, position as nat) == Ok::<Seq<Neighbor>, Error>(neighbors@),
            decreases num_entries - position,
        {
            let (neighbor, used) = match Neighbor::unpack(&data[offset..data.len()]) {
                Ok(found) => found,
                Err(e) => {
                    proof {
                        lemma_parse_neighbors_error_stays(
                            data@,
                            (position + 1) as nat,
                            num_entries as nat,
                        );
                    }
                    return Err(e);
                },
            };
            neighbors.push(neighbor);
            offset += used;
            position += 1;
        }
        Ok(
            (
                ManagementLinkQualityIndicatorResponse { status, neighbors_total, index, neighbors },
                offset,
            ),
        )
    }
}

/// A buffer that is shorter than the header of a response is rejected.
pub proof fn lemma_response_needs_header(data: Seq<u8>)
    requires
        data.len() < RESPONSE_HEADER_SIZE,
    ensures
        ManagementLinkQualityIndicatorResponse::parse(data) == Err::<
            (ManagementLinkQualityIndicatorResponseView, nat),
            Error,
        >(Error::WrongNumberOfBytes),
{
}

/// A response with a declared status that announces more records than the
/// buffer holds is rejected for its length. (An undeclared status is
/// reported first, before the count is looked at.)
pub proof fn lemma_response_needs_records(data: Seq<u8>)
    requires
        RESPONSE_HEADER_SIZE <= data.len(),
        Status::spec_from_value(data[0]) is Some,
        data.len() < RESPONSE_HEADER_SIZE + data[3] * NEIGHBOR_SIZE,
    ensures
        ManagementLinkQualityIndicatorResponse::parse(data) == Err::<
            (ManagementLinkQualityIndicatorResponseView, nat),
            Error,
        >(Error::WrongNumberOfBytes),
{
}

/// A decoded response has the fields of its header, as many records as the
/// header announces, and ends behind the last of them.
pub proof fn lemma_response_parse(data: Seq<u8>)
    ensures
        ManagementLinkQualityIndicatorResponse::parse(data) matches Ok(found) ==> {
            &&& Status::spec_from_value(data[0]) == Some(found.0.status)
            &&& found.0.neighbors_total == data[1]
            &&& found.0.index == data[2]
            &&& found.0.neighbors.len() == data[3]
            &&& found.1 == RESPONSE_HEADER_SIZE + data[3] * NEIGHBOR_SIZE
            &&& found.1 <= data.len()
            &&& forall|i: int|
                0 <= i < found.0.neighbors.len() ==> Neighbor::parse(
                    #[trigger] data.skip(neighbor_offset(i)),
                ) == Ok::<(Neighbor, nat), Error>((found.0.neighbors[i], NEIGHBOR_SIZE as nat))
            &&& ManagementLinkQualityIndicatorResponse::packable(found.0)
        },
{
    if data.len() >= RESPONSE_HEADER_SIZE {
        lemma_parse_neighbors(data, data[3] as nat);
    }
}

/// The records of an encoded response decode to the records that were
/// encoded.
proof fn lemma_response_records_round_trip(
    value: ManagementLinkQualityIndicatorResponseView,
    rest: Seq<u8>,
    count: nat,
)
    requires
        count <= value.neighbors.len(),
    ensures
        parse_neighbors(ManagementLinkQualityIndicatorResponse::wire(value) + rest, count) == Ok::<
            Seq<Neighbor>,
            Error,
        >(value.neighbors.take(count as int)),
    decreases count,
{
    let data = ManagementLinkQualityIndicatorResponse::wire(value) + rest;
    if count > 0 {
        let position = count - 1;
        let neighbor = value.neighbors[position];
        let at = neighbor_offset(position);
        lemma_response_records_round_trip(value, rest, position as nat);
        lemma_neighbors_wire(value.neighbors);
        assert(data.skip(at).take(NEIGHBOR_SIZE as int) =~= neighbors_wire(
            value.neighbors,
        ).subrange(position * NEIGHBOR_SIZE, (position + 1) * NEIGHBOR_SIZE));
        assert(data.skip(at) =~= Neighbor::wire(neighbor) + data.skip(at + NEIGHBOR_SIZE));
        lemma_neighbor_round_trip(neighbor, data.skip(at + NEIGHBOR_SIZE));
        assert(value.neighbors.take(position).push(neighbor) =~= value.neighbors.take(
            count as int,
        ));
    } else {
        assert(value.neighbors.take(0) =~= Seq::<Neighbor>::empty());
    }
}

/// A response with at most 255 records is unchanged by encoding it and
/// decoding the result, whatever follows it in the buffer.
pub proof fn lemma_response_round_trip(
    value: ManagementLinkQualityIndicatorResponseView,
    rest: Seq<u8>,
)
    requires
        ManagementLinkQualityIndicatorResponse::packable(value),
    ensures
        ManagementLinkQualityIndicatorResponse::parse(
            ManagementLinkQualityIndicatorResponse::wire(value) + rest,
        ) == Ok::<(ManagementLinkQualityIndicatorResponseView, nat), Error>(
            (value, ManagementLinkQualityIndicatorResponse::wire(value).len()),
        ),
{
    let data = ManagementLinkQualityIndicatorResponse::wire(value) + rest;
    lemma_neighbors_wire(value.neighbors);
    value.status.lemma_value_is_declared();
    lemma_response_records_round_trip(value, rest, value.neighbors.len());
    assert(value.neighbors.take(value.neighbors.len() as int) =~= value.neighbors);
    assert(data[0] == value.status.spec_value());
    assert(data[3] == value.neighbors.len());
}

/// Records that were decoded from octets whose reserved bits are clear
/// encode to those octets.
proof fn lemma_response_records_reproduced(data: Seq<u8>, count: nat)
    requires
        neighbor_offset(count as int) <= data.len(),
        parse_neighbors(data, count) is Ok,
        forall|i: int|
            0 <= i < count ==> Neighbor::reserved_bits_clear(
                #[trigger] data.skip(neighbor_offset(i)),
            ),
    ensures
        neighbors_wire(parse_neighbors(data, count)->Ok_0) == data.subrange(
            RESPONSE_HEADER_SIZE as int,
            neighbor_offset(count as int),
        ),
    decreases count,
{
    let first = RESPONSE_HEADER_SIZE as int;
    if count > 0 {
        let at = neighbor_offset(count - 1);
        let front = parse_neighbors(data, (count - 1) as nat)->Ok_0;
        let last = Neighbor::parse(data.skip(at))->Ok_0.0;
        lemma_response_records_reproduced(data, (count - 1) as nat);
        assert(Neighbor::reserved_bits_clear(data.skip(at)));
        lemma_neighbor_octets_reproduced(data.skip(at));
        assert(front.push(last).drop_last() =~= front);
        assert(data.subrange(first, at) + data.skip(at).take(NEIGHBOR_SIZE as int)
            =~= data.subrange(first, at + NEIGHBOR_SIZE));
    } else {
        assert(data.subrange(first, first) =~= Seq::<u8>::empty());
    }
}

/// A decoded response whose records have their reserved bits clear encodes
/// to the octets that it was decoded from.
pub proof fn lemma_response_octets_reproduced(data: Seq<u8>)
    requires
        ManagementLinkQualityIndicatorResponse::parse(data) is Ok,
        forall|i: int|
            0 <= i < data[3] ==> Neighbor::reserved_bits_clear(
                #[trigger] data.skip(neighbor_offset(i)),
            ),
    ensures
        ManagementLinkQualityIndicatorResponse::wire(
            ManagementLinkQualityIndicatorResponse::parse(data)->Ok_0.0,
        ) == data.take(ManagementLinkQualityIndicatorResponse::parse(data)->Ok_0.1 as int),
{
    let found = ManagementLinkQualityIndicatorResponse::parse(data)->Ok_0;
    lemma_response_parse(data);
    Status::lemma_declared_value(data[0]);
    lemma_response_records_reproduced(data, data[3] as nat);
    assert(ManagementLinkQualityIndicatorResponse::wire(found.0) =~= data.take(found.1 as int));
}

} // verus!
