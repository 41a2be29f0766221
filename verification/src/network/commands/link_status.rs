//! The link-status command: a device advertises the costs of the links to
//! its neighbours. A table that does not fit one frame is sent in several,
//! each flagged as first, last or neither.
use crate::common::address::{
    lemma_network_address_octets, lemma_network_address_round_trip, NetworkAddress,
    NETWORK_ADDRESS_SIZE,
};
use crate::error::Error;
use crate::pack::{Pack, PackFixed};
use vstd::prelude::*;

verus! {

/// Bits of the cost octet that hold the incoming cost.
pub const INCOMING_COST_MASK: u8 = 0b0000_0111;

/// Bits of the cost octet that hold the outgoing cost.
pub const OUTGOING_COST_MASK: u8 = 0b0111_0000;

/// Position of the outgoing cost in the cost octet.
pub const OUTGOING_COST_SHIFT: u8 = 4;

/// Bits of the cost octet that belong to neither cost.
pub const RESERVED_COST_BITS: u8 = 0b1000_1000;

/// Costs from here on are refused by the encoder.
pub const COST_LIMIT: u8 = 16;

/// The highest cost that its three-bit field can hold.
pub const HIGHEST_COST: u8 = 7;

/// Width of an encoded entry, in octets.
pub const LINK_STATUS_ENTRY_SIZE: usize = 3;

/// The costs of the link to one neighbour.
///
/// On the wire each cost has a field of three bits. The encoder accepts
/// costs below [`COST_LIMIT`], one bit more than a field holds: a cost
/// above [`HIGHEST_COST`] spills into the reserved bit over its field, and
/// decoding the entry gives another cost back.
#[derive(Copy, Clone, Debug, PartialEq)]
pub struct LinkStatusEntry {
    pub address: NetworkAddress,
    pub incoming_cost: u8,
    pub outgoing_cost: u8,
}

impl LinkStatusEntry {
    /// The octet that carries both costs.
    pub open spec fn cost_octet(&self) -> u8 {
        self.incoming_cost | self.outgoing_cost << OUTGOING_COST_SHIFT
    }

    /// Whether both costs fit their fields.
    pub open spec fn fits_fields(&self) -> bool {
        self.incoming_cost <= HIGHEST_COST && self.outgoing_cost <= HIGHEST_COST
    }
}

impl PackFixed for LinkStatusEntry {
    open spec fn wire_size() -> nat {
        LINK_STATUS_ENTRY_SIZE as nat
    }

    open spec fn packable(&self) -> bool {
        self.incoming_cost < COST_LIMIT && self.outgoing_cost < COST_LIMIT
    }

    open spec fn wire(&self) -> Seq<u8> {
        self.address.wire().push(self.cost_octet())
    }

    open spec fn parse(data: Seq<u8>) -> Result<Self, Error> {
        if data.len() != LINK_STATUS_ENTRY_SIZE {
            Err(Error::WrongNumberOfBytes)
        } else {
            match NetworkAddress::parse(data.subrange(0, NETWORK_ADDRESS_SIZE as int)) {
                Err(e) => Err(e),
                Ok(address) => Ok(
                    LinkStatusEntry {
                        address,
                        incoming_cost: data[2] & INCOMING_COST_MASK,
                        outgoing_cost: (data[2] & OUTGOING_COST_MASK) >> OUTGOING_COST_SHIFT,
                    },
                ),
            }
        }
    }

    proof fn lemma_wire_size(&self) {
        self.address.lemma_wire_size();
    }

    proof fn lemma_parse_length(data: Seq<u8>) {
    }

    fn pack(&self, data: &mut [u8]) -> (r: Result<(), Error>) {
        if data.len() != LINK_STATUS_ENTRY_SIZE {
            return Err(Error::WrongNumberOfBytes);
        }
        let (address, costs) = data.split_at_mut(NETWORK_ADDRESS_SIZE);
        match self.address.pack(address) {
            Ok(_) => {},
            Err(e) => {
                return Err(e);
            },
        }
        costs[0] = self.incoming_cost | self.outgoing_cost << OUTGOING_COST_SHIFT;
        proof {
            self.address.lemma_wire_size();
            assert(address@ + costs@ =~= self.wire());
        }
        Ok(())
    }

    fn unpack(data: &[u8]) -> (r: Result<Self, Error>) {
        if data.len() != LINK_STATUS_ENTRY_SIZE {
            return Err(Error::WrongNumberOfBytes);
        }
        let address = match NetworkAddress::unpack(&data[0..NETWORK_ADDRESS_SIZE]) {
            Ok(address) => address,
            Err(e) => {
                return Err(e);
            },
        };
        let incoming_cost = data[2] & INCOMING_COST_MASK;
        let outgoing_cost = (data[2] & OUTGOING_COST_MASK) >> OUTGOING_COST_SHIFT;
        Ok(LinkStatusEntry { address, incoming_cost, outgoing_cost })
    }
}

/// Three octets always decode to an entry, and its costs fit their fields.
pub proof fn lemma_entry_parse_total(data: Seq<u8>)
    requires
        data.len() == LINK_STATUS_ENTRY_SIZE,
    ensures
        LinkStatusEntry::parse(data) is Ok,
        LinkStatusEntry::parse(data)->Ok_0.fits_fields(),
{
    let octet = data[2];
    assert({
        &&& octet & INCOMING_COST_MASK <= HIGHEST_COST
        &&& (octet & OUTGOING_COST_MASK) >> OUTGOING_COST_SHIFT <= HIGHEST_COST
    }) by (bit_vector);
}

/// An entry whose costs fit their fields is unchanged by encoding it and
/// decoding the result.
pub proof fn lemma_entry_round_trip(entry: LinkStatusEntry)
    requires
        entry.fits_fields(),
    ensures
        LinkStatusEntry::parse(entry.wire()) == Ok::<LinkStatusEntry, Error>(entry),
{
    let incoming = entry.incoming_cost;
    let outgoing = entry.outgoing_cost;
    let octet = entry.cost_octet();
    entry.address.lemma_wire_size();
    lemma_network_address_round_trip(entry.address);
    assert(entry.wire().subrange(0, NETWORK_ADDRESS_SIZE as int) =~= entry.address.wire());
    assert({
        &&& octet & INCOMING_COST_MASK == incoming
        &&& (octet & OUTGOING_COST_MASK) >> OUTGOING_COST_SHIFT == outgoing
    }) by (bit_vector)
        requires
            incoming <= HIGHEST_COST,
            outgoing <= HIGHEST_COST,
            octet == incoming | outgoing << OUTGOING_COST_SHIFT,
    ;
}

/// Three octets whose reserved bits are clear are reproduced exactly by
/// decoding them and encoding the entry again.
pub proof fn lemma_entry_octets_reproduced(data: Seq<u8>)
    requires
        data.len() == LINK_STATUS_ENTRY_SIZE,
        data[2] & RESERVED_COST_BITS == 0,
    ensures
        LinkStatusEntry::parse(data) is Ok,
        LinkStatusEntry::parse(data)->Ok_0.packable(),
        LinkStatusEntry::parse(data)->Ok_0.wire() == data,
{
    let octet = data[2];
    let head = data.subrange(0, NETWORK_ADDRESS_SIZE as int);
    lemma_network_address_octets(head);
    lemma_entry_parse_total(data);
    assert((octet & INCOMING_COST_MASK) | ((octet & OUTGOING_COST_MASK) >> OUTGOING_COST_SHIFT)
        << OUTGOING_COST_SHIFT == octet) by (bit_vector)
        requires
            octet & RESERVED_COST_BITS == 0,
    ;
    assert(head.push(octet) =~= data);
}

/// Bits of the header octet that hold the number of entries.
pub const NUMBER_OF_ENTRIES_MASK: u8 = 0b0001_1111;

/// Bit of the header octet that marks the first frame of a table.
pub const FIRST_FRAME: u8 = 0b0010_0000;

/// Bit of the header octet that marks the last frame of a table.
pub const LAST_FRAME: u8 = 0b0100_0000;

/// Bit of the header octet that belongs to no field.
pub const RESERVED_HEADER_BITS: u8 = 0b1000_0000;

/// A frame holds fewer entries than this.
pub const ENTRIES_LIMIT: usize = 32;

/// One frame of a link-status table.
#[derive(Clone, Debug, PartialEq)]
pub struct LinkStatus {
    pub first_frame: bool,
    pub last_frame: bool,
    pub entries: Vec<LinkStatusEntry>,
}

/// What a [`LinkStatus`] holds, with its entries as a sequence.
pub struct LinkStatusView {
    pub first_frame: bool,
    pub last_frame: bool,
    pub entries: Seq<LinkStatusEntry>,
}

impl View for LinkStatus {
    type V = LinkStatusView;

    open spec fn view(&self) -> LinkStatusView {
        LinkStatusView {
            first_frame: self.first_frame,
            last_frame: self.last_frame,
            entries: self.entries@,
        }
    }
}

impl LinkStatusView {
    /// The octet that carries the number of entries and the two flags.
    pub open spec fn header(self) -> u8 {
        self.entries.len() as u8 | if self.first_frame {
            FIRST_FRAME
        } else {
            0
        } | if self.last_frame {
            LAST_FRAME
        } else {
            0
        }
    }

    /// Whether the costs of every entry fit their fields.
    pub open spec fn fits_fields(self) -> bool {
        forall|i: int| 0 <= i < self.entries.len() ==> (#[trigger] self.entries[i]).fits_fields()
    }
}

/// The encoded forms of `entries`, one behind the other.
pub open spec fn entries_wire(entries: Seq<LinkStatusEntry>) -> Seq<u8>
    decreases entries.len(),
{
    if entries.len() == 0 {
        Seq::empty()
    } else {
        entries_wire(entries.drop_last()) + entries.last().wire()
    }
}

/// The octets of `data` in which the entry at `position` stands.
pub open spec fn entry_octets(data: Seq<u8>, position: int) -> Seq<u8> {
    data.subrange(
        1 + position * LINK_STATUS_ENTRY_SIZE,
        1 + (position + 1) * LINK_STATUS_ENTRY_SIZE,
    )
}

/// Encoded entries take three octets each, and each entry stands in the
/// octets of its position.
pub proof fn lemma_entries_wire(entries: Seq<LinkStatusEntry>)
    ensures
        entries_wire(entries).len() == entries.len() * LINK_STATUS_ENTRY_SIZE,
        forall|i: int|
            0 <= i < entries.len() ==> entries_wire(entries).subrange(
                i * LINK_STATUS_ENTRY_SIZE,
                (i + 1) * LINK_STATUS_ENTRY_SIZE,
            ) == (#[trigger] entries[i]).wire(),
    decreases entries.len(),
{
    if entries.len() > 0 {
        let front = entries.drop_last();
        let last = entries.last();
        lemma_entries_wire(front);
        last.lemma_wire_size();
        assert forall|i: int| 0 <= i < entries.len() implies entries_wire(entries).subrange(
            i * LINK_STATUS_ENTRY_SIZE,
            (i + 1) * LINK_STATUS_ENTRY_SIZE,
        ) == (#[trigger] entries[i]).wire() by {
            if i < front.len() {
                assert(front[i] == entries[i]);
                assert(entries_wire(entries).subrange(
                    i * LINK_STATUS_ENTRY_SIZE,
                    (i + 1) * LINK_STATUS_ENTRY_SIZE,
                ) =~= entries_wire(front).subrange(
                    i * LINK_STATUS_ENTRY_SIZE,
                    (i + 1) * LINK_STATUS_ENTRY_SIZE,
                ));
            } else {
                assert(entries_wire(entries).subrange(
                    i * LINK_STATUS_ENTRY_SIZE,
                    (i + 1) * LINK_STATUS_ENTRY_SIZE,
                ) =~= last.wire());
            }
        }
    }
}

impl Pack for LinkStatus {
    open spec fn packable(value: LinkStatusView) -> bool {
        &&& value.entries.len() < ENTRIES_LIMIT
        &&& forall|i: int|
            0 <= i < value.entries.len() ==> (#[trigger] value.entries[i]).packable()
    }

    open spec fn wire(value: LinkStatusView) -> Seq<u8> {
        seq![value.header()] + entries_wire(value.entries)
    }

    open spec fn parse(data: Seq<u8>) -> Result<(LinkStatusView, nat), Error> {
        if data.len() == 0 {
            Err(Error::WrongNumberOfBytes)
        } else {
            let count = (data[0] & NUMBER_OF_ENTRIES_MASK) as nat;
            if data.len() < 1 + count * LINK_STATUS_ENTRY_SIZE {
                Err(Error::WrongNumberOfBytes)
            } else {
                Ok(
                    (
                        LinkStatusView {
                            first_frame: data[0] & FIRST_FRAME == FIRST_FRAME,
                            last_frame: data[0] & LAST_FRAME == LAST_FRAME,
                            entries: Seq::new(
                                count,
                                |i: int| LinkStatusEntry::parse(entry_octets(data, i))->Ok_0,
                            ),
                        },
                        (1 + count * LINK_STATUS_ENTRY_SIZE) as nat,
                    ),
                )
            }
        }
    }

    proof fn lemma_parse_within(data: Seq<u8>) {
    }

    proof fn lemma_parse_ignores_rest(data: Seq<u8>, other: Seq<u8>) {
        let used = Self::parse(data)->Ok_0.1 as int;
        let count = (data[0] & NUMBER_OF_ENTRIES_MASK) as nat;
        assert(other[0] == other.take(used)[0]);
        assert(data[0] == data.take(used)[0]);
        assert forall|i: int| 0 <= i < count implies entry_octets(other, i) == entry_octets(
            data,
            i,
        ) by {
            assert(entry_octets(other, i) =~= entry_octets(other.take(used), i));
            assert(entry_octets(data, i) =~= entry_octets(data.take(used), i));
        }
        assert(Self::parse(other)->Ok_0.0.entries =~= Self::parse(data)->Ok_0.0.entries);
    }

    fn pack(&self, data: &mut [u8]) -> (r: Result<usize, Error>) {
        let count = self.entries.len();
        proof {
            lemma_entries_wire(self.entries@);
        }
        if data.len() < 1 + count * LINK_STATUS_ENTRY_SIZE {
            return Err(Error::WrongNumberOfBytes);
        }
        let num_entries = count as u8;
        data[0] = num_entries | if self.first_frame {
            FIRST_FRAME
        } else {
            0
        } | if self.last_frame {
            LAST_FRAME
        } else {
            0
        };
        let mut offset: usize = 1;
        let mut position: usize = 0;
        while position < count
            invariant
                count == self.entries@.len(),
                Self::packable(self@),
                position <= count,
                offset == 1 + position * LINK_STATUS_ENTRY_SIZE,
                data@.len() == old(data)@.len(),
                1 + count * LINK_STATUS_ENTRY_SIZE <= data@.len(),
                data@.take(offset as int) == seq![self@.header()] + entries_wire(
                    self.entries@.take(position as int),
                ),
                data@.skip(offset as int) == old(data)@.skip(offset as int),
            decreases count - position,
        {
            let ghost before = data@;
            let (written, rest) = data.split_at_mut(offset);
            let (slot, untouched) = rest.split_at_mut(LINK_STATUS_ENTRY_SIZE);
            match self.entries[position].pack(slot) {
                Ok(_) => {},
                Err(e) => {
                    return Err(e);
                },
            }
            proof {
                let entry = self.entries@[position as int];
                let taken = self.entries@.take(position as int + 1);
                entry.lemma_wire_size();
                assert(taken.drop_last() =~= self.entries@.take(position as int));
                assert(taken.last() == entry);
                assert(data@ == before.take(offset as int) + (entry.wire() + before.skip(
                    offset as int + LINK_STATUS_ENTRY_SIZE as int,
                )));
                assert(data@.take(offset as int + LINK_STATUS_ENTRY_SIZE as int) =~= before.take(
                    offset as int,
                ) + entry.wire());
                assert(data@.skip(offset as int + LINK_STATUS_ENTRY_SIZE as int) =~= old(
                    data,
                )@.skip(offset as int + LINK_STATUS_ENTRY_SIZE as int));
            }
            offset += LINK_STATUS_ENTRY_SIZE;
            position += 1;
        }
        proof {
            assert(self.entries@.take(count as int) =~= self.entries@);
            assert(data@ =~= data@.take(offset as int) + data@.skip(offset as int));
        }
        Ok(offset)
    }

    fn unpack(data: &[u8]) -> (r: Result<(Self, usize), Error>) {
        if data.is_empty() {
            return Err(Error::WrongNumberOfBytes);
        }
        let num_entries = (data[0] & NUMBER_OF_ENTRIES_MASK) as usize;
        if data.len() < 1 + num_entries * LINK_STATUS_ENTRY_SIZE {
            return Err(Error::WrongNumberOfBytes);
        }
        let first_frame = (data[0] & FIRST_FRAME) == FIRST_FRAME;
        let last_frame = (data[0] & LAST_FRAME) == LAST_FRAME;
        let mut offset: usize = 1;
        let mut entries: Vec<LinkStatusEntry> = Vec::with_capacity(num_entries);
        let mut position: usize = 0;
        while position < num_entries
            invariant
                position <= num_entries,
                offset == 1 + position * LINK_STATUS_ENTRY_SIZE,
                1 + num_entries * LINK_STATUS_ENTRY_SIZE <= data.len(),
                entries@.len() == position,
                forall|i: int|
                    0 <= i < position ==> Ok::<LinkStatusEntry, Error>(#[trigger] entries@[i])
                        == LinkStatusEntry::parse(entry_octets(data@, i)),
            decreases num_entries - position,
        {
            proof {
                lemma_entry_parse_total(entry_octets(data@, position as int));
            }
            let entry = match LinkStatusEntry::unpack(
                &data[offset..offset + LINK_STATUS_ENTRY_SIZE],
            ) {
                Ok(entry) => entry,
                Err(e) => {
                    return Err(e);
                },
            };
            entries.push(entry);
            offset += LINK_STATUS_ENTRY_SIZE;
            position += 1;
        }
        let status = LinkStatus { first_frame, last_frame, entries };
        proof {
            assert(status@.entries =~= Self::parse(data@)->Ok_0.0.entries);
        }
        Ok((status, offset))
    }
}

/// A buffer without a header octet is rejected.
pub proof fn lemma_link_status_needs_header(data: Seq<u8>)
    requires
        data.len() < 1,
    ensures
        LinkStatus::parse(data) == Err::<(LinkStatusView, nat), Error>(Error::WrongNumberOfBytes),
{
}

/// A frame that announces more entries than the buffer holds is rejected.
pub proof fn lemma_link_status_needs_entries(data: Seq<u8>)
    requires
        1 <= data.len() < 1 + (data[0] & NUMBER_OF_ENTRIES_MASK) * LINK_STATUS_ENTRY_SIZE,
    ensures
        LinkStatus::parse(data) == Err::<(LinkStatusView, nat), Error>(Error::WrongNumberOfBytes),
{
}

/// A buffer that holds the header and the announced entries decodes: to as
/// many entries as the low five bits of the header say, in the order of the
/// buffer, with the flags of the header, and the frame ends behind the last
/// entry. What it decodes to can be encoded again.
pub proof fn lemma_link_status_parse(data: Seq<u8>)
    requires
        1 <= data.len(),
        1 + (data[0] & NUMBER_OF_ENTRIES_MASK) * LINK_STATUS_ENTRY_SIZE <= data.len(),
    ensures
        LinkStatus::parse(data) matches Ok(found) && {
            &&& found.0.entries.len() == data[0] & NUMBER_OF_ENTRIES_MASK
            &&& found.0.entries.len() < ENTRIES_LIMIT
            &&& found.0.first_frame == (data[0] & FIRST_FRAME != 0)
            &&& found.0.last_frame == (data[0] & LAST_FRAME != 0)
            &&& found.1 == 1 + found.0.entries.len() * LINK_STATUS_ENTRY_SIZE
            &&& forall|i: int|
                0 <= i < found.0.entries.len() ==> LinkStatusEntry::parse(entry_octets(data, i))
                    == Ok::<LinkStatusEntry, Error>(#[trigger] found.0.entries[i])
            &&& found.0.fits_fields()
            &&& LinkStatus::packable(found.0)
        },
{
    let header = data[0];
    assert({
        &&& header & NUMBER_OF_ENTRIES_MASK < 32
        &&& (header & FIRST_FRAME == FIRST_FRAME) == (header & FIRST_FRAME != 0)
        &&& (header & LAST_FRAME == LAST_FRAME) == (header & LAST_FRAME != 0)
    }) by (bit_vector);
    let found = LinkStatus::parse(data)->Ok_0;
    assert forall|i: int| 0 <= i < found.0.entries.len() implies LinkStatusEntry::parse(
        entry_octets(data, i),
    ) == Ok::<LinkStatusEntry, Error>(#[trigger] found.0.entries[i])
        && found.0.entries[i].fits_fields() && found.0.entries[i].packable() by {
        lemma_entry_parse_total(entry_octets(data, i));
    }
}

/// A frame with fewer than [`ENTRIES_LIMIT`] entries, whose costs fit their
/// fields, is unchanged by encoding it and decoding the result, whatever
/// follows it in the buffer.
pub proof fn lemma_link_status_round_trip(value: LinkStatusView, rest: Seq<u8>)
    requires
        value.entries.len() < ENTRIES_LIMIT,
        value.fits_fields(),
    ensures
        LinkStatus::packable(value),
        LinkStatus::parse(LinkStatus::wire(value) + rest) == Ok::<(LinkStatusView, nat), Error>(
            (value, LinkStatus::wire(value).len()),
        ),
{
    let data = LinkStatus::wire(value) + rest;
    let count = value.entries.len() as u8;
    let first: u8 = if value.first_frame {
        FIRST_FRAME
    } else {
        0
    };
    let last: u8 = if value.last_frame {
        LAST_FRAME
    } else {
        0
    };
    let header = value.header();
    assert({
        &&& header & NUMBER_OF_ENTRIES_MASK == count
        &&& (header & FIRST_FRAME == FIRST_FRAME) == (first != 0)
        &&& (header & LAST_FRAME == LAST_FRAME) == (last != 0)
    }) by (bit_vector)
        requires
            count < 32,
            first == 0 || first == FIRST_FRAME,
            last == 0 || last == LAST_FRAME,
            header == count | first | last,
    ;
    lemma_entries_wire(value.entries);
    assert(data[0] == header);
    assert forall|i: int| 0 <= i < value.entries.len() implies LinkStatusEntry::parse(
        entry_octets(data, i),
    ) == Ok::<LinkStatusEntry, Error>(#[trigger] value.entries[i]) by {
        assert(entry_octets(data, i) =~= entries_wire(value.entries).subrange(
            i * LINK_STATUS_ENTRY_SIZE,
            (i + 1) * LINK_STATUS_ENTRY_SIZE,
        ));
        lemma_entry_round_trip(value.entries[i]);
    }
    let found = LinkStatus::parse(data)->Ok_0;
    assert(found.0.entries =~= value.entries);
}

/// A decoded frame whose reserved bits are clear, the highest bit of the
/// header and the two of every cost octet, encodes to the octets that it
/// was decoded from.
pub proof fn lemma_link_status_octets_reproduced(data: Seq<u8>)
    requires
        LinkStatus::parse(data) is Ok,
        data[0] & RESERVED_HEADER_BITS == 0,
        forall|i: int|
            0 <= i < (data[0] & NUMBER_OF_ENTRIES_MASK) ==> (#[trigger] entry_octets(data, i))[2]
                & RESERVED_COST_BITS == 0,
    ensures
        LinkStatus::wire(LinkStatus::parse(data)->Ok_0.0) == data.take(
            LinkStatus::parse(data)->Ok_0.1 as int,
        ),
{
    lemma_link_status_parse(data);
    let found = LinkStatus::parse(data)->Ok_0;
    let entries = found.0.entries;
    let header = data[0];
    let count = header & NUMBER_OF_ENTRIES_MASK;
    let first: u8 = if found.0.first_frame {
        FIRST_FRAME
    } else {
        0
    };
    let last: u8 = if found.0.last_frame {
        LAST_FRAME
    } else {
        0
    };
    assert(count | first | last == header) by (bit_vector)
        requires
            header & RESERVED_HEADER_BITS == 0,
            count == header & NUMBER_OF_ENTRIES_MASK,
            first == if header & FIRST_FRAME != 0 {
                FIRST_FRAME
            } else {
                0
            },
            last == if header & LAST_FRAME != 0 {
                LAST_FRAME
            } else {
                0
            },
    ;
    assert(found.0.header() == header);
    lemma_entries_wire(entries);
    let encoded = LinkStatus::wire(found.0);
    let taken = data.take(found.1 as int);
    assert(encoded.len() == taken.len());
    assert forall|k: int| 0 <= k < encoded.len() implies encoded[k] == taken[k] by {
        if k > 0 {
            let i = (k - 1) / 3;
            let within = (k - 1) % 3;
            lemma_entry_octets_reproduced(entry_octets(data, i));
            assert(entries[i].wire() == entry_octets(data, i));
            assert(entries_wire(entries).subrange(
                i * LINK_STATUS_ENTRY_SIZE,
                (i + 1) * LINK_STATUS_ENTRY_SIZE,
            )[within] == entry_octets(data, i)[within]);
        }
    }
    assert(encoded =~= taken);
}

} // verus!
