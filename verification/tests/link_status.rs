use psila_data::network::commands::link_status::{LinkStatus, LinkStatusEntry};
use psila_data::pack::{Pack, PackFixed};
use psila_data::{Error, NetworkAddress};

fn entry(address: u16, incoming_cost: u8, outgoing_cost: u8) -> LinkStatusEntry {
    LinkStatusEntry { address: NetworkAddress(address), incoming_cost, outgoing_cost }
}

#[test]
fn entry_encodes_address_and_costs() {
    let mut data = [0u8; 3];
    assert_eq!(entry(0x1234, 3, 5).pack(&mut data[..]), Ok(()));
    assert_eq!(data, [0x34, 0x12, 0x53]);
    assert_eq!(entry(0xfffc, 7, 0).pack(&mut data[..]), Ok(()));
    assert_eq!(data, [0xfc, 0xff, 0x07]);
    assert_eq!(entry(0x0000, 0, 7).pack(&mut data[..]), Ok(()));
    assert_eq!(data, [0x00, 0x00, 0x70]);
}

#[test]
fn entry_decodes_address_and_costs() {
    assert_eq!(LinkStatusEntry::unpack(&[0x34, 0x12, 0x53]), Ok(entry(0x1234, 3, 5)));
    assert_eq!(LinkStatusEntry::unpack(&[0x7b, 0xc0, 0x71]), Ok(entry(0xc07b, 1, 7)));
}

#[test]
fn entry_reserved_bits_are_ignored() {
    assert_eq!(LinkStatusEntry::unpack(&[0x00, 0x00, 0x88]), Ok(entry(0, 0, 0)));
    assert_eq!(LinkStatusEntry::unpack(&[0x00, 0x00, 0xff]), Ok(entry(0, 7, 7)));
}

#[test]
fn entry_needs_exactly_three_octets() {
    let data = [0x34, 0x12, 0x53, 0x00];
    for length in [0, 1, 2, 4] {
        assert_eq!(LinkStatusEntry::unpack(&data[..length]), Err(Error::WrongNumberOfBytes));
        let mut buffer = vec![0xeeu8; length];
        assert_eq!(entry(0x1234, 3, 5).pack(&mut buffer[..]), Err(Error::WrongNumberOfBytes));
        assert_eq!(buffer, vec![0xeeu8; length]);
    }
}

#[test]
fn entry_round_trip_for_costs_that_fit() {
    for address in [0x0000, 0x0001, 0x1234, 0xc07b, 0xffff] {
        for incoming_cost in 0..=7 {
            for outgoing_cost in 0..=7 {
                let sent = entry(address, incoming_cost, outgoing_cost);
                let mut data = [0u8; 3];
                assert_eq!(sent.pack(&mut data[..]), Ok(()));
                assert_eq!(LinkStatusEntry::unpack(&data[..]), Ok(sent));
            }
        }
    }
}

#[test]
fn entry_octets_are_reproduced() {
    for low in [0x00u8, 0x85, 0xff] {
        for high in [0x00u8, 0xae, 0xff] {
            for costs in 0..=255u8 {
                if costs & 0b1000_1000 != 0 {
                    continue;
                }
                let data = [low, high, costs];
                let decoded = LinkStatusEntry::unpack(&data[..]).unwrap();
                let mut encoded = [0u8; 3];
                assert_eq!(decoded.pack(&mut encoded[..]), Ok(()));
                assert_eq!(encoded, data);
            }
        }
    }
}

#[test]
fn entry_octets_with_reserved_bits_are_not_reproduced() {
    let decoded = LinkStatusEntry::unpack(&[0x00, 0x00, 0x08]).unwrap();
    let mut encoded = [0xffu8; 3];
    assert_eq!(decoded.pack(&mut encoded[..]), Ok(()));
    assert_eq!(encoded, [0x00, 0x00, 0x00]);
}

#[test]
fn entry_costs_above_their_fields_are_accepted_and_spill() {
    // The encoder refuses costs from 16 on, not from 8 on: a cost of 8 to 15
    // sets the reserved bit over its field and comes back as another cost.
    let mut data = [0u8; 3];
    assert_eq!(entry(0x1234, 9, 2).pack(&mut data[..]), Ok(()));
    assert_eq!(data, [0x34, 0x12, 0x29]);
    assert_eq!(LinkStatusEntry::unpack(&data[..]), Ok(entry(0x1234, 1, 2)));
    assert_eq!(entry(0x1234, 2, 15).pack(&mut data[..]), Ok(()));
    assert_eq!(data, [0x34, 0x12, 0xf2]);
    assert_eq!(LinkStatusEntry::unpack(&data[..]), Ok(entry(0x1234, 2, 7)));
}

#[test]
fn frame_header_with_both_flags() {
    let data = [0b0110_0010, 0x34, 0x12, 0x53, 0x7b, 0xc0, 0x71, 0xaa, 0xbb];
    let (status, used) = LinkStatus::unpack(&data[..]).unwrap();
    assert_eq!(used, 7);
    assert!(status.first_frame);
    assert!(status.last_frame);
    assert_eq!(status.entries.len(), 2);
    assert_eq!(status.entries, vec![entry(0x1234, 3, 5), entry(0xc07b, 1, 7)]);
    // The same frame in a buffer that ends with it.
    let (exact, used) = LinkStatus::unpack(&data[..7]).unwrap();
    assert_eq!(used, 7);
    assert_eq!(exact, status);
}

#[test]
fn frame_flags() {
    let (status, used) = LinkStatus::unpack(&[0b0000_0000]).unwrap();
    assert_eq!(used, 1);
    assert_eq!(status, LinkStatus { first_frame: false, last_frame: false, entries: vec![] });
    let (status, _) = LinkStatus::unpack(&[0b0010_0000]).unwrap();
    assert_eq!(status, LinkStatus { first_frame: true, last_frame: false, entries: vec![] });
    let (status, _) = LinkStatus::unpack(&[0b0100_0000]).unwrap();
    assert_eq!(status, LinkStatus { first_frame: false, last_frame: true, entries: vec![] });
    // The highest bit is reserved.
    let (status, _) = LinkStatus::unpack(&[0b1000_0000]).unwrap();
    assert_eq!(status, LinkStatus { first_frame: false, last_frame: false, entries: vec![] });
}

#[test]
fn frame_without_header_is_rejected() {
    assert_eq!(LinkStatus::unpack(&[]), Err(Error::WrongNumberOfBytes));
}

#[test]
fn frame_shorter_than_its_entries_is_rejected() {
    let data = [0b0110_0010, 0x34, 0x12, 0x53, 0x7b, 0xc0, 0x71];
    for length in 1..7 {
        assert_eq!(LinkStatus::unpack(&data[..length]), Err(Error::WrongNumberOfBytes));
    }
    let mut full = [0u8; 93];
    full[0] = 0b0001_1111;
    assert_eq!(LinkStatus::unpack(&full[..]), Err(Error::WrongNumberOfBytes));
}

#[test]
fn frame_with_the_highest_count() {
    let mut data = [0u8; 94];
    data[0] = 0b1111_1111;
    for position in 0..31 {
        data[1 + 3 * position] = position as u8;
        data[3 + 3 * position] = 0x12;
    }
    let (status, used) = LinkStatus::unpack(&data[..]).unwrap();
    assert_eq!(used, 94);
    assert!(status.first_frame);
    assert!(status.last_frame);
    assert_eq!(status.entries.len(), 31);
    for position in 0..31 {
        assert_eq!(status.entries[position], entry(position as u16, 2, 1));
    }
}

#[test]
fn frame_encodes_header_and_entries() {
    let status = LinkStatus {
        first_frame: true,
        last_frame: true,
        entries: vec![entry(0x1234, 3, 5), entry(0xc07b, 1, 7)],
    };
    let mut data = [0xaau8; 9];
    assert_eq!(status.pack(&mut data[..]), Ok(7));
    assert_eq!(data, [0b0110_0010, 0x34, 0x12, 0x53, 0x7b, 0xc0, 0x71, 0xaa, 0xaa]);
    let middle = LinkStatus { first_frame: false, last_frame: false, entries: vec![entry(1, 1, 1)] };
    assert_eq!(middle.pack(&mut data[..]), Ok(4));
    assert_eq!(data, [0b0000_0001, 0x01, 0x00, 0x11, 0x7b, 0xc0, 0x71, 0xaa, 0xaa]);
    let first = LinkStatus { first_frame: true, last_frame: false, entries: vec![] };
    assert_eq!(first.pack(&mut data[..]), Ok(1));
    assert_eq!(data[0], 0b0010_0000);
    let last = LinkStatus { first_frame: false, last_frame: true, entries: vec![] };
    assert_eq!(last.pack(&mut data[..]), Ok(1));
    assert_eq!(data[0], 0b0100_0000);
}

#[test]
fn frame_does_not_fit_a_short_buffer() {
    let status = LinkStatus {
        first_frame: true,
        last_frame: false,
        entries: vec![entry(0x1234, 3, 5), entry(0xc07b, 1, 7)],
    };
    for length in 0..7 {
        let mut data = vec![0x77u8; length];
        assert_eq!(status.pack(&mut data[..]), Err(Error::WrongNumberOfBytes));
        assert_eq!(data, vec![0x77u8; length]);
    }
    let mut data = [0u8; 7];
    assert_eq!(status.pack(&mut data[..]), Ok(7));
}

#[test]
fn frame_round_trip() {
    for count in [0usize, 1, 2, 30, 31] {
        for (first_frame, last_frame) in [(false, false), (true, false), (false, true), (true, true)] {
            let entries: Vec<LinkStatusEntry> = (0..count)
                .map(|position| entry(0x1000 + position as u16, (position % 8) as u8, 7 - (position % 8) as u8))
                .collect();
            let status = LinkStatus { first_frame, last_frame, entries };
            let mut data = vec![0u8; 1 + 3 * count + 2];
            assert_eq!(status.pack(&mut data[..]), Ok(1 + 3 * count));
            assert_eq!(LinkStatus::unpack(&data[..]), Ok((status, 1 + 3 * count)));
        }
    }
}
