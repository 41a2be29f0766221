use psila_data::common::address::{read_little_endian, write_little_endian};
use psila_data::pack::PackFixed;
use psila_data::{Error, ExtendedAddress, NetworkAddress};

#[test]
fn network_address_is_little_endian() {
    let mut data = [0u8; 2];
    assert_eq!(NetworkAddress(0xc07b).pack(&mut data[..]), Ok(()));
    assert_eq!(data, [0x7b, 0xc0]);
    assert_eq!(NetworkAddress::unpack(&[0x85, 0xae]), Ok(NetworkAddress(0xae85)));
}

#[test]
fn network_address_round_trip() {
    for value in [0x0000u16, 0x0001, 0x00ff, 0x0100, 0x1234, 0xfffe, 0xffff] {
        let mut data = [0u8; 2];
        assert_eq!(NetworkAddress(value).pack(&mut data[..]), Ok(()));
        assert_eq!(NetworkAddress::unpack(&data[..]), Ok(NetworkAddress(value)));
    }
}

#[test]
fn network_address_needs_exactly_two_octets() {
    for length in [0usize, 1, 3, 8] {
        let mut data = vec![0x5au8; length];
        assert_eq!(NetworkAddress::unpack(&data[..]), Err(Error::WrongNumberOfBytes));
        assert_eq!(NetworkAddress(7).pack(&mut data[..]), Err(Error::WrongNumberOfBytes));
        assert_eq!(data, vec![0x5au8; length]);
    }
}

#[test]
fn extended_address_is_little_endian() {
    let mut data = [0u8; 8];
    assert_eq!(ExtendedAddress(0x000d_6fff_fe21_ae85).pack(&mut data[..]), Ok(()));
    assert_eq!(data, [0x85, 0xae, 0x21, 0xfe, 0xff, 0x6f, 0x0d, 0x00]);
    assert_eq!(
        ExtendedAddress::unpack(&[0x38, 0x2e, 0x03, 0xff, 0xff, 0x2e, 0x21, 0x00]),
        Ok(ExtendedAddress(0x0021_2eff_ff03_2e38))
    );
}

#[test]
fn extended_address_round_trip() {
    for value in [0u64, 1, 0xff, 0x0123_4567_89ab_cdef, 0x8000_0000_0000_0000, u64::MAX] {
        let mut data = [0u8; 8];
        assert_eq!(ExtendedAddress(value).pack(&mut data[..]), Ok(()));
        assert_eq!(ExtendedAddress::unpack(&data[..]), Ok(ExtendedAddress(value)));
    }
}

#[test]
fn extended_address_needs_exactly_eight_octets() {
    for length in [0usize, 2, 7, 9] {
        let mut data = vec![0xa5u8; length];
        assert_eq!(ExtendedAddress::unpack(&data[..]), Err(Error::WrongNumberOfBytes));
        assert_eq!(ExtendedAddress(7).pack(&mut data[..]), Err(Error::WrongNumberOfBytes));
        assert_eq!(data, vec![0xa5u8; length]);
    }
}

#[test]
fn little_endian_integers() {
    assert_eq!(read_little_endian(&[]), 0);
    assert_eq!(read_little_endian(&[0x12]), 0x12);
    assert_eq!(read_little_endian(&[0x56, 0x34, 0x12]), 0x12_3456);
    assert_eq!(read_little_endian(&[0xff; 8]), u64::MAX);
    let mut three = [0xeeu8; 3];
    write_little_endian(0x12_3456, &mut three[..]);
    assert_eq!(three, [0x56, 0x34, 0x12]);
    // Only the lowest octets are written where the buffer is short.
    let mut one = [0xeeu8; 1];
    write_little_endian(0x12_3456, &mut one[..]);
    assert_eq!(one, [0x56]);
    let mut nine = [0xeeu8; 9];
    write_little_endian(u64::MAX, &mut nine[..]);
    assert_eq!(nine, [0xff, 0xff, 0xff, 0xff, 0xff, 0xff, 0xff, 0xff, 0x00]);
}
