use psila_data::device_profile::link_quality::{
    DeviceType, PermitJoining, Relationship, RxOnWhenIdle,
};
use psila_data::device_profile::Status;
use psila_data::enumeration::{lookup, ExtendedEnum};
use psila_data::Error;

#[test]
fn lookup_matches_exactly() {
    let table = [(0x10u8, 'a'), (0x02, 'b'), (0xff, 'c'), (0x00, 'd')];
    assert_eq!(lookup(&table[..], 0x10), Ok('a'));
    assert_eq!(lookup(&table[..], 0x02), Ok('b'));
    assert_eq!(lookup(&table[..], 0xff), Ok('c'));
    assert_eq!(lookup(&table[..], 0x00), Ok('d'));
    assert_eq!(lookup(&table[..], 0x01), Err(Error::OutOfRange(0x01)));
    assert_eq!(lookup(&table[..], 0x11), Err(Error::OutOfRange(0x11)));
}

#[test]
fn lookup_does_not_depend_on_the_order() {
    let table = [(0x10u8, 'a'), (0x02, 'b'), (0xff, 'c'), (0x00, 'd')];
    let reversed = [(0x00u8, 'd'), (0xff, 'c'), (0x02, 'b'), (0x10, 'a')];
    for key in 0..=255u8 {
        assert_eq!(lookup(&table[..], key), lookup(&reversed[..], key));
    }
}

#[test]
fn lookup_in_an_empty_table() {
    let table: [(u8, u8); 0] = [];
    assert_eq!(lookup(&table[..], 0), Err(Error::OutOfRange(0)));
}

#[test]
fn lookup_takes_the_first_of_repeated_keys() {
    let table = [(1u8, 'x'), (1, 'y')];
    assert_eq!(lookup(&table[..], 1), Ok('x'));
}

#[test]
fn device_type_values() {
    assert_eq!(DeviceType::from_value(0), Ok(DeviceType::Coordinator));
    assert_eq!(DeviceType::from_value(1), Ok(DeviceType::Router));
    assert_eq!(DeviceType::from_value(2), Ok(DeviceType::EndDevice));
    assert_eq!(DeviceType::from_value(3), Ok(DeviceType::Unknown));
    for raw in 4..=255u8 {
        assert_eq!(DeviceType::from_value(raw), Err(Error::OutOfRange(raw)));
    }
    assert_eq!(DeviceType::EndDevice.value(), 2);
    assert_eq!(DeviceType::Unknown.value(), 3);
}

#[test]
fn rx_on_when_idle_values() {
    assert_eq!(RxOnWhenIdle::from_value(0), Ok(RxOnWhenIdle::Off));
    assert_eq!(RxOnWhenIdle::from_value(1), Ok(RxOnWhenIdle::On));
    assert_eq!(RxOnWhenIdle::from_value(2), Ok(RxOnWhenIdle::Unknown));
    for raw in 3..=255u8 {
        assert_eq!(RxOnWhenIdle::from_value(raw), Err(Error::OutOfRange(raw)));
    }
    assert_eq!(RxOnWhenIdle::Unknown.value(), 2);
}

#[test]
fn relationship_values() {
    assert_eq!(Relationship::from_value(0), Ok(Relationship::Parent));
    assert_eq!(Relationship::from_value(1), Ok(Relationship::Child));
    assert_eq!(Relationship::from_value(2), Ok(Relationship::Sibling));
    assert_eq!(Relationship::from_value(3), Ok(Relationship::NoneOfAbove));
    assert_eq!(Relationship::from_value(4), Ok(Relationship::PreviousChild));
    for raw in 5..=255u8 {
        assert_eq!(Relationship::from_value(raw), Err(Error::OutOfRange(raw)));
    }
    assert_eq!(Relationship::PreviousChild.value(), 4);
}

#[test]
fn permit_joining_values() {
    assert_eq!(PermitJoining::from_value(0), Ok(PermitJoining::Yes));
    assert_eq!(PermitJoining::from_value(1), Ok(PermitJoining::No));
    assert_eq!(PermitJoining::from_value(2), Ok(PermitJoining::Unknown));
    for raw in 3..=255u8 {
        assert_eq!(PermitJoining::from_value(raw), Err(Error::OutOfRange(raw)));
    }
    assert_eq!(PermitJoining::No.value(), 1);
}

#[test]
fn status_values() {
    assert_eq!(Status::from_value(0x00), Ok(Status::Success));
    assert_eq!(Status::from_value(0x80), Ok(Status::InvalidRequestType));
    assert_eq!(Status::from_value(0x84), Ok(Status::NotSupported));
    assert_eq!(Status::from_value(0x86), Ok(Status::NoMatch));
    assert_eq!(Status::from_value(0x88), Ok(Status::NoEntry));
    assert_eq!(Status::from_value(0x8f), Ok(Status::InvalidIndex));
    // The values are not contiguous.
    assert_eq!(Status::from_value(0x01), Err(Error::OutOfRange(0x01)));
    assert_eq!(Status::from_value(0x7f), Err(Error::OutOfRange(0x7f)));
    assert_eq!(Status::from_value(0x87), Err(Error::OutOfRange(0x87)));
    assert_eq!(Status::from_value(0x90), Err(Error::OutOfRange(0x90)));
    assert_eq!(Status::from_value(0xff), Err(Error::OutOfRange(0xff)));
}

#[test]
fn every_declared_value_decodes_to_its_variant() {
    let mut declared = 0;
    for raw in 0..=255u8 {
        match Status::from_value(raw) {
            Ok(status) => {
                assert_eq!(status.value(), raw);
                declared += 1;
            }
            Err(e) => assert_eq!(e, Error::OutOfRange(raw)),
        }
        if let Ok(device_type) = DeviceType::from_value(raw) {
            assert_eq!(device_type.value(), raw);
        }
        if let Ok(rx_idle) = RxOnWhenIdle::from_value(raw) {
            assert_eq!(rx_idle.value(), raw);
        }
        if let Ok(relationship) = Relationship::from_value(raw) {
            assert_eq!(relationship.value(), raw);
        }
        if let Ok(permit_joining) = PermitJoining::from_value(raw) {
            assert_eq!(permit_joining.value(), raw);
        }
    }
    assert_eq!(declared, 16);
}
