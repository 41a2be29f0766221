//! The status code that opens every response of the device profile.
use crate::enumeration::{lookup, ExtendedEnum};
use crate::error::Error;
use vstd::prelude::*;

verus! {

/// How a request to the device profile ended.
#[derive(Clone, Copy, Debug, PartialEq, Eq, Structural)]
pub enum Status {
    Success,
    InvalidRequestType,
    DeviceNotFound,
    InvalidEndpoint,
    NotActive,
    NotSupported,
    Timeout,
    NoMatch,
    NoEntry,
    NoDescriptor,
    InsufficientSpace,
    NotPermitted,
    TableFull,
    NotAuthorized,
    DeviceBindingTableFull,
    InvalidIndex,
}

/// The declared values of [`Status`]. The codes of failures start at 0x80
/// and leave 0x87 out.
pub const STATUS_VALUES: [(u8, Status); 16] = [
    (0x00, Status::Success),
    (0x80, Status::InvalidRequestType),
    (0x81, Status::DeviceNotFound),
    (0x82, Status::InvalidEndpoint),
    (0x83, Status::NotActive),
    (0x84, Status::NotSupported),
    (0x85, Status::Timeout),
    (0x86, Status::NoMatch),
    (0x88, Status::NoEntry),
    (0x89, Status::NoDescriptor),
    (0x8a, Status::InsufficientSpace),
    (0x8b, Status::NotPermitted),
    (0x8c, Status::TableFull),
    (0x8d, Status::NotAuthorized),
    (0x8e, Status::DeviceBindingTableFull),
    (0x8f, Status::InvalidIndex),
];

impl ExtendedEnum for Status {
    open spec fn spec_value(self) -> u8 {
        match self {
            Status::Success => 0x00,
            Status::InvalidRequestType => 0x80,
            Status::DeviceNotFound => 0x81,
            Status::InvalidEndpoint => 0x82,
            Status::NotActive => 0x83,
            Status::NotSupported => 0x84,
            Status::Timeout => 0x85,
            Status::NoMatch => 0x86,
            Status::NoEntry => 0x88,
            Status::NoDescriptor => 0x89,
            Status::InsufficientSpace => 0x8a,
            Status::NotPermitted => 0x8b,
            Status::TableFull => 0x8c,
            Status::NotAuthorized => 0x8d,
            Status::DeviceBindingTableFull => 0x8e,
            Status::InvalidIndex => 0x8f,
        }
    }

    open spec fn spec_from_value(raw: u8) -> Option<Self> {
        match raw {
            0x00 => Some(Status::Success),
            0x80 => Some(Status::InvalidRequestType),
            0x81 => Some(Status::DeviceNotFound),
            0x82 => Some(Status::InvalidEndpoint),
            0x83 => Some(Status::NotActive),
            0x84 => Some(Status::NotSupported),
            0x85 => Some(Status::Timeout),
            0x86 => Some(Status::NoMatch),
            0x88 => Some(Status::NoEntry),
            0x89 => Some(Status::NoDescriptor),
            0x8a => Some(Status::InsufficientSpace),
            0x8b => Some(Status::NotPermitted),
            0x8c => Some(Status::TableFull),
            0x8d => Some(Status::NotAuthorized),
            0x8e => Some(Status::DeviceBindingTableFull),
            0x8f => Some(Status::InvalidIndex),
            _ => None,
        }
    }

    open spec fn declared() -> Seq<(u8, Self)> {
        STATUS_VALUES@
    }

    proof fn lemma_declared() {
    }

    proof fn lemma_value_is_declared(self) {
    }

    proof fn lemma_declared_value(raw: u8) {
    }

    fn value(self) -> (raw: u8) {
        match self {
            Status::Success => 0x00,
            Status::InvalidRequestType => 0x80,
            Status::DeviceNotFound => 0x81,
            Status::InvalidEndpoint => 0x82,
            Status::NotActive => 0x83,
            Status::NotSupported => 0x84,
            Status::Timeout => 0x85,
            Status::NoMatch => 0x86,
            Status::NoEntry => 0x88,
            Status::NoDescriptor => 0x89,
            Status::InsufficientSpace => 0x8a,
            Status::NotPermitted => 0x8b,
            Status::TableFull => 0x8c,
            Status::NotAuthorized => 0x8d,
            Status::DeviceBindingTableFull => 0x8e,
            Status::InvalidIndex => 0x8f,
        }
    }

    fn from_value(raw: u8) -> (r: Result<Self, Error>) {
        let table = STATUS_VALUES;
        lookup(&table, raw)
    }
}

} // verus!
