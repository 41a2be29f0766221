//! Wire-format codecs of a low-power mesh network stack: neighbour-table
//! reports of the device profile and link-status commands of the network
//! layer, with the codec contracts and the enumeration decoder they are
//! built from.
//!
//! Every codec is a stateless transformation between a caller-owned buffer
//! and a caller-owned value. Decoding trusts nothing about its input and
//! answers malformed octets with an [`Error`]; encoding states what it needs
//! of the value as a precondition.
pub mod common;
pub mod device_profile;
pub mod enumeration;
pub mod error;
pub mod network;
pub mod pack;

pub use common::address::{ExtendedAddress, NetworkAddress};
pub use error::Error;
