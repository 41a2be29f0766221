//! Commands of the network layer.
pub mod link_status;
