//! Messages of the device profile.
pub mod link_quality;
pub mod status;

pub use status::Status;
