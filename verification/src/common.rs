//! What the layers of the stack share.
pub mod address;
