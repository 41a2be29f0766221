//! Frames of the network layer.
pub mod commands;
