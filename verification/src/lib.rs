//! Control logic of a five-channel relay board with an HTTP interface.

pub mod answers;
pub mod api;
pub mod board;
pub mod bytes;
pub mod network;
pub mod properties;
pub mod relay;
pub mod tasks;
