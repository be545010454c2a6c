//! The tasks that serve the network.

pub mod api;
pub mod headers;
pub mod reply;
pub mod worker;
