//! Bringing up the network.

pub mod w5500;
