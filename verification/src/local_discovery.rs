//! Discovery of peers on the local network.

pub mod mdns_common;
pub mod poor_man;
