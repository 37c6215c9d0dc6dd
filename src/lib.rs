//! Fragmentation and reassembly of fixed-size audio sample blocks carried
//! over UDP datagrams with a four-byte header.

pub mod protocol;
pub mod server;
pub mod client;
pub mod reassembly;
