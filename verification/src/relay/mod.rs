//! The relay engine: wire constants, FEC coding and relay headers.
pub mod wire;
pub mod fec;
pub mod crypto;
pub mod fec_codec;
pub mod forwarder;
pub mod tunnel;
