//! The UDP tracker protocol: fixed big-endian binary requests and
//! responses, with the protocol-extension trailer of announce packets.

pub mod bits;
pub mod extensions;
pub mod proto;
