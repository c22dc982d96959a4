//! Bencoding: the byte-oriented serialization format of the BitTorrent
//! ecosystem, with a validating parser, a canonical encoder, and the
//! byte-level codecs of the surrounding tracker protocols.

pub mod admin;
pub mod bencode;
pub mod bytebuf;
pub mod http_tracker;
pub mod repository;
pub mod types;
pub mod udp_tracker;

pub use bencode::{parse, encode};
