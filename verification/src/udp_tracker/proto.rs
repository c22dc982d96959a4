//! Request and response types of the UDP tracker protocol.

use vstd::prelude::*;

use crate::types::Event;
pub use crate::udp_tracker::extensions::Extension;

verus! {

/// The opening handshake: a client asks for a connection id.
#[derive(Debug, Eq, PartialEq)]
pub struct ConnectRequest {
    pub transaction_id: i32,
}

/// The handshake answer: the connection id to use from now on.
#[derive(Debug, Eq, PartialEq)]
pub struct ConnectResponse {
    pub transaction_id: i32,
    pub connection_id: i64,
}

/// One announce: the peer's state of one torrent, plus any protocol
/// extensions that trail the fixed fields.
#[derive(Debug, Eq, PartialEq)]
pub struct AnnounceRequest {
    pub connection_id: i64,
    pub transaction_id: i32,
    pub info_hash: String,
    pub peer_id: String,
    pub downloaded: i64,
    pub left: i64,
    pub uploaded: i64,
    pub event: Option<Event>,
    pub ip_address: Option<i32>,
    pub key: i32,
    pub num_want: Option<i32>,
    pub port: i16,
    pub extensions: Vec<Extension>,
}

/// The announce answer: interval, counters, and the packed peer list.
#[derive(Debug, Eq, PartialEq)]
pub struct AnnounceResponse {
    pub transaction_id: i32,
    pub interval: i32,
    pub leechers: i32,
    pub seeders: i32,
    pub peers: Vec<(i32, i16)>,
}

/// One scrape: the info-hashes asked about, twenty bytes each.
#[derive(Debug, Eq, PartialEq)]
pub struct ScrapeRequest {
    pub connection_id: i64,
    pub transaction_id: i32,
    pub info_hashes: Vec<String>,
}

/// The counters reported per scraped info-hash.
#[derive(Debug, Eq, PartialEq)]
pub struct InfoHashScrapeData {
    pub seeders: i32,
    pub completed: i32,
    pub leechers: i32,
}

/// The scrape answer, one counter block per asked hash.
#[derive(Debug, Eq, PartialEq)]
pub struct ScrapeResponse {
    pub transaction_id: i32,
    pub data: Vec<InfoHashScrapeData>,
}

/// An error report to one request.
#[derive(Debug, Eq, PartialEq)]
pub struct ErrorResponse {
    pub transaction_id: i32,
    pub message: String,
}

/// Any request a client can send.
#[derive(Debug, PartialEq, Eq)]
pub enum Request {
    Connect(ConnectRequest),
    Announce(AnnounceRequest),
    Scrape(ScrapeRequest),
}

/// Any response the tracker can send.
#[derive(Debug, PartialEq, Eq)]
pub enum Response {
    Connect(ConnectResponse),
    Announce(AnnounceResponse),
    Scrape(ScrapeResponse),
    Error(ErrorResponse),
}

/// What request parsing reports: only that the datagram fit no request.
#[derive(Debug, PartialEq, Eq)]
pub enum Error {
    Other(()),
}

} // verus!
