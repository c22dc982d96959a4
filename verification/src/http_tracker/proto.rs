//! Request and response types of the HTTP tracker protocol.

use std::collections::HashMap;

use vstd::prelude::*;

use crate::types::{Event, InfoHash, PeerId, PeerStatistics};

verus! {

/// What the HTTP tracker reports when an announce or scrape cannot be
/// served.
#[derive(Debug, PartialEq, Eq)]
pub enum Error {
    ServerError(String),
    InfoHashNotAllowed(String),
    Other(String),
}

impl Error {
    /// The failure reason, as the response body names it.
    pub fn reason(&self) -> (r: &String)
        ensures
            match self {
                Error::ServerError(s) => r@ == s@,
                Error::InfoHashNotAllowed(s) => r@ == s@,
                Error::Other(s) => r@ == s@,
            },
    {
        match self {
            Error::ServerError(s) => s,
            Error::InfoHashNotAllowed(s) => s,
            Error::Other(s) => s,
        }
    }
}

/// One announce, as the query string carries it.
#[derive(Debug)]
pub struct AnnounceRequest {
    pub info_hash: InfoHash,
    pub peer_id: PeerId,
    pub port: u16,
    pub uploaded: u64,
    pub downloaded: u64,
    pub left: u64,
    pub event: Event,
    pub compact: Option<u8>,
}

/// One scrape: the info-hashes asked about.
#[derive(Debug)]
pub struct ScrapeRequest {
    pub info_hash: Vec<InfoHash>,
}

/// The counters reported per scraped info-hash.
#[derive(Debug, Clone, PartialEq, Eq)]
pub struct PeerScrapeData {
    pub complete: u32,
    pub downloaded: u32,
    pub incomplete: u32,
}

/// The scrape response: counters per asked info-hash.
#[derive(Debug)]
pub struct ScrapeResponse {
    pub files: HashMap<InfoHash, PeerStatistics>,
}

} // verus!
