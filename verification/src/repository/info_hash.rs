//! Commands of the info-hash repository.

use vstd::prelude::*;

use crate::types::{InfoHash, InfoHashStatus};

verus! {

/// Asks for the summary of one info-hash.
#[derive(Debug, Clone)]
pub struct GetInfoHashSummary<'a> {
    pub info_hash: &'a InfoHash,
}

/// Sets the moderation status of one info-hash.
#[derive(Debug, Clone)]
pub struct UpdateInfoHash<'a> {
    pub info_hash: &'a InfoHash,
    pub status: InfoHashStatus,
}

} // verus!
