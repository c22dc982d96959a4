//! Commands of the peer repository.

use vstd::prelude::*;

use crate::types::InfoHash;

verus! {

/// Asks for the per-info-hash counters of the given hashes.
#[derive(Debug, Clone)]
pub struct GetPeerStatistics<'a> {
    pub info_hashes: &'a [InfoHash],
}

} // verus!
