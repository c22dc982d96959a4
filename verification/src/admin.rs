//! The administrative interface: moderation commands on info-hashes, and
//! the one policy decision they hinge on.

use vstd::prelude::*;

use crate::types::InfoHashStatus;

verus! {

/// Why an administrative command was refused.
#[derive(Debug, PartialEq, Eq)]
pub enum Error {
    NotAllowed,
}

/// A request to mark one info-hash, named by its hex digest, with a status.
#[derive(Debug, Clone, PartialEq, Eq)]
pub struct KnownInfoHashRequest {
    pub hex_info_hash: String,
    pub action: InfoHashStatus,
}

/// Whether the administrative interface may act at all: only when the
/// configuration enables it.
pub fn admin_enabled(enable_admin_api: bool) -> (r: Result<(), Error>)
    ensures
        r is Ok <==> enable_admin_api,
        r is Err ==> r == Err::<(), Error>(Error::NotAllowed),
{
    if enable_admin_api {
        Ok(())
    } else {
        Err(Error::NotAllowed)
    }
}

} // verus!
