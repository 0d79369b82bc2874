//! Process configuration consumed by this core: the storage location and
//! the shared secret for session-token signing. Both are read once at
//! startup and immutable afterwards.

use vstd::prelude::*;

verus! {

/// Configuration of the process: where the store lives, and the one
/// shared secret this core needs for MAC signing and verification.
#[derive(Debug, Clone)]
pub struct Config {
    pub database_url: String,
    pub hmac_key: String,
}

} // verus!
