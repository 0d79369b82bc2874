//! Caller identity and credential management for a content-sharing API.
//!
//! Three mechanisms: issuing and verifying stateless signed session tokens,
//! hashing and checking passwords with a memory-hard derivation, and
//! translating storage-engine constraint violations into structured,
//! field-addressable validation errors.

use vstd::prelude::*;

pub mod config;
pub mod constraint;
pub mod error;
pub mod extractor;
pub mod ident;
pub mod password;
pub mod slug;
pub mod token;
pub mod types;

verus! {

/// Number of seconds a freshly issued session token stays valid.
pub const SESSION_LIFETIME_SECONDS: i64 = 1209600;

} // verus!

