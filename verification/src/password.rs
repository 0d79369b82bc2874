//! Credential hasher: derives a verifiable record from a plaintext password
//! with a memory-hard key-derivation function, and checks a plaintext
//! against a stored record.
//!
//! Records are self-describing: algorithm, cost parameters and a fresh
//! per-record random salt travel inside the encoded string, so two hashes
//! of equal passwords differ while both verify. Comparison of derived
//! hashes is constant-time inside the underlying implementation. Plaintext
//! is never stored and never part of any error.

use vstd::prelude::*;

use crate::error::CredentialError;

verus! {

/// Whether a stored credential record parses as a usable password hash.
/// A pure function of the record.
pub uninterp spec fn phc_record_ok(record: Seq<char>) -> bool;

/// Whether the memory-hard derivation over `password`, with the salt and
/// cost parameters embedded in `record`, reproduces the hash embedded in
/// `record`. A pure function of its arguments.
pub uninterp spec fn phc_verify_ok(password: Seq<u8>, record: Seq<char>) -> bool;

/// Whether a salt string is accepted by the derivation: it parses as a
/// B64-encoded salt whose decoded length lies in the range the derivation
/// takes. A pure function of the string.
pub uninterp spec fn valid_salt(salt: Seq<char>) -> bool;

enum RecordCheck {
    Match,
    Mismatch,
    BadRecord,
}

/// Relies on password-hash's `SaltString::generate`: a fresh random salt
/// of 16 bytes (128 bits of entropy), B64-encoded. The bytes are random,
/// but every outcome is 22 B64 characters decoding back to those 16
/// bytes, a length the derivation accepts, so `valid_salt` holds of
/// whatever comes back.
#[verifier::external_body]
fn generate_salt() -> (r: String)
    ensures
        valid_salt(r@),
{
    argon2::password_hash::SaltString::generate(&mut rand::rngs::OsRng).as_str().to_string()
}

/// Relies on argon2's `PasswordHash::generate` with `Argon2::default()`:
/// on success the returned PHC record embeds the algorithm identifier, its
/// cost parameters, the given salt and the derived hash; it parses back as
/// a password hash and verifies against the same password, since
/// verification re-derives the hash from exactly those embedded fields.
/// The derivation refuses only an unparsable or out-of-range salt or a
/// password longer than 0xFFFFFFFF bytes, so for a valid salt and an
/// in-range password it returns a record.
#[verifier::external_body]
fn argon2_generate(password: &[u8], salt: &str) -> (r: Option<String>)
    ensures
        r is Some ==> phc_record_ok(r.unwrap()@),
        r is Some ==> phc_verify_ok(password@, r.unwrap()@),
        valid_salt(salt@) && password@.len() <= 0xFFFFFFFF ==> r is Some,
{
    let salt = match argon2::password_hash::SaltString::from_b64(salt) {
        Ok(s) => s,
        Err(_) => {
            return None;
        },
    };
    match argon2::password_hash::PasswordHash::generate(argon2::Argon2::default(), password, &salt)
    {
        Ok(hash) => Some(hash.to_string()),
        Err(_) => None,
    }
}

/// Relies on password-hash's `PasswordHash::new` and `verify_password`
/// with `Argon2::default()`: `new` accepts exactly the parseable PHC
/// records, and after a successful parse every verification failure is
/// reported uniformly as a password mismatch. The comparison of the
/// derived hash against the stored one is constant-time.
#[verifier::external_body]
fn argon2_check(password: &[u8], record: &str) -> (r: RecordCheck)
    ensures
        (r is BadRecord) <==> !phc_record_ok(record@),
        phc_record_ok(record@) ==> ((r is Match) <==> phc_verify_ok(password@, record@)),
        phc_record_ok(record@) ==> ((r is Mismatch) <==> !phc_verify_ok(password@, record@)),
{
    match argon2::password_hash::PasswordHash::new(record) {
        Ok(hash) => match hash.verify_password(&[&argon2::Argon2::default()], password) {
            Ok(()) => RecordCheck::Match,
            Err(_) => RecordCheck::Mismatch,
        },
        Err(_) => RecordCheck::BadRecord,
    }
}

/// What checking a password against a record yields: a corrupt record is
/// an internal matter, a mismatch is bad credentials, a match succeeds.
pub open spec fn verify_password_outcome(password: Seq<u8>, record: Seq<char>) -> Result<
    (),
    CredentialError,
> {
    if !phc_record_ok(record) {
        Err(CredentialError::InvalidRecord)
    } else if phc_verify_ok(password, record) {
        Ok(())
    } else {
        Err(CredentialError::BadCredentials)
    }
}

/// Derives a credential record for `password` under a fresh random salt.
/// Success is owed for every password the derivation can take at all,
/// and a produced record verifies against the password it was produced
/// from.
pub fn hash_password(password: &[u8]) -> (r: Result<String, CredentialError>)
    ensures
        password@.len() <= 0xFFFFFFFF ==> r is Ok,
        r is Ok ==> phc_record_ok(r.unwrap()@),
        r is Ok ==> phc_verify_ok(password@, r.unwrap()@),
        r is Err ==> r == Err::<String, CredentialError>(CredentialError::HashingFailed),
{
    let salt = generate_salt();
    match argon2_generate(password, salt.as_str()) {
        Some(record) => Ok(record),
        None => Err(CredentialError::HashingFailed),
    }
}

/// Checks `password` against a stored credential record.
pub fn verify_password(password: &[u8], record: &str) -> (r: Result<(), CredentialError>)
    ensures
        r == verify_password_outcome(password@, record@),
{
    match argon2_check(password, record) {
        RecordCheck::BadRecord => Err(CredentialError::InvalidRecord),
        RecordCheck::Match => Ok(()),
        RecordCheck::Mismatch => Err(CredentialError::BadCredentials),
    }
}

/// Round-trip law: a record produced for a password — one that parses and
/// whose embedded derivation matches, as `hash_password` ensures of its
/// results — passes `verify_password` for that password.
pub proof fn lemma_password_round_trip(password: Seq<u8>, record: Seq<char>)
    requires
        phc_record_ok(record),
        phc_verify_ok(password, record),
    ensures
        verify_password_outcome(password, record) == Ok::<(), CredentialError>(()),
{
}

} // verus!
