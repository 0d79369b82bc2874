//! Error taxonomy of the credential core.
//!
//! `AuthError` records why a session token was refused; it is kept for
//! operator diagnostics and never surfaced to a caller. `Error` is the
//! caller-facing taxonomy: refusals of identity or credentials are uniformly
//! `Unauthorized`, storage constraint violations become field-addressable
//! validation errors, and everything else is internal.

use vstd::prelude::*;

verus! {

/// Why a session token failed verification. Diagnostic only: the
/// identity extractor collapses every variant to `Error::Unauthorized`.
#[derive(PartialEq, Eq, Structural, Debug, Clone, Copy)]
pub enum AuthError {
    /// The signature does not match the payload under the current secret.
    InvalidSignature,
    /// The token or its payload is not well-formed.
    Malformed,
    /// Signature and payload are fine, but the expiry is not in the future.
    Expired,
}

/// Why a credential operation failed.
#[derive(PartialEq, Eq, Structural, Debug, Clone, Copy)]
pub enum CredentialError {
    /// The password does not match the stored record. Deliberately
    /// indistinguishable, to a caller, from "account does not exist".
    BadCredentials,
    /// The stored credential record is not a usable hash: data corruption,
    /// reported as internal, never as a caller error.
    InvalidRecord,
    /// The hashing subsystem failed to produce a record.
    HashingFailed,
}

/// A storage-engine error as this core consumes it: whether the engine
/// reported a constraint violation, and its diagnostic message.
#[derive(Debug, Clone, PartialEq, Eq)]
pub struct StorageError {
    pub constraint_violation: bool,
    pub message: String,
}

/// Caller-facing errors.
#[derive(Debug, Clone, PartialEq, Eq)]
pub enum Error {
    /// Authentication required, or it failed; externally uniform.
    Unauthorized,
    /// Identity established but the action is not allowed.
    Forbidden,
    /// The addressed resource does not exist.
    NotFound,
    /// Structured validation errors: field name to accumulated messages.
    UnprocessableEntity { errors: Vec<(String, Vec<String>)> },
    /// A storage failure passed through unchanged for generic handling.
    Storage(StorageError),
    /// Any other internal failure.
    Internal,
}

/// View of an accumulated error list: field name to messages, both as
/// character sequences.
pub open spec fn entries_view(v: Seq<(String, Vec<String>)>) -> Seq<(Seq<char>, Seq<Seq<char>>)> {
    v.map(|i: int, p: (String, Vec<String>)| (p.0@, p.1.deep_view()))
}

/// Index of the first entry holding `key`, or -1.
pub open spec fn find_key(m: Seq<(Seq<char>, Seq<Seq<char>>)>, key: Seq<char>) -> int
    decreases m.len(),
{
    if m.len() == 0 {
        -1
    } else if m[0].0 == key {
        0
    } else {
        let r = find_key(m.skip(1), key);
        if r < 0 {
            -1
        } else {
            r + 1
        }
    }
}

/// The accumulated form of a list of `(field, message)` pairs: one entry per
/// field, in order of first appearance, each holding its messages in input
/// order.
pub open spec fn accumulate(pairs: Seq<(Seq<char>, Seq<char>)>) -> Seq<(Seq<char>, Seq<Seq<char>>)>
    decreases pairs.len(),
{
    if pairs.len() == 0 {
        Seq::empty()
    } else {
        let prev = accumulate(pairs.drop_last());
        let last = pairs.last();
        let j = find_key(prev, last.0);
        if j < 0 {
            prev + seq![(last.0, seq![last.1])]
        } else {
            prev.update(j, (prev[j].0, prev[j].1.push(last.1)))
        }
    }
}

proof fn lemma_find_key_range(m: Seq<(Seq<char>, Seq<Seq<char>>)>, key: Seq<char>)
    ensures
        -1 <= find_key(m, key) < m.len(),
        find_key(m, key) >= 0 ==> m[find_key(m, key)].0 == key,
    decreases m.len(),
{
    if m.len() > 0 && m[0].0 != key {
        lemma_find_key_range(m.skip(1), key);
    }
}

fn find_entry(entries: &Vec<(String, Vec<String>)>, key: &String) -> (r: Option<usize>)
    ensures
        r is Some <==> find_key(entries_view(entries@), key@) >= 0,
        r is Some ==> r.unwrap() as int == find_key(entries_view(entries@), key@),
        r is Some ==> r.unwrap() < entries.len(),
{
    let ghost m = entries_view(entries@);
    let mut i: usize = 0;
    while i < entries.len()
        invariant
            0 <= i <= entries.len(),
            m == entries_view(entries@),
            m.len() == entries.len(),
            forall|k: int| 0 <= k < i ==> #[trigger] m[k].0 != key@,
        decreases entries.len() - i,
    {
        if entries[i].0 == *key {
            proof {
                lemma_find_key_skip(m, key@, i as int);
            }
            return Some(i);
        }
        i += 1;
    }
    proof {
        lemma_find_key_none(m, key@);
    }
    None
}

/// If the first `i` entries miss the key and entry `i` holds it, the first
/// hit is at `i`.
proof fn lemma_find_key_skip(m: Seq<(Seq<char>, Seq<Seq<char>>)>, key: Seq<char>, i: int)
    requires
        0 <= i < m.len(),
        m[i].0 == key,
        forall|k: int| 0 <= k < i ==> #[trigger] m[k].0 != key,
    ensures
        find_key(m, key) == i,
    decreases m.len(),
{
    if i > 0 {
        lemma_find_key_skip(m.skip(1), key, i - 1);
    }
}

proof fn lemma_find_key_none(m: Seq<(Seq<char>, Seq<Seq<char>>)>, key: Seq<char>)
    requires
        forall|k: int| 0 <= k < m.len() ==> #[trigger] m[k].0 != key,
    ensures
        find_key(m, key) < 0,
    decreases m.len(),
{
    if m.len() > 0 {
        lemma_find_key_none(m.skip(1), key);
    }
}

impl Error {
    /// Builds the structured validation error for a list of
    /// `(field, message)` pairs, accumulating messages per field.
    pub fn unprocessable_entity(pairs: Vec<(String, String)>) -> (r: Error)
        ensures
            r matches Error::UnprocessableEntity { errors } && entries_view(errors@)
                == accumulate(pairs@.map(|i: int, p: (String, String)| (p.0@, p.1@))),
    {
        let ghost pv = pairs@.map(|i: int, p: (String, String)| (p.0@, p.1@));
        let mut errors: Vec<(String, Vec<String>)> = Vec::new();
        let mut i: usize = 0;
        proof {
            assert(pv.take(0) =~= Seq::<(Seq<char>, Seq<char>)>::empty());
            assert(entries_view(errors@) =~~= accumulate(pv.take(0)));
        }
        while i < pairs.len()
            invariant
                0 <= i <= pairs.len(),
                pv == pairs@.map(|i: int, p: (String, String)| (p.0@, p.1@)),
                pv.len() == pairs.len(),
                entries_view(errors@) == accumulate(pv.take(i as int)),
            decreases pairs.len() - i,
        {
            let (key, msg) = (pairs[i].0.clone(), pairs[i].1.clone());
            let ghost pre = entries_view(errors@);
            let ghost e0 = errors@;
            proof {
                assert(pv.take(i + 1).drop_last() =~= pv.take(i as int));
                assert(pv.take(i + 1).last() == pv[i as int]);
                assert(pv[i as int] == (pairs@[i as int].0@, pairs@[i as int].1@));
            }
            match find_entry(&errors, &key) {
                Some(j) => {
                    let mut entry = errors.remove(j);
                    entry.1.push(msg);
                    errors.insert(j, entry);
                    proof {
                        let jj = j as int;
                        assert(errors@[jj].0@ == e0[jj].0@);
                        assert(errors@[jj].1@ == e0[jj].1@.push(msg));
                        e0.remove_ensures(jj);
                        e0.remove(jj).insert_ensures(jj, errors@[jj]);
                        assert(forall|k: int|
                            0 <= k < e0.len() && k != jj ==> errors@[k] == #[trigger] e0[k]);
                        assert(errors@[jj].1.deep_view() =~~= pre[jj].1.push(msg@));
                        assert(entries_view(errors@) =~~= pre.update(
                            jj,
                            (pre[jj].0, pre[jj].1.push(msg@)),
                        ));
                        assert(entries_view(errors@) =~~= accumulate(pv.take(i + 1)));
                    }
                },
                None => {
                    let mut msgs: Vec<String> = Vec::new();
                    msgs.push(msg);
                    errors.push((key, msgs));
                    proof {
                        assert(errors@.last().1.deep_view() =~~= seq![msg@]);
                        assert(entries_view(errors@) =~~= pre + seq![(key@, seq![msg@])]);
                        assert(entries_view(errors@) =~~= accumulate(pv.take(i + 1)));
                    }
                },
            }
            i += 1;
        }
        proof {
            assert(pv.take(pairs@.len() as int) =~= pv);
        }
        Error::UnprocessableEntity { errors }
    }

    /// The HTTP status code each variant maps to at the boundary.
    pub fn status_code(&self) -> (r: u16)
        ensures
            r == match self {
                Error::Unauthorized => 401u16,
                Error::Forbidden => 403u16,
                Error::NotFound => 404u16,
                Error::UnprocessableEntity { .. } => 422u16,
                Error::Storage(_) => 500u16,
                Error::Internal => 500u16,
            },
    {
        match self {
            Error::Unauthorized => 401,
            Error::Forbidden => 403,
            Error::NotFound => 404,
            Error::UnprocessableEntity { .. } => 422,
            Error::Storage(_) => 500,
            Error::Internal => 500,
        }
    }

    /// How a credential failure surfaces to a caller: a mismatch is
    /// `Unauthorized` (uniform with "no such account"), the rest internal.
    pub fn from_credential(e: CredentialError) -> (r: Error)
        ensures
            r == match e {
                CredentialError::BadCredentials => Error::Unauthorized,
                CredentialError::InvalidRecord => Error::Internal,
                CredentialError::HashingFailed => Error::Internal,
            },
    {
        match e {
            CredentialError::BadCredentials => Error::Unauthorized,
            CredentialError::InvalidRecord => Error::Internal,
            CredentialError::HashingFailed => Error::Internal,
        }
    }
}

} // verus!
