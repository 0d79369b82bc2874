//! Identity extractor: establishes caller identity from one inbound
//! request's authorization header value, in a required and an optional
//! variant.
//!
//! Both variants expect `Token <token>`. The required variant collapses a
//! missing header, a wrong scheme and every token-verification failure
//! into a single `Unauthorized`, so the boundary leaks nothing about why
//! a caller was refused. The optional variant treats a missing header as
//! "no identity", but still refuses a present-but-invalid token: a bad
//! token is an error, never silently anonymous.

use vstd::prelude::*;

use crate::error::Error;
use crate::ident::UserId;
use crate::token::{all_ascii, ascii_str, char_bytes, lemma_ascii_round, verify_outcome, verify_token_bytes};
use vstd::string::StrSliceExecFns;

verus! {

/// An authenticated caller.
#[derive(PartialEq, Eq, Structural, Debug, Clone, Copy)]
pub struct AuthUser {
    pub user_id: UserId,
}

/// A caller that is either authenticated or anonymous.
#[derive(PartialEq, Eq, Structural, Debug, Clone, Copy)]
pub struct MaybeAuthUser(pub Option<AuthUser>);

/// The scheme prefix expected in the header value: `Token `.
pub open spec fn scheme_prefix_bytes() -> Seq<u8> {
    seq![0x54u8, 0x6fu8, 0x6bu8, 0x65u8, 0x6eu8, 0x20u8]
}

pub open spec fn header_view(h: Option<&str>) -> Option<Seq<char>> {
    match h {
        Some(s) => Some(s@),
        None => None,
    }
}

/// The required variant's decision on a header value: absence, a non-ASCII
/// value, a wrong scheme prefix, and every token failure are all the same
/// `Unauthorized`.
pub open spec fn required_outcome(header: Option<Seq<char>>, now: i64, key: Seq<u8>) -> Result<
    UserId,
    Error,
> {
    match header {
        None => Err(Error::Unauthorized),
        Some(h) => if !vstd::utf8::is_ascii_chars(h) {
            Err(Error::Unauthorized)
        } else {
            let hb = char_bytes(h);
            if hb.len() < 6 || hb.subrange(0, 6) != scheme_prefix_bytes() {
                Err(Error::Unauthorized)
            } else {
                match verify_outcome(hb.skip(6), now, key) {
                    Ok(u) => Ok(u),
                    Err(_) => Err(Error::Unauthorized),
                }
            }
        },
    }
}

/// The optional variant's decision: no header is no identity, not an
/// error; a present header is judged exactly as the required variant.
pub open spec fn optional_outcome(header: Option<Seq<char>>, now: i64, key: Seq<u8>) -> Result<
    Option<UserId>,
    Error,
> {
    match header {
        None => Ok(None),
        Some(h) => match required_outcome(Some(h), now, key) {
            Ok(u) => Ok(Some(u)),
            Err(e) => Err(e),
        },
    }
}

fn check_scheme_and_verify(h: &str, now: i64, key: &[u8]) -> (r: Result<UserId, Error>)
    ensures
        r == required_outcome(Some(h@), now, key@),
{
    if !h.is_ascii() {
        return Err(Error::Unauthorized);
    }
    let hb = h.as_bytes_vec();
    proof {
        vstd::string::is_ascii_spec_bytes(h);
        assert(hb@ =~= char_bytes(h@));
    }
    let n = hb.len();
    if n < 6 {
        return Err(Error::Unauthorized);
    }
    if !(hb[0] == 0x54 && hb[1] == 0x6f && hb[2] == 0x6b && hb[3] == 0x65 && hb[4] == 0x6e
        && hb[5] == 0x20) {
        proof {
            if hb@.subrange(0, 6) == scheme_prefix_bytes() {
                assert(hb@.subrange(0, 6)[0] == hb@[0]);
                assert(hb@.subrange(0, 6)[1] == hb@[1]);
                assert(hb@.subrange(0, 6)[2] == hb@[2]);
                assert(hb@.subrange(0, 6)[3] == hb@[3]);
                assert(hb@.subrange(0, 6)[4] == hb@[4]);
                assert(hb@.subrange(0, 6)[5] == hb@[5]);
            }
        }
        return Err(Error::Unauthorized);
    }
    assert(hb@.subrange(0, 6) =~= scheme_prefix_bytes());
    let token = vstd::slice::slice_subrange(hb.as_slice(), 6, n);
    assert(token@ =~= hb@.skip(6));
    match verify_token_bytes(token, now, key) {
        Ok(u) => Ok(u),
        Err(_) => Err(Error::Unauthorized),
    }
}

impl AuthUser {
    /// Required variant: produce the caller identity from the
    /// authorization header value, or refuse with a uniform
    /// `Unauthorized`.
    pub fn from_authorization(header: Option<&str>, now: i64, key: &[u8]) -> (r: Result<
        AuthUser,
        Error,
    >)
        ensures
            r is Ok <==> required_outcome(header_view(header), now, key@) is Ok,
            r is Ok ==> Ok::<UserId, Error>(r.unwrap().user_id) == required_outcome(
                header_view(header),
                now,
                key@,
            ),
            r is Err ==> r == Err::<AuthUser, Error>(Error::Unauthorized),
    {
        match header {
            None => Err(Error::Unauthorized),
            Some(h) => match check_scheme_and_verify(h, now, key) {
                Ok(u) => Ok(AuthUser { user_id: u }),
                Err(_) => Err(Error::Unauthorized),
            },
        }
    }
}

impl MaybeAuthUser {
    /// Optional variant: no header yields an anonymous caller; a present
    /// header must carry a valid token or the request is refused.
    pub fn from_authorization(header: Option<&str>, now: i64, key: &[u8]) -> (r: Result<
        MaybeAuthUser,
        Error,
    >)
        ensures
            header is None ==> r == Ok::<MaybeAuthUser, Error>(MaybeAuthUser(None)),
            r is Ok <==> optional_outcome(header_view(header), now, key@) is Ok,
            r is Ok ==> Ok::<Option<UserId>, Error>(
                match r.unwrap().0 {
                    Some(a) => Some(a.user_id),
                    None => None,
                },
            ) == optional_outcome(header_view(header), now, key@),
            r is Err ==> r == Err::<MaybeAuthUser, Error>(Error::Unauthorized),
    {
        match header {
            None => Ok(MaybeAuthUser(None)),
            Some(h) => match check_scheme_and_verify(h, now, key) {
                Ok(u) => Ok(MaybeAuthUser(Some(AuthUser { user_id: u }))),
                Err(_) => Err(Error::Unauthorized),
            },
        }
    }

    /// The identity, if one was established.
    pub fn user_id(&self) -> (r: Option<UserId>)
        ensures
            r == match self.0 {
                Some(a) => Some(a.user_id),
                None => None,
            },
    {
        match &self.0 {
            Some(a) => Some(a.user_id),
            None => None,
        }
    }
}

/// The header value that carries a given token: `Token ` then the token.
pub open spec fn bearer_header(token: Seq<u8>) -> Seq<char> {
    ascii_str(scheme_prefix_bytes() + token)
}

/// End-to-end expiry law: a well-formed header carrying a correctly
/// signed token whose expiry is not in the future is refused by the
/// required variant with `Unauthorized` — never accepted, and with no
/// more specific error exposed.
pub proof fn lemma_required_rejects_expired(key: Seq<u8>, u: u128, exp: i64, now: i64)
    requires
        exp <= now,
    ensures
        required_outcome(
            Some(bearer_header(crate::token::token_bytes(key, u, exp as int))),
            now,
            key,
        ) == Err::<UserId, Error>(Error::Unauthorized),
{
    let t = crate::token::token_bytes(key, u, exp as int);
    let full = scheme_prefix_bytes() + t;
    crate::token::lemma_token_ascii(key, u, exp as int);
    assert(all_ascii(full)) by {
        assert(forall|i: int| 0 <= i < 6 ==> full[i] == #[trigger] scheme_prefix_bytes()[i]);
        assert(forall|i: int| 6 <= i < full.len() ==> #[trigger] full[i] == t[i - 6]);
    }
    lemma_ascii_round(full);
    let h = bearer_header(t);
    assert(char_bytes(h) == full);
    assert(full.subrange(0, 6) =~= scheme_prefix_bytes());
    assert(full.skip(6) =~= t);
    crate::token::lemma_verify_of_issued(key, u, exp, now);
}

} // verus!
