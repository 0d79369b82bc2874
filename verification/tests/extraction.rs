use authcore::error::Error;
use authcore::extractor::{AuthUser, MaybeAuthUser};
use authcore::ident::UserId;
use authcore::token::issue;
use authcore::SESSION_LIFETIME_SECONDS;

const KEY: &[u8] = b"extractor secret";

fn bearer(token: &str) -> String {
    format!("Token {}", token)
}

#[test]
fn required_accepts_valid_token() {
    let user = UserId { value: 77 };
    let now: i64 = 1_700_000_000;
    let header = bearer(&issue(user, now, KEY));
    let got = AuthUser::from_authorization(Some(&header), now, KEY).unwrap();
    assert_eq!(got.user_id, user);
}

#[test]
fn required_rejects_missing_header() {
    assert!(matches!(
        AuthUser::from_authorization(None, 0, KEY),
        Err(Error::Unauthorized)
    ));
}

#[test]
fn required_rejects_wrong_scheme() {
    let user = UserId { value: 77 };
    let now: i64 = 1_700_000_000;
    let header = format!("Bearer {}", issue(user, now, KEY));
    assert!(matches!(
        AuthUser::from_authorization(Some(&header), now, KEY),
        Err(Error::Unauthorized)
    ));
}

#[test]
fn required_rejects_expired_token_uniformly() {
    let user = UserId { value: 8 };
    let now: i64 = 1_700_000_000;
    // Issued so that the simulated clock has moved past its expiry.
    let header = bearer(&issue(user, now - SESSION_LIFETIME_SECONDS - 1, KEY));
    assert!(matches!(
        AuthUser::from_authorization(Some(&header), now, KEY),
        Err(Error::Unauthorized)
    ));
}

#[test]
fn optional_without_header_is_anonymous() {
    let got = MaybeAuthUser::from_authorization(None, 0, KEY).unwrap();
    assert_eq!(got.user_id(), None);
}

#[test]
fn optional_with_corrupted_token_is_refused_not_anonymous() {
    let user = UserId { value: 8 };
    let now: i64 = 1_700_000_000;
    let mut token = issue(user, now, KEY).into_bytes();
    token[6] ^= 1;
    let header = bearer(&String::from_utf8(token).unwrap());
    assert!(matches!(
        MaybeAuthUser::from_authorization(Some(&header), now, KEY),
        Err(Error::Unauthorized)
    ));
}

#[test]
fn optional_with_valid_token_yields_identity() {
    let user = UserId { value: 123456789 };
    let now: i64 = 1_700_000_000;
    let header = bearer(&issue(user, now, KEY));
    let got = MaybeAuthUser::from_authorization(Some(&header), now, KEY).unwrap();
    assert_eq!(got.user_id(), Some(user));
}
