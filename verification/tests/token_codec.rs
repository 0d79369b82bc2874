use authcore::error::AuthError;
use authcore::ident::UserId;
use authcore::token::{issue, verify};
use authcore::SESSION_LIFETIME_SECONDS;

const KEY: &[u8] = b"a shared secret of arbitrary length";

#[test]
fn round_trip_before_expiry() {
    let user = UserId {
        value: 0x0123456789abcdef0123456789abcdef,
    };
    let now: i64 = 1_700_000_000;
    let token = issue(user, now, KEY);
    let got = verify(&token, now + 60, KEY);
    assert_eq!(got, Ok(user));
}

#[test]
fn round_trip_last_valid_second() {
    let user = UserId { value: 42 };
    let now: i64 = 1_700_000_000;
    let token = issue(user, now, KEY);
    // Strictly before expiry: still accepted.
    assert_eq!(verify(&token, now + SESSION_LIFETIME_SECONDS - 1, KEY), Ok(user));
    // Exactly at expiry: refused.
    assert_eq!(
        verify(&token, now + SESSION_LIFETIME_SECONDS, KEY),
        Err(AuthError::Expired)
    );
}

#[test]
fn token_is_ascii_and_dot_separated() {
    let user = UserId { value: u128::MAX };
    let token = issue(user, 0, KEY);
    assert!(token.is_ascii());
    let parts: Vec<&str> = token.split('.').collect();
    assert_eq!(parts.len(), 4);
    assert_eq!(parts[1], "ffffffffffffffffffffffffffffffff");
    assert_eq!(parts[2], SESSION_LIFETIME_SECONDS.to_string());
    // HMAC-SHA-384: 48 bytes, 96 hex digits.
    assert_eq!(parts[3].len(), 96);
}

#[test]
fn bit_flip_in_claims_is_invalid_signature() {
    let user = UserId { value: 7 };
    let now: i64 = 1_700_000_000;
    let token = issue(user, now, KEY);
    let mut bytes = token.into_bytes();
    // Inside the identity part of the claims.
    bytes[10] ^= 1;
    let altered = String::from_utf8(bytes).unwrap();
    assert_eq!(verify(&altered, now, KEY), Err(AuthError::InvalidSignature));
}

#[test]
fn bit_flip_in_header_is_invalid_signature() {
    let user = UserId { value: 7 };
    let now: i64 = 1_700_000_000;
    let token = issue(user, now, KEY);
    let mut bytes = token.into_bytes();
    // First byte of the constant token-type header.
    bytes[0] ^= 1;
    let altered = String::from_utf8(bytes).unwrap();
    assert_eq!(verify(&altered, now, KEY), Err(AuthError::InvalidSignature));
}

#[test]
fn expired_token_with_valid_signature() {
    let user = UserId { value: 99 };
    let now: i64 = 1_700_000_000;
    // Issued so that the expiry lies one second in the past.
    let token = issue(user, now - SESSION_LIFETIME_SECONDS - 1, KEY);
    assert_eq!(verify(&token, now, KEY), Err(AuthError::Expired));
}

#[test]
fn wrong_key_is_invalid_signature() {
    let user = UserId { value: 5 };
    let now: i64 = 1_700_000_000;
    let token = issue(user, now, KEY);
    assert_eq!(
        verify(&token, now, b"another secret"),
        Err(AuthError::InvalidSignature)
    );
}

#[test]
fn garbage_tokens_are_malformed_or_invalid() {
    let now: i64 = 1_700_000_000;
    // No dot at all: nothing to split.
    assert_eq!(verify("nodotshere", now, KEY), Err(AuthError::Malformed));
    // Well-shaped signature over a garbage payload never matches.
    assert_eq!(verify("sv1.oops.123.abcd", now, KEY), Err(AuthError::InvalidSignature));
    // Non-ASCII input is refused outright.
    assert_eq!(verify("sv1.\u{00e9}.1.ff", now, KEY), Err(AuthError::Malformed));
}

#[test]
fn altered_identity_casing_is_invalid_signature() {
    let user = UserId { value: 0xabcdef };
    let now: i64 = 0;
    let token = issue(user, now, KEY);
    // Uppercasing the hex identity changes the payload; the kept
    // signature no longer matches, and the signature check comes first.
    let altered = token.replace("00000000000000000000000000abcdef", "00000000000000000000000000ABCDEF");
    assert_ne!(altered, token);
    assert_eq!(verify(&altered, now, KEY), Err(AuthError::InvalidSignature));
}

#[test]
fn user_id_canonical_round_trip() {
    let user = UserId {
        value: 0xdeadbeef00112233445566778899aabb,
    };
    let v = user.canonical_vec();
    assert_eq!(v.len(), 32);
    let s = String::from_utf8(v.clone()).unwrap();
    assert_eq!(s, "deadbeef00112233445566778899aabb");
    let back = UserId::parse_canonical(&v).unwrap();
    assert_eq!(back, user);
}

#[test]
fn user_id_parse_rejects_non_canonical() {
    assert!(UserId::parse_canonical(b"deadbeef").is_none());
    assert!(UserId::parse_canonical(b"DEADBEEF00112233445566778899AABB").is_none());
    assert!(UserId::parse_canonical(b"deadbeef00112233445566778899aab!").is_none());
}
