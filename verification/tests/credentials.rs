use authcore::error::CredentialError;
use authcore::password::{hash_password, verify_password};

#[test]
fn hash_then_verify_succeeds() {
    let record = hash_password(b"correct horse battery staple").unwrap();
    assert!(record.starts_with("$argon2"));
    assert_eq!(verify_password(b"correct horse battery staple", &record), Ok(()));
}

#[test]
fn wrong_password_is_bad_credentials() {
    let record = hash_password(b"hunter2").unwrap();
    assert_eq!(
        verify_password(b"hunter3", &record),
        Err(CredentialError::BadCredentials)
    );
}

#[test]
fn distinct_salts_distinct_records_both_verify() {
    let first = hash_password(b"same password").unwrap();
    let second = hash_password(b"same password").unwrap();
    assert_ne!(first, second);
    assert_eq!(verify_password(b"same password", &first), Ok(()));
    assert_eq!(verify_password(b"same password", &second), Ok(()));
}

#[test]
fn malformed_record_is_internal_matter() {
    assert_eq!(
        verify_password(b"anything", "not a credential record"),
        Err(CredentialError::InvalidRecord)
    );
    assert_eq!(verify_password(b"anything", ""), Err(CredentialError::InvalidRecord));
}
