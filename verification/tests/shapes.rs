use authcore::error::{CredentialError, Error, StorageError};
use authcore::slug::slugify;
use authcore::types::DbBool;

#[test]
fn slugify_basic() {
    assert_eq!(slugify("Hello, World!"), "hello-world");
    assert_eq!(slugify("Don't Panic"), "dont-panic");
    assert_eq!(slugify(""), "");
}

#[test]
fn slugify_breaks_on_digits_and_keeps_order() {
    // Digits are not alphabetic, so they separate words.
    assert_eq!(slugify("abc123def"), "abc-def");
    assert_eq!(slugify("  Leading and trailing  "), "leading-and-trailing");
}

#[test]
fn slugify_quote_only_word_leaves_empty_segment() {
    // A word of quotes alone still counts as a word before its quotes
    // are dropped, so the separators around it remain.
    assert_eq!(slugify("a '' b"), "a--b");
}

#[test]
fn slugify_keeps_non_ascii_letters() {
    assert_eq!(slugify("Caf\u{00e9} Crème"), "caf\u{00e9}-crème");
}

#[test]
fn unprocessable_entity_accumulates_messages_per_field() {
    let e = Error::unprocessable_entity(vec![
        ("a".to_string(), "one".to_string()),
        ("b".to_string(), "two".to_string()),
        ("a".to_string(), "three".to_string()),
    ]);
    match e {
        Error::UnprocessableEntity { errors } => {
            assert_eq!(
                errors,
                vec![
                    ("a".to_string(), vec!["one".to_string(), "three".to_string()]),
                    ("b".to_string(), vec!["two".to_string()]),
                ]
            );
        }
        other => panic!("expected a validation error, got {:?}", other),
    }
}

#[test]
fn status_codes() {
    assert_eq!(Error::Unauthorized.status_code(), 401);
    assert_eq!(Error::Forbidden.status_code(), 403);
    assert_eq!(Error::NotFound.status_code(), 404);
    assert_eq!(
        Error::unprocessable_entity(vec![("f".to_string(), "m".to_string())]).status_code(),
        422
    );
    assert_eq!(Error::Internal.status_code(), 500);
    let storage = Error::Storage(StorageError {
        constraint_violation: false,
        message: "io error".to_string(),
    });
    assert_eq!(storage.status_code(), 500);
}

#[test]
fn credential_failures_surface_uniformly() {
    assert_eq!(
        Error::from_credential(CredentialError::BadCredentials),
        Error::Unauthorized
    );
    assert_eq!(Error::from_credential(CredentialError::InvalidRecord), Error::Internal);
    assert_eq!(Error::from_credential(CredentialError::HashingFailed), Error::Internal);
}

#[test]
fn db_bool_decodes_like_the_store() {
    assert!(DbBool::from_db_int(1).as_bool());
    assert!(!DbBool::from_db_int(0).as_bool());
    assert!(!DbBool::from_db_int(-7).as_bool());
    assert!(DbBool::from(true).as_bool());
    assert!(!DbBool::from(false).as_bool());
}
