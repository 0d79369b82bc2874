use authcore::constraint::{extract_constraint_name, translate, ConstraintMapping};
use authcore::error::{Error, StorageError};

fn table() -> Vec<ConstraintMapping> {
    vec![
        ConstraintMapping {
            constraint: "key_username".to_string(),
            field: "username".to_string(),
            message: "username taken".to_string(),
        },
        ConstraintMapping {
            constraint: "key_email".to_string(),
            field: "email".to_string(),
            message: "email taken".to_string(),
        },
    ]
}

#[test]
fn mapped_constraint_becomes_field_error() {
    let e = StorageError {
        constraint_violation: true,
        message: "Duplicate entry 'bob' for key 'key_username'".to_string(),
    };
    let r = translate(e, &table());
    match r {
        Error::UnprocessableEntity { errors } => {
            assert_eq!(errors.len(), 1);
            assert_eq!(errors[0].0, "username");
            assert_eq!(errors[0].1, vec!["username taken".to_string()]);
        }
        other => panic!("expected a validation error, got {:?}", other),
    }
}

#[test]
fn unmapped_constraint_is_internal() {
    let e = StorageError {
        constraint_violation: true,
        message: "Duplicate entry 'x' for key 'key_unknown'".to_string(),
    };
    assert_eq!(translate(e, &table()), Error::Internal);
}

#[test]
fn non_violation_passes_through_unchanged() {
    let e = StorageError {
        constraint_violation: false,
        message: "connection reset".to_string(),
    };
    let r = translate(e.clone(), &table());
    assert_eq!(r, Error::Storage(e));
}

#[test]
fn unparsable_diagnostic_is_internal() {
    let e = StorageError {
        constraint_violation: true,
        message: "deadlock found when trying to get lock".to_string(),
    };
    assert_eq!(translate(e, &table()), Error::Internal);
}

#[test]
fn name_extraction_takes_last_quoted_word() {
    assert_eq!(
        extract_constraint_name("Duplicate entry 'bob' for key 'key_username'"),
        Some("key_username".to_string())
    );
    // A quoted value that is not a word run cannot be the name.
    assert_eq!(
        extract_constraint_name("Duplicate entry 'a-b' for key 'k1'"),
        Some("k1".to_string())
    );
    // The marker must be present.
    assert_eq!(extract_constraint_name("entry 'bob' for key 'key_username'"), None);
    // No quoted word after the marker.
    assert_eq!(extract_constraint_name("Duplicate entry without quotes"), None);
}

#[test]
fn second_mapping_is_found() {
    let e = StorageError {
        constraint_violation: true,
        message: "Duplicate entry 'a@b.c' for key 'key_email'".to_string(),
    };
    let r = translate(e, &table());
    match r {
        Error::UnprocessableEntity { errors } => {
            assert_eq!(errors, vec![("email".to_string(), vec!["email taken".to_string()])]);
        }
        other => panic!("expected a validation error, got {:?}", other),
    }
}
