use soakit::SoAKitError;

#[test]
fn test_invalid_argument_display() {
    let err = SoAKitError::InvalidArgument("test message".to_string());
    let display_str = err.message();
    assert_eq!(display_str, "Invalid argument: test message");
}

#[test]
fn test_field_not_found_display() {
    let err = SoAKitError::FieldNotFound("age".to_string());
    let display_str = err.message();
    assert_eq!(display_str, "Field not found: age");
}

#[test]
fn test_validation_failed_display() {
    let err = SoAKitError::ValidationFailed("value too large".to_string());
    let display_str = err.message();
    assert_eq!(display_str, "Validation failed: value too large");
}

#[test]
fn test_index_out_of_bounds_display() {
    let err = SoAKitError::IndexOutOfBounds { index: 10, max: 5 };
    let display_str = err.message();
    assert_eq!(display_str, "Index 10 out of bounds (max: 5)");
}

#[test]
fn test_length_mismatch_display() {
    let err = SoAKitError::LengthMismatch {
        expected: 10,
        actual: 5,
    };
    let display_str = err.message();
    assert_eq!(display_str, "Length mismatch: expected 10, got 5");
}

#[test]
fn test_derived_field_no_deps_display() {
    let err = SoAKitError::DerivedFieldNoDeps("sum".to_string());
    let display_str = err.message();
    assert_eq!(display_str, "Derived field 'sum' has no dependencies");
}

#[test]
fn test_field_already_exists_display() {
    let err = SoAKitError::FieldAlreadyExists("age".to_string());
    let display_str = err.message();
    assert_eq!(display_str, "Field 'age' already exists");
}

#[test]
fn test_error_equality() {
    let err1 = SoAKitError::InvalidArgument("test".to_string());
    let err2 = SoAKitError::InvalidArgument("test".to_string());
    let err3 = SoAKitError::InvalidArgument("different".to_string());

    assert_eq!(err1, err2);
    assert_ne!(err1, err3);
}

#[test]
fn test_error_clone() {
    let err = SoAKitError::FieldNotFound("test".to_string());
    let cloned = err.clone();
    assert_eq!(err, cloned);
}

#[test]
fn test_error_debug() {
    let err = SoAKitError::IndexOutOfBounds { index: 5, max: 3 };
    let debug_str = format!("{:?}", err);
    assert!(debug_str.contains("IndexOutOfBounds"));
    assert!(debug_str.contains("5"));
    assert!(debug_str.contains("3"));
}

#[test]
fn test_all_error_variants() {
    let errors = vec![
        SoAKitError::InvalidArgument("msg".to_string()),
        SoAKitError::FieldNotFound("field".to_string()),
        SoAKitError::ValidationFailed("msg".to_string()),
        SoAKitError::IndexOutOfBounds { index: 0, max: 0 },
        SoAKitError::LengthMismatch {
            expected: 0,
            actual: 0,
        },
        SoAKitError::DerivedFieldNoDeps("field".to_string()),
        SoAKitError::FieldAlreadyExists("field".to_string()),
    ];

    for err in errors {
        let _display = err.message();
        let _debug = format!("{:?}", err);
    }
}

#[test]
fn test_error_with_empty_strings() {
    let err1 = SoAKitError::InvalidArgument(String::new());
    assert_eq!(err1.message(), "Invalid argument: ");

    let err2 = SoAKitError::FieldNotFound(String::new());
    assert_eq!(err2.message(), "Field not found: ");
}

#[test]
fn test_error_with_special_characters() {
    let err = SoAKitError::InvalidArgument("test\nmessage\twith\rspecial".to_string());
    let display_str = err.message();
    assert!(display_str.contains("test"));
    assert!(display_str.contains("message"));
}

#[test]
fn test_index_out_of_bounds_edge_cases() {
    let err1 = SoAKitError::IndexOutOfBounds { index: 0, max: 0 };
    assert_eq!(err1.message(), "Index 0 out of bounds (max: 0)");

    let err2 = SoAKitError::IndexOutOfBounds {
        index: usize::MAX,
        max: 100,
    };
    let display_str = err2.message();
    assert!(display_str.contains("out of bounds"));
}

#[test]
fn test_length_mismatch_edge_cases() {
    let err1 = SoAKitError::LengthMismatch {
        expected: 0,
        actual: 0,
    };
    assert_eq!(err1.message(), "Length mismatch: expected 0, got 0");

    let err2 = SoAKitError::LengthMismatch {
        expected: usize::MAX,
        actual: 0,
    };
    let display_str = err2.message();
    assert!(display_str.contains("Length mismatch"));
}

#[test]
fn test_error_trait_implementation() {
    let err = SoAKitError::InvalidArgument("test".to_string());
    assert!(!err.message().is_empty());
}

#[test]
fn test_error_type_matching() {
    let err = SoAKitError::FieldNotFound("test".to_string());
    match err {
        SoAKitError::FieldNotFound(_) => {}
        _ => panic!("Wrong error type"),
    }

    let err2 = SoAKitError::IndexOutOfBounds { index: 5, max: 3 };
    match err2 {
        SoAKitError::IndexOutOfBounds { index, max } => {
            assert_eq!(index, 5);
            assert_eq!(max, 3);
        }
        _ => panic!("Wrong error type"),
    }
}
