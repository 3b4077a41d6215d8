use colla::apply::checked_output_advance;
use colla::{
    ApplyError, CodecError, CollaError, ComposeError, ErrorCode, InvertError, Path, TransformError,
    Utf16PositionError, ValueError, ValueType,
};

#[test]
fn error_code_classification_is_stable_across_error_kinds() {
    let p = Path::new;

    assert_eq!(ValueError::NonFiniteFloat.code(), ErrorCode::InvalidValue);
    assert_eq!(
        ValueError::DuplicateKey("k".into()).code(),
        ErrorCode::InvalidValue
    );
    assert_eq!(ValueError::LengthOverflow.code(), ErrorCode::LimitExceeded);

    assert_eq!(
        ApplyError::TypeMismatch {
            path: p(),
            expected: ValueType::Int,
            actual: ValueType::Bool,
        }
        .code(),
        ErrorCode::TypeMismatch
    );
    assert_eq!(
        ApplyError::MissingKey {
            path: p(),
            key: "k".into(),
        }
        .code(),
        ErrorCode::MissingKey
    );
    assert_eq!(
        ApplyError::ExistingKey {
            path: p(),
            key: "k".into(),
        }
        .code(),
        ErrorCode::KeyAlreadyExists
    );
    assert_eq!(
        ApplyError::IndexOutOfBounds {
            path: p(),
            index: 1,
            len: 0,
        }
        .code(),
        ErrorCode::OutOfBounds
    );
    assert_eq!(
        ApplyError::SequenceOutOfBounds { path: p() }.code(),
        ErrorCode::OutOfBounds
    );
    assert_eq!(
        ApplyError::IntegerOverflow { path: p() }.code(),
        ErrorCode::IntegerOverflow
    );
    assert_eq!(
        ApplyError::SequenceLengthOverflow { path: p() }.code(),
        ErrorCode::LimitExceeded
    );

    assert_eq!(
        ComposeError::IncompatibleKinds {
            left: "a",
            right: "b",
        }
        .code(),
        ErrorCode::IncompatibleChange
    );
    assert_eq!(
        ComposeError::IncompatibleMapEntry("k".into()).code(),
        ErrorCode::IncompatibleChange
    );
    assert_eq!(
        ComposeError::LengthOverflow.code(),
        ErrorCode::LimitExceeded
    );
    assert_eq!(
        ComposeError::Apply(ApplyError::IntegerOverflow { path: p() }).code(),
        ErrorCode::IntegerOverflow
    );

    assert_eq!(
        TransformError::IncompatibleKinds {
            left: "a",
            right: "b",
        }
        .code(),
        ErrorCode::IncompatibleChange
    );
    assert_eq!(
        TransformError::IncompatibleMapEntry("k".into()).code(),
        ErrorCode::IncompatibleChange
    );
    assert_eq!(
        TransformError::LengthOverflow.code(),
        ErrorCode::LimitExceeded
    );

    assert_eq!(
        InvertError::Apply(ApplyError::MissingKey {
            path: p(),
            key: "k".into(),
        })
        .code(),
        ErrorCode::MissingKey
    );
    assert_eq!(InvertError::LengthOverflow.code(), ErrorCode::LimitExceeded);

    assert_eq!(
        CodecError::UnexpectedEof { offset: 0 }.code(),
        ErrorCode::InvalidEncoding
    );
    assert_eq!(
        CodecError::TrailingBytes { offset: 0 }.code(),
        ErrorCode::InvalidEncoding
    );
    assert_eq!(
        CodecError::LimitExceeded {
            name: "x",
            actual: 2,
            limit: 1,
        }
        .code(),
        ErrorCode::LimitExceeded
    );
    assert_eq!(
        CodecError::Value(ValueError::NonFiniteFloat).code(),
        ErrorCode::InvalidValue
    );

    assert_eq!(ErrorCode::InvalidEncoding.as_str(), "invalid_encoding");
    assert_eq!(ErrorCode::KeyAlreadyExists.as_str(), "key_already_exists");
}

#[test]
fn apply_output_capacity_overflow_maps_to_apply_error() {
    let error = checked_output_advance(usize::MAX, 1).unwrap_err();
    assert_eq!(error, ApplyError::SequenceLengthOverflow { path: Path::new() });
    assert_eq!(CollaError::from(error).code, ErrorCode::LimitExceeded);
}

#[test]
fn utf16_errors_classify_boundaries_separately() {
    assert_eq!(
        Utf16PositionError::InvalidUtf16Boundary { position: 1 }.code(),
        ErrorCode::InvalidUtf16Boundary
    );
    assert_eq!(
        Utf16PositionError::Utf16OutOfBounds { position: 3, len: 2 }.code(),
        ErrorCode::OutOfBounds
    );
    assert_eq!(
        Utf16PositionError::CodePointOutOfBounds { position: 3, len: 2 }.code(),
        ErrorCode::OutOfBounds
    );
}

fn entries(e: &CollaError) -> Vec<(&str, &str)> {
    e.details.entries().iter().map(|(k, v)| (k.as_str(), v.as_str())).collect()
}

#[test]
fn colla_error_records_operation_and_sorted_details() {
    let e = CollaError::new(ErrorCode::InvalidArgument, "abort");
    assert_eq!(e.code, ErrorCode::InvalidArgument);
    assert_eq!(e.operation, "core");
    assert_eq!(entries(&e), vec![("reason", "abort")]);

    let e = e.at("edit").detail("zeta", "1").detail("alpha", "2").detail("zeta", "3");
    assert_eq!(e.operation, "edit");
    assert_eq!(
        entries(&e),
        vec![("alpha", "2"), ("reason", "abort"), ("zeta", "3")]
    );
}

#[test]
fn apply_errors_convert_with_their_description() {
    let path = Path::key("items").with_index(2);
    let e = CollaError::from(ApplyError::IndexOutOfBounds { path, index: 7, len: 3 });
    assert_eq!(e.code, ErrorCode::OutOfBounds);
    assert_eq!(
        entries(&e),
        vec![("reason", "list index 7 out of bounds at $.items[2] (len 3)")]
    );
    let e = CollaError::from(ApplyError::TypeMismatch {
        path: Path::new(),
        expected: ValueType::KeyMap,
        actual: ValueType::Text,
    });
    assert_eq!(e.code, ErrorCode::TypeMismatch);
    assert_eq!(
        entries(&e),
        vec![("reason", "type mismatch at $: expected Map, got Text")]
    );
}

#[test]
fn every_error_code_has_its_stable_name() {
    let names = [
        (ErrorCode::InvalidArgument, "invalid_argument"),
        (ErrorCode::InvalidValue, "invalid_value"),
        (ErrorCode::InvalidEncoding, "invalid_encoding"),
        (ErrorCode::InvalidState, "invalid_state"),
        (ErrorCode::LimitExceeded, "limit_exceeded"),
        (ErrorCode::TypeMismatch, "type_mismatch"),
        (ErrorCode::MissingKey, "missing_key"),
        (ErrorCode::KeyAlreadyExists, "key_already_exists"),
        (ErrorCode::OutOfBounds, "out_of_bounds"),
        (ErrorCode::IntegerOverflow, "integer_overflow"),
        (ErrorCode::IncompatibleChange, "incompatible_change"),
        (ErrorCode::InvalidUtf16Boundary, "invalid_utf16_boundary"),
        (ErrorCode::StructuralConflict, "structural_conflict"),
        (ErrorCode::MissingRevision, "missing_revision"),
        (ErrorCode::HistoryExpired, "history_expired"),
    ];
    for (code, name) in names {
        assert_eq!(code.as_str(), name);
    }
}

#[test]
fn value_errors_convert_with_their_description() {
    let e = CollaError::from(ValueError::DuplicateKey("k".into()));
    assert_eq!(e.code, ErrorCode::InvalidValue);
    assert_eq!(entries(&e), vec![("reason", "duplicate key: k")]);
    let e = CollaError::from(ValueError::LengthOverflow);
    assert_eq!(e.code, ErrorCode::LimitExceeded);
    assert_eq!(e.reason(), "length exceeds the platform limit");
}

#[test]
fn errors_render_code_operation_and_reason() {
    let e = CollaError::new(ErrorCode::InvalidArgument, "abort").at("edit").detail("a", "1");
    assert_eq!(e.reason(), "abort");
    assert_eq!(e.to_display_string(), "invalid_argument (edit): abort");
    let mut bare = CollaError::new(ErrorCode::InvalidState, "x");
    bare.details.clear();
    assert_eq!(bare.to_display_string(), "invalid_state (core): ");
}

#[test]
fn details_stay_in_key_order_with_each_key_once() {
    let mut d = colla::Details::new();
    assert!(d.is_empty());
    d.insert("zeta", "1");
    d.insert("alpha", "2");
    d.insert("mid", "3");
    d.insert("alpha", "4");
    let keys: Vec<(&str, &str)> = d.entries().iter().map(|(k, v)| (k.as_str(), v.as_str())).collect();
    assert_eq!(keys, vec![("alpha", "4"), ("mid", "3"), ("zeta", "1")]);
    assert_eq!(d.len(), 3);
    let copy = d.clone();
    assert_eq!(copy, d);
    d.clear();
    assert_eq!(d.len(), 0);
}
