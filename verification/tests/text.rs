use colla::value::value_type_name;
use colla::{apply_text, ApplyError, Path, Text, TextChange, TextOp, Utf16PositionError, ValueType};

#[test]
fn text_reports_scalar_length() {
    let text = Text::new("a🙂b");
    assert_eq!(text.len(), 3);
    assert_eq!(text.as_str(), "a🙂b");
    assert!(!text.is_empty());
    assert!(Text::new("").is_empty());
}

#[test]
fn utf16_positions_convert_to_scalar_positions() {
    let text = Text::new("a🙂b");
    assert_eq!(text.utf16_to_code_point(0), Ok(0));
    assert_eq!(text.utf16_to_code_point(1), Ok(1));
    assert_eq!(text.utf16_to_code_point(3), Ok(2));
    assert_eq!(text.utf16_to_code_point(4), Ok(3));
    assert_eq!(
        text.utf16_to_code_point(2),
        Err(Utf16PositionError::InvalidUtf16Boundary { position: 2 })
    );
    assert_eq!(
        text.utf16_to_code_point(5),
        Err(Utf16PositionError::Utf16OutOfBounds { position: 5, len: 4 })
    );
}

#[test]
fn applying_past_the_end_is_out_of_bounds() {
    let change = TextChange::from_ops(vec![TextOp::Retain(3), TextOp::Insert("x".into())]).unwrap();
    assert_eq!(
        apply_text(&Text::new("ab"), &change).unwrap_err(),
        ApplyError::SequenceOutOfBounds { path: Path::new() }
    );
}

#[test]
fn applying_keeps_unicode_scalars_whole() {
    let change = TextChange::from_ops(vec![
        TextOp::Retain(1),
        TextOp::Delete(1),
        TextOp::Insert("é".into()),
    ])
    .unwrap();
    let out = apply_text(&Text::new("a🙂b"), &change).unwrap();
    assert_eq!(out.as_str(), "aéb");
}

#[test]
fn scalar_positions_convert_to_utf16_positions() {
    let text = Text::new("a🙂b");
    assert_eq!(text.code_point_to_utf16(0), Ok(0));
    assert_eq!(text.code_point_to_utf16(2), Ok(3));
    assert_eq!(text.code_point_to_utf16(3), Ok(4));
    assert_eq!(
        text.code_point_to_utf16(4),
        Err(Utf16PositionError::CodePointOutOfBounds { position: 4, len: 3 })
    );
}

#[test]
fn value_types_have_lowercase_wire_names() {
    assert_eq!(value_type_name(ValueType::RichText), "richtext");
    assert_eq!(value_type_name(ValueType::KeyMap), "map");
    assert_eq!(value_type_name(ValueType::Null), "null");
}
