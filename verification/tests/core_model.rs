use colla::structure::{Change, ListChange, ListOp};
use colla::content::Value;
use colla::{TextChange, TextOp, ValueError};

#[test]
fn canonical_sequence_changes_merge_and_chop() {
    let change = TextChange::from_ops(vec![
        TextOp::Retain(1),
        TextOp::Retain(2),
        TextOp::Insert("a".into()),
        TextOp::Insert("b".into()),
        TextOp::Retain(9),
    ])
    .unwrap();
    assert_eq!(
        change.ops(),
        &[TextOp::Retain(3), TextOp::Insert("ab".into())]
    );
}

#[test]
fn sequence_constructors_normalize_ops() {
    let text = TextChange::from_ops(vec![
        TextOp::Retain(0),
        TextOp::Retain(1),
        TextOp::Retain(2),
        TextOp::Delete(1),
        TextOp::Insert(String::new()),
        TextOp::Insert("a".into()),
        TextOp::Insert("b".into()),
        TextOp::Retain(9),
    ])
    .unwrap();
    assert_eq!(
        text.ops(),
        &[
            TextOp::Retain(3),
            TextOp::Insert("ab".into()),
            TextOp::Delete(1),
        ]
    );

    let list = ListChange::from_ops(vec![
        ListOp::Delete(1),
        ListOp::Insert(vec![Value::integer(1)]),
        ListOp::Insert(vec![Value::integer(2)]),
        ListOp::Modify(Change::noop()),
        ListOp::Retain(1),
    ])
    .unwrap();
    assert_eq!(
        list.ops(),
        &[
            ListOp::Insert(vec![Value::integer(1), Value::integer(2)]),
            ListOp::Delete(1),
        ]
    );
}

#[test]
fn sequence_constructors_reject_all_length_accumulation_overflows() {
    assert_eq!(
        TextChange::from_ops(vec![TextOp::Retain(usize::MAX), TextOp::Retain(1)]).unwrap_err(),
        ValueError::LengthOverflow
    );
    assert_eq!(
        TextChange::from_ops(vec![TextOp::Retain(usize::MAX), TextOp::Insert("x".into())])
            .unwrap_err(),
        ValueError::LengthOverflow
    );
    assert_eq!(
        ListChange::from_ops(vec![
            ListOp::Delete(usize::MAX),
            ListOp::Modify(Change::replace(Value::null())),
        ])
        .unwrap_err(),
        ValueError::LengthOverflow
    );
}

#[test]
fn empty_and_zero_operations_normalize_to_nothing() {
    let change = TextChange::from_ops(vec![
        TextOp::Retain(0),
        TextOp::Delete(0),
        TextOp::Insert(String::new()),
        TextOp::Retain(4),
    ])
    .unwrap();
    assert!(change.is_empty());
}

#[test]
fn normalization_is_idempotent() {
    let once = TextChange::from_ops(vec![
        TextOp::Delete(2),
        TextOp::Insert("x".into()),
        TextOp::Retain(1),
        TextOp::Insert("y".into()),
    ])
    .unwrap();
    let twice = TextChange::from_ops(once.ops().to_vec()).unwrap();
    assert_eq!(once.ops(), twice.ops());
    assert_eq!(
        once.ops(),
        &[
            TextOp::Insert("x".into()),
            TextOp::Delete(2),
            TextOp::Retain(1),
            TextOp::Insert("y".into()),
        ]
    );
}

#[test]
fn value_and_change_accessors_and_conversions() {
    let v_null = Value::null();
    assert_eq!(v_null.value_type(), colla::ValueType::Null);
    assert_eq!(v_null.as_int(), None);

    let v_int = Value::integer(42);
    assert_eq!(v_int.as_int(), Some(42));

    let text = colla::Text::new("hello");
    let v_text = Value::text("hello");
    assert_eq!(v_text.as_text(), Some(&text));

    let change_replace = Change::replace(v_int.clone());
    assert!(matches!(change_replace.kind(), colla::ChangeKind::Replace(v) if *v == v_int));
    assert!(!matches!(change_replace.kind(), colla::ChangeKind::Int(_)));

    let text_change = TextChange::from_ops(vec![TextOp::Insert("hi".into())]).unwrap();
    let change_text = Change::from(text_change.clone());
    assert!(matches!(change_text.kind(), colla::ChangeKind::Text(t) if *t == text_change));

    // Text coordinate conversions
    let emoji_text = colla::Text::new("A😀B");
    assert_eq!(emoji_text.code_point_to_utf16(0).unwrap(), 0);
    assert_eq!(emoji_text.code_point_to_utf16(1).unwrap(), 1);
    assert_eq!(emoji_text.code_point_to_utf16(2).unwrap(), 3);
    assert_eq!(emoji_text.utf16_to_code_point(3).unwrap(), 2);
    assert_eq!(
        emoji_text.utf16_to_code_point(2).unwrap_err().code(),
        colla::ErrorCode::InvalidUtf16Boundary
    );

    // Path methods
    let path = colla::Path::new().with_key("a").with_index(0);
    assert_eq!(path.segments().len(), 2);
    assert_eq!(path.segments()[0], colla::PathSeg::Key("a".into()));
    assert_eq!(path.segments()[1], colla::PathSeg::Index(0));
}
