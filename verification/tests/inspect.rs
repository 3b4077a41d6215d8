use colla::{
    inspect_change, ApplyError, Change, InspectEntry, IntChange, ListChange, ListOp, MapChange,
    MapEntryChange, Path, TextChange, TextOp, Value,
};

fn edit(key: &str, change: MapEntryChange) -> (String, MapEntryChange) {
    (key.to_string(), change)
}

#[test]
fn inspect_lists_map_entries_with_replacements_as_sets() {
    let base = Value::map(vec![
        ("a".to_string(), Value::integer(1)),
        ("b".to_string(), Value::integer(2)),
        ("c".to_string(), Value::integer(3)),
    ])
    .unwrap();
    let change = Change::from(
        MapChange::from_entries(vec![
            edit("a", MapEntryChange::Delete),
            edit("b", MapEntryChange::Modify(Change::replace(Value::bool(true)))),
            edit("c", MapEntryChange::Modify(IntChange::Add(5).into())),
            edit("d", MapEntryChange::Insert(Value::null())),
        ])
        .unwrap(),
    );
    let entries = inspect_change(&change, &base).unwrap();
    assert_eq!(
        entries,
        vec![
            InspectEntry::MapDelete { path: Path::new(), key: "a".into() },
            InspectEntry::MapSet { path: Path::new(), key: "b".into(), value: Value::bool(true) },
            InspectEntry::IntAdd { path: Path::new().with_key("c"), delta: 5 },
            InspectEntry::MapSet { path: Path::new(), key: "d".into(), value: Value::null() },
        ]
    );
}

#[test]
fn inspect_lists_list_operations_at_base_positions() {
    let base = Value::list(vec![Value::integer(1), Value::integer(2), Value::integer(3)]);
    let change = Change::from(
        ListChange::from_ops(vec![
            ListOp::Retain(1),
            ListOp::Insert(vec![Value::integer(9)]),
            ListOp::Delete(1),
            ListOp::Modify(IntChange::Add(1).into()),
        ])
        .unwrap(),
    );
    let entries = inspect_change(&change, &base).unwrap();
    assert_eq!(
        entries,
        vec![
            InspectEntry::ListInsert { path: Path::new(), index: 1, values: vec![Value::integer(9)] },
            InspectEntry::ListDelete { path: Path::new(), from: 1, to: 2 },
            InspectEntry::IntAdd { path: Path::new().with_index(2), delta: 1 },
        ]
    );
    let replace = Change::from(
        ListChange::from_ops(vec![ListOp::Modify(Change::replace(Value::string("x")))]).unwrap(),
    );
    assert_eq!(
        inspect_change(&replace, &base).unwrap(),
        vec![InspectEntry::ListSet { path: Path::new(), index: 0, value: Value::string("x") }]
    );
}

#[test]
fn inspect_counts_text_positions_in_utf16_units() {
    let base = Value::text("a😀bc");
    let change = Change::from(
        TextChange::from_ops(vec![
            TextOp::Retain(2),
            TextOp::Insert("X".into()),
            TextOp::Delete(2),
        ])
        .unwrap(),
    );
    assert_eq!(
        inspect_change(&change, &base).unwrap(),
        vec![
            InspectEntry::TextInsert { path: Path::new(), at: 3, text: "X".into() },
            InspectEntry::TextDelete { path: Path::new(), from: 3, to: 5 },
        ]
    );
}

#[test]
fn inspect_of_noop_replace_and_inapplicable_changes() {
    let base = Value::integer(1);
    assert_eq!(inspect_change(&Change::noop(), &base).unwrap(), vec![]);
    assert_eq!(
        inspect_change(&Change::replace(Value::null()), &base).unwrap(),
        vec![InspectEntry::ValueReplace { path: Path::new(), value: Value::null() }]
    );
    let text = Change::from(TextChange::from_ops(vec![TextOp::Insert("x".into())]).unwrap());
    assert!(matches!(
        inspect_change(&text, &base),
        Err(ApplyError::TypeMismatch { .. })
    ));
}
