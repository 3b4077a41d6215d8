use colla::value::FiniteF64;
use colla::{
    apply, ApplyError, Change, ChangeKind, IntChange, ListChange, ListOp, MapChange,
    MapEntryChange, Path, TextChange, TextOp, Value, ValueError, ValueType,
};

fn entry(key: &str, value: Value) -> (String, Value) {
    (key.to_string(), value)
}

fn edit(key: &str, change: MapEntryChange) -> (String, MapEntryChange) {
    (key.to_string(), change)
}

fn float(value: f64) -> Value {
    Value::finite_float(FiniteF64::from_bits(value.to_bits()).unwrap())
}

#[test]
fn value_distinguishes_atomic_and_collaborative_strings() {
    assert_ne!(Value::string("hello"), Value::text("hello"));
    assert_ne!(Value::integer(1), float(1.0));
    assert_eq!(float(-0.0), float(0.0));
}

#[test]
fn recursive_change_updates_multiple_branches() {
    let base = Value::map(vec![
        entry("title", Value::text("Sprint")),
        entry(
            "tasks",
            Value::list(vec![
                Value::map(vec![entry("done", Value::bool(false))]).unwrap(),
                Value::map(vec![entry("done", Value::bool(false))]).unwrap(),
            ]),
        ),
    ])
    .unwrap();

    let change = Change::from(
        MapChange::from_entries(vec![
            edit(
                "title",
                MapEntryChange::Modify(
                    TextChange::from_ops(vec![TextOp::Retain(6), TextOp::Insert(" 2".into())])
                        .unwrap()
                        .into(),
                ),
            ),
            edit(
                "tasks",
                MapEntryChange::Modify(
                    ListChange::from_ops(vec![
                        ListOp::Retain(1),
                        ListOp::Modify(Change::from(
                            MapChange::from_entries(vec![edit(
                                "done",
                                MapEntryChange::Modify(Change::replace(Value::bool(true))),
                            )])
                            .unwrap(),
                        )),
                        ListOp::Insert(vec![
                            Value::map(vec![entry("done", Value::bool(false))]).unwrap()
                        ]),
                    ])
                    .unwrap()
                    .into(),
                ),
            ),
        ])
        .unwrap(),
    );

    let after = change.apply_to(&base).unwrap();
    assert_eq!(
        after.get(&Path::key("title")).unwrap(),
        &Value::text("Sprint 2")
    );
    assert_eq!(
        after
            .get(&Path::key("tasks").with_index(1).with_key("done"))
            .unwrap(),
        &Value::bool(true)
    );
    assert_eq!(
        after.get(&Path::key("tasks")).unwrap().as_list().unwrap().len(),
        3
    );
}

#[test]
fn typed_constructors_accept_iterators_and_convert_into_change() {
    let text: Change = TextChange::from_ops(vec![TextOp::Retain(1), TextOp::Insert("x".into())])
        .unwrap()
        .into();
    assert!(matches!(text.kind(), ChangeKind::Text(_)));

    let list: Change = ListChange::from_ops(vec![ListOp::Insert(vec![Value::integer(1)])])
        .unwrap()
        .into();
    assert!(matches!(list.kind(), ChangeKind::List(_)));

    let map: Change = MapChange::from_entries(vec![edit(
        "key",
        MapEntryChange::Insert(Value::string("value")),
    )])
    .unwrap()
    .into();
    assert!(matches!(map.kind(), ChangeKind::KeyMap(_)));

    assert!(Change::from(TextChange::from_ops(vec![]).unwrap()).is_noop());
    assert!(Change::from(ListChange::from_ops(vec![]).unwrap()).is_noop());
    assert!(Change::from(MapChange::from_entries(vec![]).unwrap()).is_noop());
    assert!(Change::from(IntChange::Add(0)).is_noop());
    assert!(matches!(
        Change::from(IntChange::Add(4)).kind(),
        ChangeKind::Int(_)
    ));
}

#[test]
fn noop_and_replace_apply_to_any_value() {
    let base = Value::list(vec![Value::integer(1), Value::null()]);
    assert_eq!(apply(&base, &Change::noop()).unwrap(), base);
    assert_eq!(
        apply(&base, &Change::replace(Value::string("x"))).unwrap(),
        Value::string("x")
    );
}

#[test]
fn int_changes_add_with_overflow_checks() {
    let add = Change::from(IntChange::Add(5));
    assert_eq!(apply(&Value::integer(-2), &add).unwrap(), Value::integer(3));
    assert_eq!(
        apply(&Value::integer(i64::MAX), &Change::from(IntChange::Add(1))),
        Err(ApplyError::IntegerOverflow { path: Path::new() })
    );
    assert_eq!(
        apply(&Value::string("2"), &add),
        Err(ApplyError::TypeMismatch {
            path: Path::new(),
            expected: ValueType::Int,
            actual: ValueType::String,
        })
    );
}

#[test]
fn map_changes_insert_delete_and_modify_by_key() {
    let base = Value::map(vec![entry("a", Value::integer(1)), entry("b", Value::integer(2))]).unwrap();
    let change = Change::from(
        MapChange::from_entries(vec![
            edit("c", MapEntryChange::Insert(Value::bool(true))),
            edit("a", MapEntryChange::Delete),
            edit("b", MapEntryChange::Modify(Change::from(IntChange::Add(40)))),
        ])
        .unwrap(),
    );
    let expected =
        Value::map(vec![entry("b", Value::integer(42)), entry("c", Value::bool(true))]).unwrap();
    assert_eq!(apply(&base, &change).unwrap(), expected);

    let existing = Change::from(
        MapChange::from_entries(vec![edit("a", MapEntryChange::Insert(Value::null()))]).unwrap(),
    );
    assert_eq!(
        apply(&base, &existing),
        Err(ApplyError::ExistingKey { path: Path::new(), key: "a".into() })
    );
    let missing =
        Change::from(MapChange::from_entries(vec![edit("z", MapEntryChange::Delete)]).unwrap());
    assert_eq!(
        apply(&base, &missing),
        Err(ApplyError::MissingKey { path: Path::new(), key: "z".into() })
    );
}

#[test]
fn map_entries_fail_in_key_order() {
    let base = Value::map(vec![entry("a", Value::integer(1))]).unwrap();
    let change = Change::from(
        MapChange::from_entries(vec![
            edit("b", MapEntryChange::Delete),
            edit("a", MapEntryChange::Insert(Value::null())),
        ])
        .unwrap(),
    );
    assert_eq!(
        apply(&base, &change),
        Err(ApplyError::ExistingKey { path: Path::new(), key: "a".into() })
    );
}

#[test]
fn list_changes_retain_insert_delete_and_modify() {
    let base = Value::list(vec![Value::integer(1), Value::integer(2), Value::integer(3)]);
    let change = Change::from(
        ListChange::from_ops(vec![
            ListOp::Modify(Change::from(IntChange::Add(10))),
            ListOp::Delete(1),
            ListOp::Insert(vec![Value::string("x")]),
        ])
        .unwrap(),
    );
    let expected = Value::list(vec![Value::integer(11), Value::string("x"), Value::integer(3)]);
    assert_eq!(apply(&base, &change).unwrap(), expected);

    let too_long = Change::from(
        ListChange::from_ops(vec![ListOp::Retain(3), ListOp::Delete(1)]).unwrap(),
    );
    assert_eq!(
        apply(&base, &too_long),
        Err(ApplyError::SequenceOutOfBounds { path: Path::new() })
    );
}

#[test]
fn nested_failures_report_the_snapshot_path() {
    let base = Value::map(vec![entry(
        "items",
        Value::list(vec![Value::string("a"), Value::text("abc")]),
    )])
    .unwrap();
    let wrong_type = Change::from(
        MapChange::from_entries(vec![edit(
            "items",
            MapEntryChange::Modify(Change::from(
                ListChange::from_ops(vec![ListOp::Modify(Change::from(IntChange::Add(1)))]).unwrap(),
            )),
        )])
        .unwrap(),
    );
    assert_eq!(
        apply(&base, &wrong_type),
        Err(ApplyError::TypeMismatch {
            path: Path::key("items").with_index(0),
            expected: ValueType::Int,
            actual: ValueType::String,
        })
    );

    let past_end = Change::from(
        MapChange::from_entries(vec![edit(
            "items",
            MapEntryChange::Modify(Change::from(
                ListChange::from_ops(vec![
                    ListOp::Retain(1),
                    ListOp::Modify(Change::from(
                        TextChange::from_ops(vec![TextOp::Delete(4)]).unwrap(),
                    )),
                ])
                .unwrap(),
            )),
        )])
        .unwrap(),
    );
    assert_eq!(
        apply(&base, &past_end),
        Err(ApplyError::SequenceOutOfBounds { path: Path::key("items").with_index(1) })
    );
}

#[test]
fn value_map_rejects_duplicate_keys() {
    assert_eq!(
        Value::map(vec![
            entry("a", Value::null()),
            entry("b", Value::null()),
            entry("a", Value::null()),
        ]),
        Err(ValueError::DuplicateKey("a".into()))
    );
}

#[test]
fn map_change_skips_modifications_that_change_nothing() {
    let change = MapChange::from_entries(vec![
        edit("a", MapEntryChange::Modify(Change::noop())),
        edit("a", MapEntryChange::Delete),
    ])
    .unwrap();
    assert_eq!(change.len(), 1);
    assert_eq!(
        MapChange::from_entries(vec![
            edit("a", MapEntryChange::Delete),
            edit("a", MapEntryChange::Delete),
        ]),
        Err(ValueError::DuplicateKey("a".into()))
    );
}

#[test]
fn value_get_follows_keys_and_indexes_only() {
    let base = Value::map(vec![entry("list", Value::list(vec![Value::bool(true)]))]).unwrap();
    assert_eq!(
        base.get(&Path::key("list").with_index(0)),
        Some(&Value::bool(true))
    );
    assert_eq!(base.get(&Path::key("list").with_index(1)), None);
    assert_eq!(base.get(&Path::key("list").with_key("x")), None);
    assert_eq!(base.get(&Path::new()), Some(&base));
    assert_eq!(base.value_type(), ValueType::KeyMap);
}

#[test]
fn change_kind_names() {
    assert_eq!(Change::noop().kind_name(), "Noop");
    assert_eq!(Change::replace(Value::null()).kind_name(), "Replace");
    assert_eq!(Change::from(IntChange::Add(1)).kind_name(), "Int");
}

#[test]
fn inverse_restores_base() {
    let base = Value::list(vec![Value::integer(1), Value::integer(2), Value::integer(3)]);
    let change = Change::from(
        ListChange::from_ops(vec![
            ListOp::Retain(1),
            ListOp::Delete(1),
            ListOp::Insert(vec![Value::integer(9)]),
        ])
        .unwrap(),
    );
    let inverse = change.invert(&base).unwrap();
    let after = change.apply_to(&base).unwrap();
    assert_eq!(inverse.apply_to(&after).unwrap(), base);
}

#[test]
fn nested_map_list_and_text_changes_invert() {
    let base = Value::map(vec![
        entry("gone", Value::integer(7)),
        entry("n", Value::integer(1)),
        entry("items", Value::list(vec![Value::text("héllo"), Value::null()])),
    ])
    .unwrap();
    let change = Change::from(
        MapChange::from_entries(vec![
            edit("gone", MapEntryChange::Delete),
            edit("new", MapEntryChange::Insert(Value::bool(false))),
            edit("n", MapEntryChange::Modify(Change::from(IntChange::Add(-5)))),
            edit(
                "items",
                MapEntryChange::Modify(Change::from(
                    ListChange::from_ops(vec![
                        ListOp::Modify(Change::from(
                            TextChange::from_ops(vec![TextOp::Delete(2), TextOp::Insert("J".into())])
                                .unwrap(),
                        )),
                        ListOp::Delete(1),
                        ListOp::Insert(vec![Value::string("tail")]),
                    ])
                    .unwrap(),
                )),
            ),
        ])
        .unwrap(),
    );
    let after = apply(&base, &change).unwrap();
    assert_eq!(
        after.get(&Path::key("items").with_index(0)),
        Some(&Value::text("Jllo"))
    );
    let inverse = colla::invert(&change, &base).unwrap();
    assert_eq!(apply(&after, &inverse).unwrap(), base);
}

#[test]
fn invert_of_an_inapplicable_change_reports_the_apply_error() {
    let change = Change::from(IntChange::Add(1));
    assert_eq!(
        change.invert(&Value::null()),
        Err(colla::InvertError::Apply(ApplyError::TypeMismatch {
            path: Path::new(),
            expected: ValueType::Int,
            actual: ValueType::Null,
        }))
    );
}

#[test]
fn int_inverse_negates_or_replaces() {
    let base = Value::integer(10);
    let add = Change::from(IntChange::Add(i64::MIN));
    let after = apply(&base, &add).unwrap();
    let inverse = add.invert(&base).unwrap();
    assert!(matches!(inverse.kind(), ChangeKind::Replace(_)));
    assert_eq!(apply(&after, &inverse).unwrap(), base);

    let add = Change::from(IntChange::Add(3));
    let inverse = add.invert(&base).unwrap();
    assert_eq!(inverse, Change::from(IntChange::Add(-3)));
}

#[test]
fn replace_inverse_restores_the_old_value() {
    let base = Value::string("before");
    let change = Change::replace(Value::integer(1));
    let inverse = change.invert(&base).unwrap();
    assert_eq!(inverse, Change::replace(Value::string("before")));
}
