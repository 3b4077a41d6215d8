use colla::compose;
use colla::{
    apply, ApplyError, Change, ChangeKind, ComposeError, IntChange, ListChange, ListOp, MapChange,
    MapEntryChange, Path, TextChange, TextOp, Value,
};

fn edit(key: &str, change: MapEntryChange) -> (String, MapEntryChange) {
    (key.to_string(), change)
}

fn map_change(entries: Vec<(String, MapEntryChange)>) -> Change {
    Change::from(MapChange::from_entries(entries).unwrap())
}

fn list_change(ops: Vec<ListOp>) -> Change {
    Change::from(ListChange::from_ops(ops).unwrap())
}

fn text_change(ops: Vec<TextOp>) -> Change {
    Change::from(TextChange::from_ops(ops).unwrap())
}

fn assert_sequential(base: &Value, first: &Change, second: &Change) -> Change {
    let combined = first.compose(second).unwrap();
    let sequential = second.apply_to(&first.apply_to(base).unwrap()).unwrap();
    assert_eq!(combined.apply_to(base).unwrap(), sequential);
    combined
}

#[test]
fn list_compose_partially_consumes_insert_with_modify_and_delete() {
    let base = Value::list(vec![Value::integer(0)]);
    let first = list_change(vec![ListOp::Insert(vec![
        Value::integer(1),
        Value::integer(2),
        Value::integer(3),
    ])]);
    let second = list_change(vec![
        ListOp::Retain(1),
        ListOp::Modify(IntChange::Add(10).into()),
        ListOp::Delete(1),
    ]);

    let combined = first.compose(&second).unwrap();
    let sequential = second.apply_to(&first.apply_to(&base).unwrap()).unwrap();

    assert_eq!(
        sequential,
        Value::list(vec![Value::integer(1), Value::integer(12), Value::integer(0)])
    );
    assert_eq!(combined.apply_to(&base).unwrap(), sequential);
}

#[test]
fn compose_with_noop_returns_the_other_change() {
    let change = Change::replace(Value::integer(3));
    assert_eq!(Change::noop().compose(&change).unwrap(), change);
    assert_eq!(change.compose(&Change::noop()).unwrap(), change);
    assert_eq!(compose(&Change::noop(), &Change::noop()).unwrap(), Change::noop());
}

#[test]
fn later_replacement_wins() {
    let first: Change = IntChange::Add(5).into();
    let second = Change::replace(Value::string("done"));
    assert_eq!(first.compose(&second).unwrap(), second);
}

#[test]
fn replacement_followed_by_a_change_replaces_with_its_result() {
    let first = Change::replace(Value::integer(40));
    let second: Change = IntChange::Add(2).into();
    assert_eq!(
        first.compose(&second).unwrap(),
        Change::replace(Value::integer(42))
    );
}

#[test]
fn replacement_followed_by_an_inapplicable_change_fails() {
    let first = Change::replace(Value::string("x"));
    let second: Change = IntChange::Add(2).into();
    assert!(matches!(
        first.compose(&second),
        Err(ComposeError::Apply(ApplyError::TypeMismatch { .. }))
    ));
}

#[test]
fn int_additions_sum_and_cancel() {
    let a: Change = IntChange::Add(7).into();
    let b: Change = IntChange::Add(-3).into();
    let c: Change = IntChange::Add(-7).into();
    assert_eq!(a.compose(&b).unwrap(), Change::from(IntChange::Add(4)));
    assert_eq!(a.compose(&c).unwrap(), Change::noop());
    assert_sequential(&Value::integer(1), &a, &b);
}

#[test]
fn int_addition_overflow_is_an_apply_error() {
    let a: Change = IntChange::Add(i64::MAX).into();
    let b: Change = IntChange::Add(1).into();
    assert_eq!(
        a.compose(&b),
        Err(ComposeError::Apply(ApplyError::IntegerOverflow { path: Path::new() }))
    );
}

#[test]
fn incompatible_kinds_are_reported_by_name() {
    let a: Change = IntChange::Add(1).into();
    let b = text_change(vec![TextOp::Insert("x".into())]);
    assert_eq!(
        a.compose(&b),
        Err(ComposeError::IncompatibleKinds { left: "Int", right: "Text" })
    );
}

#[test]
fn map_compose_merges_entries_in_key_order() {
    let base = Value::map(vec![
        ("a".to_string(), Value::integer(1)),
        ("c".to_string(), Value::integer(3)),
    ])
    .unwrap();
    let first = map_change(vec![
        edit("b", MapEntryChange::Insert(Value::integer(2))),
        edit("c", MapEntryChange::Modify(IntChange::Add(1).into())),
    ]);
    let second = map_change(vec![
        edit("a", MapEntryChange::Delete),
        edit("b", MapEntryChange::Modify(IntChange::Add(10).into())),
        edit("c", MapEntryChange::Modify(IntChange::Add(5).into())),
    ]);
    let combined = assert_sequential(&base, &first, &second);
    assert_eq!(
        combined,
        map_change(vec![
            edit("a", MapEntryChange::Delete),
            edit("b", MapEntryChange::Insert(Value::integer(12))),
            edit("c", MapEntryChange::Modify(IntChange::Add(6).into())),
        ])
    );
}

#[test]
fn map_insert_then_delete_cancels() {
    let first = map_change(vec![edit("k", MapEntryChange::Insert(Value::bool(true)))]);
    let second = map_change(vec![edit("k", MapEntryChange::Delete)]);
    assert_eq!(first.compose(&second).unwrap(), Change::noop());
}

#[test]
fn map_delete_then_insert_replaces_the_entry() {
    let base = Value::map(vec![("k".to_string(), Value::integer(1))]).unwrap();
    let first = map_change(vec![edit("k", MapEntryChange::Delete)]);
    let second = map_change(vec![edit("k", MapEntryChange::Insert(Value::string("s")))]);
    let combined = assert_sequential(&base, &first, &second);
    assert_eq!(
        combined,
        map_change(vec![edit(
            "k",
            MapEntryChange::Modify(Change::replace(Value::string("s")))
        )])
    );
}

#[test]
fn map_modifications_that_cancel_drop_the_entry() {
    let first = map_change(vec![edit("n", MapEntryChange::Modify(IntChange::Add(2).into()))]);
    let second = map_change(vec![edit("n", MapEntryChange::Modify(IntChange::Add(-2).into()))]);
    assert_eq!(first.compose(&second).unwrap(), Change::noop());
}

#[test]
fn map_modify_then_delete_deletes() {
    let first = map_change(vec![edit("n", MapEntryChange::Modify(IntChange::Add(2).into()))]);
    let second = map_change(vec![edit("n", MapEntryChange::Delete)]);
    assert_eq!(
        first.compose(&second).unwrap(),
        map_change(vec![edit("n", MapEntryChange::Delete)])
    );
}

#[test]
fn map_insert_after_insert_is_incompatible() {
    let first = map_change(vec![edit("k", MapEntryChange::Insert(Value::null()))]);
    let second = map_change(vec![edit("k", MapEntryChange::Insert(Value::null()))]);
    assert_eq!(
        first.compose(&second),
        Err(ComposeError::IncompatibleMapEntry("k".to_string()))
    );
}

#[test]
fn map_insert_then_inapplicable_modify_fails() {
    let first = map_change(vec![edit("k", MapEntryChange::Insert(Value::null()))]);
    let second = map_change(vec![edit("k", MapEntryChange::Modify(IntChange::Add(1).into()))]);
    assert!(matches!(
        first.compose(&second),
        Err(ComposeError::Apply(ApplyError::TypeMismatch { .. }))
    ));
}

#[test]
fn list_compose_of_retains_deletes_and_modifies() {
    let base = Value::list(vec![
        Value::integer(1),
        Value::integer(2),
        Value::integer(3),
        Value::integer(4),
    ]);
    let first = list_change(vec![
        ListOp::Modify(IntChange::Add(1).into()),
        ListOp::Delete(1),
        ListOp::Retain(1),
        ListOp::Modify(IntChange::Add(3).into()),
    ]);
    let second = list_change(vec![
        ListOp::Modify(IntChange::Add(10).into()),
        ListOp::Delete(1),
        ListOp::Modify(IntChange::Add(-3).into()),
    ]);
    let combined = assert_sequential(&base, &first, &second);
    assert_eq!(
        combined,
        list_change(vec![ListOp::Modify(IntChange::Add(11).into()), ListOp::Delete(2)])
    );
    assert_eq!(
        apply(&base, &combined).unwrap(),
        Value::list(vec![Value::integer(12), Value::integer(4)])
    );
}

#[test]
fn list_insert_then_delete_of_the_insert_is_the_identity() {
    let first = list_change(vec![ListOp::Insert(vec![Value::integer(1), Value::integer(2)])]);
    let second = list_change(vec![ListOp::Delete(2)]);
    assert_eq!(first.compose(&second).unwrap(), Change::noop());
}

#[test]
fn list_insert_then_inapplicable_modify_fails() {
    let first = list_change(vec![ListOp::Insert(vec![Value::string("a")])]);
    let second = list_change(vec![ListOp::Modify(IntChange::Add(1).into())]);
    assert!(matches!(
        first.compose(&second),
        Err(ComposeError::Apply(ApplyError::TypeMismatch { .. }))
    ));
}

#[test]
fn nested_text_changes_compose_inside_a_list() {
    let base = Value::list(vec![Value::text("ab")]);
    let first = list_change(vec![ListOp::Modify(text_change(vec![
        TextOp::Retain(1),
        TextOp::Insert("X".into()),
    ]))]);
    let second = list_change(vec![ListOp::Modify(text_change(vec![
        TextOp::Retain(3),
        TextOp::Insert("Y".into()),
    ]))]);
    let combined = assert_sequential(&base, &first, &second);
    match combined.kind() {
        ChangeKind::List(list) => assert_eq!(list.ops().len(), 1),
        _ => panic!("expected a List change"),
    }
    assert_eq!(
        combined.apply_to(&base).unwrap(),
        Value::list(vec![Value::text("aXbY")])
    );
}

#[test]
fn cloned_changes_are_equal() {
    let change = map_change(vec![edit(
        "items",
        MapEntryChange::Modify(list_change(vec![
            ListOp::Retain(2),
            ListOp::Insert(vec![Value::integer(1)]),
        ])),
    )]);
    assert_eq!(change.clone(), change);
}
