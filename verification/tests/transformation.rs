use colla::{
    transform_pair, Change, ChangeKind, IntChange, ListChange, ListOp, MapChange, MapEntryChange,
    TextChange, TextOp, TieBreak, TransformError, Value,
};

fn assert_tp1(base: &Value, a: &Change, b: &Change) {
    let (ap, bp) = transform_pair(a, b, TieBreak::LeftFirst).unwrap();
    let left = bp.apply_to(&a.apply_to(base).unwrap()).unwrap();
    let right = ap.apply_to(&b.apply_to(base).unwrap()).unwrap();
    assert_eq!(left, right);
}

fn edit(key: &str, change: MapEntryChange) -> (String, MapEntryChange) {
    (key.to_string(), change)
}

#[test]
fn list_tp1_modify_delete() {
    let base = Value::list(vec![Value::integer(1), Value::integer(2)]);
    let a = Change::from(ListChange::from_ops(vec![ListOp::Delete(1)]).unwrap());
    let b =
        Change::from(ListChange::from_ops(vec![ListOp::Modify(IntChange::Add(4).into())]).unwrap());
    assert_tp1(&base, &a, &b);
}

#[test]
fn map_insert_conflict_uses_tie_break() {
    let base = Value::map(vec![]).unwrap();
    let a = Change::from(
        MapChange::from_entries(vec![edit("x", MapEntryChange::Insert(Value::integer(1)))]).unwrap(),
    );
    let b = Change::from(
        MapChange::from_entries(vec![edit("x", MapEntryChange::Insert(Value::integer(2)))]).unwrap(),
    );
    assert_tp1(&base, &a, &b);
    let (ap, _) = transform_pair(&a, &b, TieBreak::LeftFirst).unwrap();
    let result = ap.apply_to(&b.apply_to(&base).unwrap()).unwrap();
    assert_eq!(result.as_map().unwrap().get("x"), Some(&Value::integer(1)));
}

#[test]
fn right_first_tie_keeps_the_right_insert() {
    let base = Value::map(vec![]).unwrap();
    let a = Change::from(
        MapChange::from_entries(vec![edit("x", MapEntryChange::Insert(Value::integer(1)))]).unwrap(),
    );
    let b = Change::from(
        MapChange::from_entries(vec![edit("x", MapEntryChange::Insert(Value::integer(2)))]).unwrap(),
    );
    let (ap, bp) = transform_pair(&a, &b, TieBreak::RightFirst).unwrap();
    assert_eq!(ap, Change::noop());
    let left = bp.apply_to(&a.apply_to(&base).unwrap()).unwrap();
    assert_eq!(left.as_map().unwrap().get("x"), Some(&Value::integer(2)));
}

#[test]
fn concurrent_list_inserts_are_ordered_by_the_tie_break() {
    let base = Value::list(vec![Value::integer(0)]);
    let a = Change::from(
        ListChange::from_ops(vec![ListOp::Retain(1), ListOp::Insert(vec![Value::integer(1)])]).unwrap(),
    );
    let b = Change::from(
        ListChange::from_ops(vec![ListOp::Retain(1), ListOp::Insert(vec![Value::integer(2)])]).unwrap(),
    );
    for tie in [TieBreak::LeftFirst, TieBreak::RightFirst] {
        let (ap, bp) = transform_pair(&a, &b, tie).unwrap();
        let left = bp.apply_to(&a.apply_to(&base).unwrap()).unwrap();
        let right = ap.apply_to(&b.apply_to(&base).unwrap()).unwrap();
        assert_eq!(left, right);
        let expected = match tie {
            TieBreak::LeftFirst => vec![Value::integer(0), Value::integer(1), Value::integer(2)],
            TieBreak::RightFirst => vec![Value::integer(0), Value::integer(2), Value::integer(1)],
        };
        assert_eq!(left, Value::list(expected));
    }
}

#[test]
fn concurrent_deletes_and_modifications_converge() {
    let base = Value::list(vec![Value::integer(1), Value::integer(2), Value::integer(3)]);
    let a = Change::from(
        ListChange::from_ops(vec![
            ListOp::Modify(IntChange::Add(10).into()),
            ListOp::Delete(2),
        ])
        .unwrap(),
    );
    let b = Change::from(
        ListChange::from_ops(vec![
            ListOp::Delete(1),
            ListOp::Modify(IntChange::Add(5).into()),
        ])
        .unwrap(),
    );
    assert_tp1(&base, &a, &b);
    let (ap, bp) = transform_pair(&a, &b, TieBreak::LeftFirst).unwrap();
    assert_eq!(ap, Change::from(ListChange::from_ops(vec![ListOp::Delete(2)]).unwrap()));
    assert_eq!(bp, Change::from(ListChange::from_ops(vec![ListOp::Delete(1)]).unwrap()));
}

#[test]
fn concurrent_int_additions_both_apply() {
    let a: Change = IntChange::Add(2).into();
    let b: Change = IntChange::Add(3).into();
    assert_tp1(&Value::integer(1), &a, &b);
    assert_eq!(transform_pair(&a, &b, TieBreak::LeftFirst).unwrap(), (a.clone(), b.clone()));
}

#[test]
fn replacement_wins_over_edits_and_ties_between_replacements() {
    let r1 = Change::replace(Value::integer(1));
    let r2 = Change::replace(Value::integer(2));
    let add: Change = IntChange::Add(3).into();
    assert_eq!(
        transform_pair(&r1, &add, TieBreak::RightFirst).unwrap(),
        (r1.clone(), Change::noop())
    );
    assert_eq!(
        transform_pair(&add, &r2, TieBreak::LeftFirst).unwrap(),
        (Change::noop(), r2.clone())
    );
    assert_eq!(
        transform_pair(&r1, &r2, TieBreak::LeftFirst).unwrap(),
        (r1.clone(), Change::noop())
    );
    assert_eq!(
        transform_pair(&r1, &r2, TieBreak::RightFirst).unwrap(),
        (Change::noop(), r2.clone())
    );
}

#[test]
fn map_modifications_transform_per_key_and_conflicts_fail() {
    let base = Value::map(vec![("t".to_string(), Value::text("ab"))]).unwrap();
    let text = |ops: Vec<TextOp>| -> Change { TextChange::from_ops(ops).unwrap().into() };
    let a = Change::from(
        MapChange::from_entries(vec![edit(
            "t",
            MapEntryChange::Modify(text(vec![TextOp::Insert("X".into())])),
        )])
        .unwrap(),
    );
    let b = Change::from(
        MapChange::from_entries(vec![edit(
            "t",
            MapEntryChange::Modify(text(vec![TextOp::Retain(2), TextOp::Insert("Y".into())])),
        )])
        .unwrap(),
    );
    assert_tp1(&base, &a, &b);
    let del = Change::from(MapChange::from_entries(vec![edit("t", MapEntryChange::Delete)]).unwrap());
    let (ap, bp) = transform_pair(&del, &a, TieBreak::LeftFirst).unwrap();
    assert_eq!(ap, del);
    assert_eq!(bp, Change::noop());
    let ins = Change::from(
        MapChange::from_entries(vec![edit("t", MapEntryChange::Insert(Value::null()))]).unwrap(),
    );
    assert_eq!(
        transform_pair(&ins, &del, TieBreak::LeftFirst),
        Err(TransformError::IncompatibleMapEntry("t".to_string()))
    );
    assert!(matches!(
        transform_pair(&a, &Change::from(IntChange::Add(1)), TieBreak::LeftFirst),
        Err(TransformError::IncompatibleKinds { left: "Map", right: "Int" })
    ));
    assert!(matches!(ap.kind(), ChangeKind::KeyMap(_)));
}
