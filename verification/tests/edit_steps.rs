use colla::{
    edit_steps, ApplyError, Change, EditStep, IntChange, ListChange, ListEditStep, ListOp,
    MapChange, MapEntryChange, Path, TextChange, TextEditStep, TextOp, Value,
};

fn edit(key: &str, change: MapEntryChange) -> (String, MapEntryChange) {
    (key.to_string(), change)
}

#[test]
fn map_steps_are_located_at_their_keys() {
    let base = Value::map(vec![
        ("a".to_string(), Value::integer(1)),
        ("t".to_string(), Value::text("hi")),
    ])
    .unwrap();
    let change = Change::from(
        MapChange::from_entries(vec![
            edit("a", MapEntryChange::Delete),
            edit("b", MapEntryChange::Insert(Value::bool(false))),
            edit(
                "t",
                MapEntryChange::Modify(
                    TextChange::from_ops(vec![TextOp::Retain(2), TextOp::Insert("!".into())])
                        .unwrap()
                        .into(),
                ),
            ),
        ])
        .unwrap(),
    );
    assert_eq!(
        edit_steps(&change, &base).unwrap(),
        vec![
            EditStep::MapDelete { path: Path::new().with_key("a") },
            EditStep::MapInsert { path: Path::new().with_key("b"), value: Value::bool(false) },
            EditStep::Text {
                path: Path::new().with_key("t"),
                ops: vec![TextEditStep::Retain(2), TextEditStep::Insert("!".into())],
            },
        ]
    );
}

#[test]
fn list_steps_nest_modifications_from_their_element() {
    let base = Value::list(vec![Value::integer(1), Value::integer(2)]);
    let change = Change::from(
        ListChange::from_ops(vec![
            ListOp::Delete(1),
            ListOp::Insert(vec![Value::null()]),
            ListOp::Modify(IntChange::Add(3).into()),
        ])
        .unwrap(),
    );
    let steps = edit_steps(&change, &base).unwrap();
    assert_eq!(steps.len(), 1);
    match &steps[0] {
        EditStep::List { path, ops } => {
            assert_eq!(*path, Path::new());
            assert_eq!(ops.len(), 3);
            assert_eq!(ops[0], ListEditStep::Insert(vec![Value::null()]));
            assert_eq!(ops[1], ListEditStep::Delete(1));
            assert_eq!(
                ops[2],
                ListEditStep::Modify(vec![EditStep::Int { path: Path::new(), delta: 3 }])
            );
        }
        other => panic!("expected a List step, got {:?}", other),
    }
}

#[test]
fn text_step_lengths_count_utf16_units() {
    let base = Value::text("😀a😀");
    let change = Change::from(
        TextChange::from_ops(vec![TextOp::Retain(2), TextOp::Delete(1)]).unwrap(),
    );
    assert_eq!(
        edit_steps(&change, &base).unwrap(),
        vec![EditStep::Text {
            path: Path::new(),
            ops: vec![TextEditStep::Retain(3), TextEditStep::Delete(2)],
        }]
    );
}

#[test]
fn edit_steps_of_replace_int_noop_and_failures() {
    let base = Value::integer(4);
    assert_eq!(edit_steps(&Change::noop(), &base).unwrap(), vec![]);
    assert_eq!(
        edit_steps(&Change::replace(Value::string("s")), &base).unwrap(),
        vec![EditStep::Replace { path: Path::new(), value: Value::string("s") }]
    );
    let add: Change = IntChange::Add(-4).into();
    assert_eq!(
        edit_steps(&add, &base).unwrap(),
        vec![EditStep::Int { path: Path::new(), delta: -4 }]
    );
    let too_far = Change::from(ListChange::from_ops(vec![ListOp::Delete(1)]).unwrap());
    assert!(matches!(edit_steps(&too_far, &base), Err(ApplyError::TypeMismatch { .. })));
}
