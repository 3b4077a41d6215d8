use colla::engine::{apply, compose, invert, Body, Change, Destination, Operation, Ref, Segment, Value};
use colla::{ErrorCode, IdAllocator, TextChange, TextOp};

fn ids() -> IdAllocator {
    IdAllocator::deterministic([7; 16])
}

fn node(a: &mut IdAllocator, body: Body) -> Value {
    Value::with_allocator(body, a).unwrap()
}

fn map(a: &mut IdAllocator, entries: Vec<(&str, Value)>) -> Value {
    let entries = entries.into_iter().map(|(k, v)| (k.to_owned(), v)).collect();
    node(a, Body::KeyMap(entries))
}

fn one(op: Operation) -> Change {
    Change::new(vec![op]).unwrap()
}

fn at(parent: &Value, slot: Segment) -> Destination {
    Destination { parent: parent.id(), slot }
}

fn text_of(v: &Value) -> String {
    match v.body() {
        Body::Text(s) => s.clone(),
        other => panic!("not text: {other:?}"),
    }
}

fn int_of(v: &Value) -> i64 {
    match v.body() {
        Body::Int(n) => *n,
        other => panic!("not an int: {other:?}"),
    }
}

fn list_ids(v: &Value) -> Vec<colla::ElementId> {
    match v.body() {
        Body::List(items) => items.iter().map(|c| c.id()).collect(),
        other => panic!("not a list: {other:?}"),
    }
}

#[test]
fn moves_keep_descendants_and_inverses_restore_the_base() {
    let mut a = ids();
    let title = node(&mut a, Body::Text("draft".to_owned()));
    let title_id = title.id();
    let block = map(&mut a, vec![("title", title)]);
    let block_id = block.id();
    let active = node(&mut a, Body::List(vec![block]));
    let archive = node(&mut a, Body::List(vec![]));
    let archive_id = archive.id();
    let featured = node(&mut a, Body::Ref(Ref { target: block_id }));
    let root = map(&mut a, vec![("active", active), ("archive", archive.copy()), ("featured", featured)]);

    let movement = one(Operation::Move { target: block_id, destination: at(&archive, Segment::Index(0)) });
    let edit = one(Operation::Text {
        target: title_id,
        change: TextChange::from_ops(vec![TextOp::Retain(5), TextOp::Insert("!".to_owned())]).unwrap(),
    });
    let moved = apply(&root, &movement).unwrap();
    assert_eq!(list_ids(&moved.get(archive_id).unwrap()), vec![block_id]);
    let result = apply(&moved, &edit).unwrap();
    assert_eq!(text_of(&result.get(title_id).unwrap()), "draft!");

    let back = apply(&moved, &invert(&root, &movement).unwrap()).unwrap();
    assert!(back.same_value(&root));

    let sequence = compose(&root, &movement, &edit).unwrap();
    assert_eq!(sequence.operations().len(), 2);
    assert!(apply(&root, &sequence).unwrap().same_value(&result));
    let undone = apply(&result, &invert(&root, &sequence).unwrap()).unwrap();
    assert!(undone.same_value(&root));
}

#[test]
fn adding_the_minimum_inverts_in_two_steps() {
    let mut a = ids();
    let root = node(&mut a, Body::Int(0));
    let add = one(Operation::Add { target: root.id(), delta: i64::MIN });
    let result = apply(&root, &add).unwrap();
    assert_eq!(int_of(&result), i64::MIN);
    let inverse = invert(&root, &add).unwrap();
    assert_eq!(inverse.operations().len(), 2);
    assert!(apply(&result, &inverse).unwrap().same_value(&root));
}

#[test]
fn structural_errors_leave_the_base_unchanged() {
    let mut a = ids();
    let inner = node(&mut a, Body::List(vec![]));
    let inner_id = inner.id();
    let outer = node(&mut a, Body::List(vec![inner]));
    let other = node(&mut a, Body::Int(1));
    let root = map(&mut a, vec![("b", other), ("outer", outer.copy())]);

    let into_itself = one(Operation::Move {
        target: outer.id(),
        destination: Destination { parent: inner_id, slot: Segment::Index(0) },
    });
    assert_eq!(apply(&root, &into_itself).unwrap_err().code, ErrorCode::StructuralConflict);

    let collision = one(Operation::Move {
        target: inner_id,
        destination: at(&root, Segment::Key("b".to_owned())),
    });
    assert_eq!(apply(&root, &collision).unwrap_err().code, ErrorCode::StructuralConflict);

    let root_move = one(Operation::Move { target: root.id(), destination: at(&outer, Segment::Index(0)) });
    assert_eq!(apply(&root, &root_move).unwrap_err().code, ErrorCode::InvalidArgument);

    let far = one(Operation::Move { target: inner_id, destination: at(&outer, Segment::Index(5)) });
    assert_eq!(apply(&root, &far).unwrap_err().code, ErrorCode::OutOfBounds);
}

#[test]
fn scalar_operations_check_their_targets() {
    let mut a = ids();
    let count = node(&mut a, Body::Int(i64::MAX));
    let count_id = count.id();
    let root = map(&mut a, vec![("count", count)]);
    let overflow = one(Operation::Add { target: count_id, delta: 1 });
    assert_eq!(apply(&root, &overflow).unwrap_err().code, ErrorCode::IntegerOverflow);
    let text = one(Operation::Text {
        target: count_id,
        change: TextChange::from_ops(vec![TextOp::Insert("x".to_owned())]).unwrap(),
    });
    assert_eq!(apply(&root, &text).unwrap_err().code, ErrorCode::TypeMismatch);
    let stranger = IdAllocator::deterministic([9; 16]).allocate().unwrap();
    let missing = one(Operation::Delete { target: stranger });
    assert_eq!(apply(&root, &missing).unwrap_err().code, ErrorCode::MissingKey);
    let down = one(Operation::Add { target: count_id, delta: -2 });
    assert_eq!(int_of(&apply(&root, &down).unwrap().get(count_id).unwrap()), i64::MAX - 2);
}

#[test]
fn insert_and_delete_edit_owning_containers() {
    let mut a = ids();
    let list = node(&mut a, Body::List(vec![]));
    let list_id = list.id();
    let root = map(&mut a, vec![("items", list.copy())]);
    let item = node(&mut a, Body::Text("hi".to_owned()));
    let item_id = item.id();
    let insert = one(Operation::Insert { destination: at(&list, Segment::Index(0)), value: item.copy() });
    let after = apply(&root, &insert).unwrap();
    assert_eq!(list_ids(&after.get(list_id).unwrap()), vec![item_id]);
    let again = apply(&after, &insert).unwrap_err();
    assert_eq!(again.code, ErrorCode::InvalidValue);
    let delete = one(Operation::Delete { target: item_id });
    let gone = apply(&after, &delete).unwrap();
    assert!(gone.same_value(&root));
    let restore = invert(&after, &delete).unwrap();
    assert!(apply(&gone, &restore).unwrap().same_value(&after));
    let key = one(Operation::Insert {
        destination: at(&root, Segment::Key("extra".to_owned())),
        value: item,
    });
    let keyed = apply(&root, &key).unwrap();
    assert_eq!(text_of(&keyed.get(item_id).unwrap()), "hi");
}

#[test]
fn canonical_changes_drop_no_ops_and_check_assignments() {
    let mut a = ids();
    let count = node(&mut a, Body::Int(1));
    let other = node(&mut a, Body::Int(2));
    let change = Change::new(vec![
        Operation::Add { target: count.id(), delta: 0 },
        Operation::Text { target: count.id(), change: TextChange::from_ops(vec![]).unwrap() },
    ])
    .unwrap();
    assert!(change.is_noop());
    let mismatch = Change::new(vec![Operation::Assign { target: count.id(), value: other }]);
    assert_eq!(mismatch.unwrap_err().code, ErrorCode::InvalidValue);
    assert!(Change::noop().is_noop());
}

#[test]
fn composition_merges_adds_and_drops_cancelling_runs() {
    let mut a = ids();
    let count = node(&mut a, Body::Int(10));
    let id = count.id();
    let root = map(&mut a, vec![("count", count)]);
    let up = one(Operation::Add { target: id, delta: 5 });
    let more = one(Operation::Add { target: id, delta: 7 });
    let merged = compose(&root, &up, &more).unwrap();
    assert_eq!(merged.operations().len(), 1);
    match &merged.operations()[0] {
        Operation::Add { delta, .. } => assert_eq!(*delta, 12),
        other => panic!("unexpected {other:?}"),
    }
    let down = one(Operation::Add { target: id, delta: -5 });
    assert!(compose(&root, &up, &down).unwrap().is_noop());
    let over = one(Operation::Add { target: id, delta: i64::MAX });
    assert_eq!(compose(&root, &up, &over).unwrap_err().code, ErrorCode::IntegerOverflow);
}

#[test]
fn values_reject_duplicate_identities() {
    let mut a = ids();
    let child = node(&mut a, Body::Null);
    let id = a.allocate().unwrap();
    let twice = Value::with_id(id, Body::List(vec![child.copy(), child]));
    assert_eq!(twice.unwrap_err().code, ErrorCode::InvalidValue);
    let own = Value::with_id(id, Body::List(vec![Value::with_id(id, Body::Null).unwrap()]));
    assert_eq!(own.unwrap_err().code, ErrorCode::InvalidValue);
}

#[test]
fn maps_must_hold_their_keys_in_order() {
    let mut a = ids();
    let x = node(&mut a, Body::Null);
    let y = node(&mut a, Body::Null);
    let id = a.allocate().unwrap();
    let unsorted = Value::with_id(id, Body::KeyMap(vec![("b".to_owned(), x), ("a".to_owned(), y)]));
    assert_eq!(unsorted.unwrap_err().code, ErrorCode::InvalidValue);
}

#[test]
fn lookups_by_identity_and_by_path() {
    let mut a = ids();
    let leaf = node(&mut a, Body::Bool(true));
    let leaf_id = leaf.id();
    let list = node(&mut a, Body::List(vec![leaf]));
    let root = map(&mut a, vec![("items", list)]);
    assert_eq!(root.kind(), "map");
    assert!(root.has(leaf_id));
    assert_eq!(root.find(leaf_id).unwrap().kind(), "bool");
    let path = root.path_of(leaf_id).unwrap();
    assert_eq!(path, vec![Segment::Key("items".to_owned()), Segment::Index(0)]);
    assert_eq!(root.id_at(&path).unwrap(), leaf_id);
    let far = vec![Segment::Key("items".to_owned()), Segment::Index(3)];
    assert_eq!(root.id_at(&far).unwrap_err().code, ErrorCode::OutOfBounds);
    let absent = vec![Segment::Key("nothing".to_owned())];
    assert_eq!(root.get_path(&absent).unwrap_err().code, ErrorCode::MissingKey);
    let wrong = vec![Segment::Index(0)];
    assert_eq!(root.get_path(&wrong).unwrap_err().code, ErrorCode::TypeMismatch);
    assert!(root.resolve(Ref { target: leaf_id }).is_some());
    let stranger = IdAllocator::deterministic([1; 16]).allocate().unwrap();
    assert!(root.resolve(Ref { target: stranger }).is_none());
    assert!(root.path_of(stranger).is_none());
}

#[test]
fn assignments_keep_identity_and_invert() {
    let mut a = ids();
    let count = node(&mut a, Body::Int(3));
    let id = count.id();
    let root = map(&mut a, vec![("count", count)]);
    let replacement = Value::with_id(id, Body::String("three".to_owned())).unwrap();
    let assign = one(Operation::Assign { target: id, value: replacement });
    let after = apply(&root, &assign).unwrap();
    assert_eq!(after.get(id).unwrap().kind(), "string");
    let back = apply(&after, &invert(&root, &assign).unwrap()).unwrap();
    assert!(back.same_value(&root));
    assert!(!after.same_value(&root));
}

#[test]
fn multi_operation_in_place_changes_invert_and_compose() {
    let mut a = ids();
    let count = node(&mut a, Body::Int(5));
    let count_id = count.id();
    let label = node(&mut a, Body::String("old".to_owned()));
    let label_id = label.id();
    let root = map(&mut a, vec![("count", count), ("label", label)]);
    let first = Change::new(vec![
        Operation::Add { target: count_id, delta: 3 },
        Operation::Assign {
            target: label_id,
            value: Value::with_id(label_id, Body::String("mid".to_owned())).unwrap(),
        },
    ])
    .unwrap();
    let second = Change::new(vec![
        Operation::Assign {
            target: label_id,
            value: Value::with_id(label_id, Body::String("new".to_owned())).unwrap(),
        },
        Operation::Add { target: count_id, delta: i64::MIN },
    ])
    .unwrap();
    let after_first = apply(&root, &first).unwrap();
    let after_both = apply(&after_first, &second).unwrap();
    assert_eq!(int_of(&after_both.get(count_id).unwrap()), 8 + i64::MIN);
    let composed = compose(&root, &first, &second).unwrap();
    assert_eq!(composed.operations().len(), 3);
    assert!(apply(&root, &composed).unwrap().same_value(&after_both));
    let undo = invert(&after_first, &second).unwrap();
    assert_eq!(undo.operations().len(), 3);
    assert!(apply(&after_both, &undo).unwrap().same_value(&after_first));
    let undo_all = invert(&root, &composed).unwrap();
    assert!(apply(&after_both, &undo_all).unwrap().same_value(&root));
}

#[test]
fn text_edits_merge_in_composition_and_invert() {
    let mut a = ids();
    let text = node(&mut a, Body::Text("héllo".to_owned()));
    let id = text.id();
    let root = map(&mut a, vec![("t", text)]);
    let first = one(Operation::Text {
        target: id,
        change: TextChange::from_ops(vec![TextOp::Retain(5), TextOp::Insert(" wörld".to_owned())]).unwrap(),
    });
    let second = one(Operation::Text {
        target: id,
        change: TextChange::from_ops(vec![TextOp::Delete(1), TextOp::Insert("H".to_owned())]).unwrap(),
    });
    let expected = apply(&apply(&root, &first).unwrap(), &second).unwrap();
    assert_eq!(text_of(&expected.get(id).unwrap()), "Héllo wörld");
    let merged = compose(&root, &first, &second).unwrap();
    assert_eq!(merged.operations().len(), 1);
    assert!(apply(&root, &merged).unwrap().same_value(&expected));
    let undo = invert(&root, &merged).unwrap();
    assert!(apply(&expected, &undo).unwrap().same_value(&root));
    let too_far = one(Operation::Text {
        target: id,
        change: TextChange::from_ops(vec![TextOp::Delete(9)]).unwrap(),
    });
    assert_eq!(apply(&root, &too_far).unwrap_err().code, ErrorCode::OutOfBounds);
    assert_eq!(invert(&root, &too_far).unwrap_err().code, ErrorCode::IncompatibleChange);
}

#[test]
fn repeated_moves_compose_into_one_and_invert() {
    let mut a = ids();
    let item = node(&mut a, Body::Int(1));
    let item_id = item.id();
    let other = node(&mut a, Body::Int(2));
    let left = node(&mut a, Body::List(vec![item, other]));
    let middle = node(&mut a, Body::List(vec![]));
    let right = node(&mut a, Body::List(vec![]));
    let root = map(&mut a, vec![("l", left.copy()), ("m", middle.copy()), ("r", right.copy())]);
    let first = one(Operation::Move { target: item_id, destination: at(&middle, Segment::Index(0)) });
    let second = one(Operation::Move { target: item_id, destination: at(&right, Segment::Index(0)) });
    let expected = apply(&apply(&root, &first).unwrap(), &second).unwrap();
    assert_eq!(list_ids(&expected.get(right.id()).unwrap()), vec![item_id]);
    assert_eq!(list_ids(&expected.get(middle.id()).unwrap()), vec![]);
    let merged = compose(&root, &first, &second).unwrap();
    assert_eq!(merged.operations().len(), 1);
    assert!(apply(&root, &merged).unwrap().same_value(&expected));
    let undo = invert(&root, &merged).unwrap();
    assert!(apply(&expected, &undo).unwrap().same_value(&root));
    let back = one(Operation::Move { target: item_id, destination: at(&left, Segment::Index(0)) });
    assert!(compose(&root, &first, &invert(&root, &first).unwrap()).unwrap().is_noop());
    let round = compose(&root, &second, &back).unwrap();
    assert!(round.is_noop());
}
