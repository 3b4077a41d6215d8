use colla::engine::{Body, Change, Destination, Editor, Operation, Segment, Value};
use colla::{ErrorCode, IdAllocator};

fn setup(a: &mut IdAllocator) -> (Value, Value, Value) {
    let count = Value::with_allocator(Body::Int(1), a).unwrap();
    let items = Value::with_allocator(Body::List(vec![]), a).unwrap();
    let root = Value::with_allocator(
        Body::KeyMap(vec![("count".to_owned(), count.copy()), ("items".to_owned(), items.copy())]),
        a,
    )
    .unwrap();
    (root, count, items)
}

fn add(target: &Value, delta: i64) -> Change {
    Change::new(vec![Operation::Add { target: target.id(), delta }]).unwrap()
}

fn int_of(v: &Value) -> i64 {
    match v.body() {
        Body::Int(n) => *n,
        other => panic!("not an int: {other:?}"),
    }
}

#[test]
fn undo_and_redo_restore_local_edits() {
    let mut a = IdAllocator::deterministic([11; 16]);
    let (root, count, _) = setup(&mut a);
    let editor = Editor::create(root.copy(), 10).unwrap();
    assert!(!editor.can_undo());
    let (editor, result) = editor.edit(&add(&count, 5), None).unwrap();
    assert_eq!(result.unwrap().version, 1);
    assert!(editor.can_undo());
    let (editor, undone) = editor.undo().unwrap();
    assert!(undone.is_some());
    assert!(editor.value().same_value(&root));
    assert!(editor.can_redo());
    let (editor, redone) = editor.redo().unwrap();
    assert!(redone.is_some());
    assert_eq!(int_of(&editor.value().get(count.id()).unwrap()), 6);
    let (editor, nothing) = editor.redo().unwrap();
    assert!(nothing.is_none());
    assert_eq!(editor.version(), 3);
}

#[test]
fn grouped_edits_undo_together() {
    let mut a = IdAllocator::deterministic([12; 16]);
    let (root, count, _) = setup(&mut a);
    let editor = Editor::create(root.copy(), 10).unwrap();
    let (editor, _) = editor.edit(&add(&count, 1), Some("typing".to_owned())).unwrap();
    let (editor, _) = editor.edit(&add(&count, 2), Some("typing".to_owned())).unwrap();
    let (editor, _) = editor.undo().unwrap();
    assert!(editor.value().same_value(&root));
    assert!(!editor.can_undo());
}

#[test]
fn undo_keeps_remote_work() {
    let mut a = IdAllocator::deterministic([13; 16]);
    let (root, count, items) = setup(&mut a);
    let editor = Editor::create(root.copy(), 10).unwrap();
    let (editor, _) = editor.edit(&add(&count, 5), None).unwrap();
    let x = Value::with_allocator(Body::Int(9), &mut a).unwrap();
    let remote = Change::new(vec![Operation::Insert {
        destination: Destination { parent: items.id(), slot: Segment::Index(0) },
        value: x.copy(),
    }])
    .unwrap();
    let (editor, shown) = editor.apply_remote(&remote).unwrap();
    assert!(shown.is_some());
    let (editor, _) = editor.undo().unwrap();
    assert_eq!(int_of(&editor.value().get(count.id()).unwrap()), 1);
    assert!(editor.value().has(x.id()));
}

#[test]
fn capacity_is_bounded_and_clear_empties_history() {
    let mut a = IdAllocator::deterministic([14; 16]);
    let (root, count, _) = setup(&mut a);
    assert_eq!(Editor::create(root.copy(), 0).unwrap_err().code, ErrorCode::InvalidArgument);
    let editor = Editor::create(root.copy(), 1).unwrap();
    let (editor, _) = editor.edit(&add(&count, 1), None).unwrap();
    let (editor, _) = editor.edit(&add(&count, 1), None).unwrap();
    let (editor, _) = editor.undo().unwrap();
    assert_eq!(int_of(&editor.value().get(count.id()).unwrap()), 2);
    assert!(!editor.can_undo());
    let cleared = editor.clear();
    assert!(!cleared.can_redo());
}
