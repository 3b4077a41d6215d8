use colla::engine::{apply, compose, invert, transform, Body, Change, Destination, Operation, Priority, Ref, Segment, Value};
use colla::{ErrorCode, IdAllocator, TextChange, TextOp};

struct Ids(IdAllocator);

impl Ids {
    fn new() -> Ids {
        Ids(IdAllocator::deterministic([5; 16]))
    }
    fn make(&mut self, body: Body) -> Value {
        Value::with_allocator(body, &mut self.0).unwrap()
    }
    fn integer(&mut self, n: i64) -> Value {
        self.make(Body::Int(n))
    }
    fn text(&mut self, s: &str) -> Value {
        self.make(Body::Text(s.to_owned()))
    }
    fn list(&mut self, values: Vec<Value>) -> Value {
        self.make(Body::List(values))
    }
    fn map(&mut self, entries: Vec<(&str, Value)>) -> Value {
        let mut entries: Vec<(String, Value)> = entries.into_iter().map(|(k, v)| (k.to_owned(), v)).collect();
        entries.sort_by(|a, b| a.0.cmp(&b.0));
        self.make(Body::KeyMap(entries))
    }
}

fn change(op: Operation) -> Change {
    Change::new(vec![op]).unwrap()
}

fn key(parent: &Value, name: &str) -> Destination {
    Destination { parent: parent.id(), slot: Segment::Key(name.to_owned()) }
}

fn index(parent: &Value, i: usize) -> Destination {
    Destination { parent: parent.id(), slot: Segment::Index(i) }
}

fn tp1(base: &Value, left: &Change, right: &Change) -> Value {
    for priority in [Priority::Left, Priority::Right] {
        let (l, r) = transform(base, left, right, priority).unwrap();
        let a = apply(&apply(base, left).unwrap(), &r).unwrap();
        let b = apply(&apply(base, right).unwrap(), &l).unwrap();
        assert!(a.same_value(&b));
    }
    let (_, r) = transform(base, left, right, Priority::Left).unwrap();
    apply(&apply(base, left).unwrap(), &r).unwrap()
}

fn int_of(v: &Value) -> i64 {
    match v.body() {
        Body::Int(n) => *n,
        other => panic!("not an int: {other:?}"),
    }
}

#[test]
fn moves_preserve_descendants_references_and_inverse() {
    let mut ids = Ids::new();
    let title = ids.text("draft");
    let block = ids.map(vec![("title", title.copy())]);
    let active = ids.list(vec![block.copy()]);
    let archive = ids.list(vec![]);
    let featured = ids.make(Body::Ref(Ref { target: block.id() }));
    let root = ids.map(vec![("active", active), ("archive", archive.copy()), ("featured", featured)]);
    let movement = change(Operation::Move { target: block.id(), destination: index(&archive, 0) });
    let edit = change(Operation::Text {
        target: title.id(),
        change: TextChange::from_ops(vec![TextOp::Retain(5), TextOp::Insert("!".into())]).unwrap(),
    });
    let result = tp1(&root, &movement, &edit);
    let moved = result.resolve(Ref { target: block.id() }).unwrap();
    match moved.get(title.id()).unwrap().body() {
        Body::Text(s) => assert_eq!(s, "draft!"),
        other => panic!("not text: {other:?}"),
    }
    assert!(apply(&apply(&root, &movement).unwrap(), &invert(&root, &movement).unwrap()).unwrap().same_value(&root));
    let sequence = compose(&root, &movement, &edit).unwrap();
    assert!(apply(&root, &sequence).unwrap().same_value(&result));
    assert!(apply(&result, &invert(&root, &sequence).unwrap()).unwrap().same_value(&root));
}

#[test]
fn deleted_baseline_ancestor_wins_over_escape() {
    let mut ids = Ids::new();
    let child = ids.text("kept by identity");
    let parent = ids.map(vec![("child", child.copy())]);
    let root = ids.map(vec![("parent", parent.copy())]);
    let escape = change(Operation::Move { target: child.id(), destination: key(&root, "escaped") });
    let deletion = change(Operation::Delete { target: parent.id() });
    let result = tp1(&root, &escape, &deletion);
    assert!(!result.has(child.id()));
    assert!(!result.has(parent.id()));
}

#[test]
fn move_competition_preserves_other_edits() {
    let mut ids = Ids::new();
    let child = ids.integer(1);
    let a = ids.list(vec![child.copy()]);
    let b = ids.list(vec![]);
    let c = ids.list(vec![]);
    let root = ids.map(vec![("a", a), ("b", b.copy()), ("c", c.copy())]);
    let left = change(Operation::Move { target: child.id(), destination: index(&b, 0) });
    let right = Change::new(vec![
        Operation::Move { target: child.id(), destination: index(&c, 0) },
        Operation::Add { target: child.id(), delta: 2 },
    ])
    .unwrap();
    let result = tp1(&root, &left, &right);
    assert_eq!(int_of(&result.get(child.id()).unwrap()), 3);
    match result.get(b.id()).unwrap().body() {
        Body::List(items) => {
            assert_eq!(items.len(), 1);
            assert_eq!(items[0].id(), child.id());
        },
        other => panic!("not a list: {other:?}"),
    }
}

#[test]
fn cycles_and_map_collisions_are_atomic_conflicts() {
    let mut ids = Ids::new();
    let a = ids.list(vec![]);
    let b = ids.list(vec![]);
    let root = ids.map(vec![("a", a.copy()), ("b", b.copy())]);
    let left = change(Operation::Move { target: a.id(), destination: index(&b, 0) });
    let right = change(Operation::Move { target: b.id(), destination: index(&a, 0) });
    assert_eq!(transform(&root, &left, &right, Priority::Left).unwrap_err().code, ErrorCode::StructuralConflict);
    let left = change(Operation::Move { target: a.id(), destination: key(&root, "same") });
    let right = change(Operation::Move { target: b.id(), destination: key(&root, "same") });
    assert_eq!(transform(&root, &left, &right, Priority::Right).unwrap_err().code, ErrorCode::StructuralConflict);
    assert!(root.get(a.id()).unwrap().same_value(&a));
}

#[test]
fn all_pairs_of_single_list_moves_converge() {
    let mut ids = Ids::new();
    let values: Vec<Value> = (0..5).map(|n| ids.integer(n)).collect();
    let root = ids.list(values.iter().map(|v| v.copy()).collect());
    for a in &values {
        for ai in 0..5 {
            for b in &values {
                for bi in 0..5 {
                    tp1(
                        &root,
                        &change(Operation::Move { target: a.id(), destination: index(&root, ai) }),
                        &change(Operation::Move { target: b.id(), destination: index(&root, bi) }),
                    );
                }
            }
        }
    }
}

#[test]
fn multi_step_map_permutation_merges_with_descendant_edit() {
    let mut ids = Ids::new();
    let a = ids.integer(1);
    let b = ids.integer(2);
    let root = ids.map(vec![("a", a.copy()), ("b", b.copy())]);
    let swap = Change::new(vec![
        Operation::Move { target: a.id(), destination: key(&root, "temporary") },
        Operation::Move { target: b.id(), destination: key(&root, "a") },
        Operation::Move { target: a.id(), destination: key(&root, "b") },
    ])
    .unwrap();
    let edit = change(Operation::Add { target: a.id(), delta: 3 });
    let result = tp1(&root, &swap, &edit);
    assert_eq!(int_of(&result.get(a.id()).unwrap()), 4);
    assert_eq!(result.path_of(a.id()).unwrap(), vec![Segment::Key("b".into())]);
}

#[test]
fn transformed_moves_retain_the_original_source_association() {
    let mut ids = Ids::new();
    let a = ids.integer(0);
    let b = ids.integer(1);
    let c = ids.integer(2);
    let root = ids.list(vec![a.copy(), b.copy(), c]);
    let left = change(Operation::Move { target: a.id(), destination: index(&root, 2) });
    let right = change(Operation::Move { target: b.id(), destination: index(&root, 2) });
    let (left, right) = transform(&root, &left, &right, Priority::Right).unwrap();
    for op in left.operations() {
        assert!(matches!(op, Operation::Move { target, .. } if *target == a.id()));
    }
    for op in right.operations() {
        assert!(matches!(op, Operation::Move { target, .. } if *target == b.id()));
    }
}

#[test]
fn container_set_preserves_concurrently_incoming_elements() {
    let mut ids = Ids::new();
    let old = ids.integer(1);
    let incoming = ids.integer(2);
    let parent = ids.list(vec![old]);
    let root = ids.map(vec![("parent", parent.copy()), ("incoming", incoming.copy())]);
    let movement = change(Operation::Move { target: incoming.id(), destination: index(&parent, 1) });
    let three = ids.integer(3);
    let set = change(Operation::Assign {
        target: parent.id(),
        value: Value::with_id(parent.id(), Body::List(vec![three])).unwrap(),
    });
    let result = tp1(&root, &movement, &set);
    assert_eq!(int_of(&result.get(incoming.id()).unwrap()), 2);
    let deletion = change(Operation::Delete { target: parent.id() });
    for priority in [Priority::Left, Priority::Right] {
        assert_eq!(transform(&root, &movement, &deletion, priority).unwrap_err().code, ErrorCode::StructuralConflict);
    }
}

#[test]
fn concurrent_ancestor_and_descendant_moves_preserve_each_intent() {
    let mut ids = Ids::new();
    let child = ids.text("child");
    let ancestor = ids.map(vec![("child", child.copy())]);
    let destination = ids.list(vec![]);
    let root = ids.map(vec![("ancestor", ancestor.copy()), ("destination", destination.copy())]);
    let left = change(Operation::Move { target: ancestor.id(), destination: index(&destination, 0) });
    let right = change(Operation::Move { target: child.id(), destination: key(&root, "escaped") });
    let merged = tp1(&root, &left, &right);
    match merged.get(ancestor.id()).unwrap().body() {
        Body::KeyMap(entries) => assert!(entries.is_empty()),
        other => panic!("not a map: {other:?}"),
    }
    assert_eq!(merged.path_of(child.id()).unwrap(), vec![Segment::Key("escaped".into())]);
}

#[test]
fn concurrent_text_edits_and_additions_merge() {
    let mut ids = Ids::new();
    let text = ids.text("ab");
    let count = ids.integer(10);
    let root = ids.map(vec![("count", count.copy()), ("text", text.copy())]);
    let left = Change::new(vec![
        Operation::Text { target: text.id(), change: TextChange::from_ops(vec![TextOp::Insert("x".into())]).unwrap() },
        Operation::Add { target: count.id(), delta: 1 },
    ])
    .unwrap();
    let right = Change::new(vec![
        Operation::Text {
            target: text.id(),
            change: TextChange::from_ops(vec![TextOp::Retain(2), TextOp::Insert("y".into())]).unwrap(),
        },
        Operation::Add { target: count.id(), delta: 5 },
    ])
    .unwrap();
    let merged = tp1(&root, &left, &right);
    assert_eq!(int_of(&merged.get(count.id()).unwrap()), 16);
    match merged.get(text.id()).unwrap().body() {
        Body::Text(s) => assert_eq!(s, "xaby"),
        other => panic!("not text: {other:?}"),
    }
}
