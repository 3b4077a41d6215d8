use colla::engine::{
    apply, edit, receive, Authority, Body, Change, Commit, Destination, Operation, Rejection, Segment, ServerMessage,
    SessionState, SyncSnapshot, Value,
};
use colla::{CollaError, ErrorCode, IdAllocator};

fn base(a: &mut IdAllocator) -> (Value, Value) {
    let items = Value::with_allocator(Body::List(vec![]), a).unwrap();
    let root = Value::with_allocator(Body::KeyMap(vec![("items".to_owned(), items.copy())]), a).unwrap();
    (root, items)
}

fn insert(items: &Value, at: usize, value: Value) -> Change {
    Change::new(vec![Operation::Insert {
        destination: Destination { parent: items.id(), slot: Segment::Index(at) },
        value,
    }])
    .unwrap()
}

fn list_len(root: &Value, items: &Value) -> usize {
    match root.get(items.id()).unwrap().body() {
        Body::List(l) => l.len(),
        other => panic!("not a list: {other:?}"),
    }
}

#[test]
fn own_commit_confirms_the_request_and_clears_it() {
    let mut a = IdAllocator::deterministic([1; 16]);
    let (root, items) = base(&mut a);
    let snapshot = SyncSnapshot::new("doc", 0, root.copy()).unwrap();
    let session = SessionState::create("me", snapshot).unwrap();
    let x = Value::with_allocator(Body::Int(1), &mut a).unwrap();
    let change = insert(&items, 0, x);
    let (session, result) = edit(&session, &change).unwrap();
    assert!(result.is_some());
    let request = session.outbound().unwrap();
    assert_eq!(request.sequence(), 1);
    assert_eq!(request.base_revision(), 0);
    let commit = Commit::new("doc", "me", 1, 1, change.copy());
    let (session, outcome) = receive(&session, &ServerMessage::Commit(commit));
    assert!(outcome.unwrap().is_none());
    assert_eq!(session.revision(), 1);
    assert!(session.outbound().is_none());
    assert_eq!(list_len(session.value(), &items), 1);
}

#[test]
fn remote_commits_rebase_the_request_and_show_remote_work() {
    let mut a = IdAllocator::deterministic([2; 16]);
    let (root, items) = base(&mut a);
    let session = SessionState::create("me", SyncSnapshot::new("doc", 0, root.copy()).unwrap()).unwrap();
    let mine = Value::with_allocator(Body::Int(1), &mut a).unwrap();
    let (session, _) = edit(&session, &insert(&items, 0, mine)).unwrap();
    let theirs = Value::with_allocator(Body::Int(2), &mut a).unwrap();
    let theirs_id = theirs.id();
    let remote = insert(&items, 0, theirs);
    let (session, outcome) = receive(&session, &ServerMessage::Commit(Commit::new("doc", "them", 1, 1, remote.copy())));
    let shown = outcome.unwrap().unwrap();
    assert_eq!(shown.version, 2);
    assert_eq!(session.revision(), 1);
    assert_eq!(list_len(session.value(), &items), 2);
    assert!(session.value().has(theirs_id));
    let confirmed = apply(&root, &remote).unwrap();
    let request = session.outbound().unwrap();
    assert_eq!(request.sequence(), 1);
    assert!(apply(&confirmed, request.change()).is_ok());
}

#[test]
fn commit_gaps_leave_the_session_unchanged() {
    let mut a = IdAllocator::deterministic([3; 16]);
    let (root, items) = base(&mut a);
    let session = SessionState::create("me", SyncSnapshot::new("doc", 0, root.copy()).unwrap()).unwrap();
    let x = Value::with_allocator(Body::Int(1), &mut a).unwrap();
    let (session, outcome) = receive(&session, &ServerMessage::Commit(Commit::new("doc", "them", 1, 3, insert(&items, 0, x))));
    let error = outcome.unwrap_err();
    assert_eq!(error.code, ErrorCode::MissingRevision);
    let details = error.details.entries().to_vec();
    assert!(details.contains(&("fromRevision".to_owned(), "1".to_owned())));
    assert!(details.contains(&("throughRevision".to_owned(), "2".to_owned())));
    assert_eq!(session.revision(), 0);
    assert!(session.value().same_value(&root));
    assert!(session.recovery_reason().is_none());
}

#[test]
fn repeated_and_foreign_commits() {
    let mut a = IdAllocator::deterministic([4; 16]);
    let (root, items) = base(&mut a);
    let session = SessionState::create("me", SyncSnapshot::new("doc", 0, root.copy()).unwrap()).unwrap();
    let x = Value::with_allocator(Body::Int(1), &mut a).unwrap();
    let y = Value::with_allocator(Body::Int(2), &mut a).unwrap();
    let first = Commit::new("doc", "them", 1, 1, insert(&items, 0, x));
    let (session, outcome) = receive(&session, &ServerMessage::Commit(first.copy()));
    assert!(outcome.unwrap().is_some());
    let (session, outcome) = receive(&session, &ServerMessage::Commit(first));
    assert!(outcome.unwrap().is_none());
    let (session, outcome) = receive(&session, &ServerMessage::Commit(Commit::new("doc", "them", 1, 1, insert(&items, 0, y.copy()))));
    assert_eq!(outcome.unwrap_err().code, ErrorCode::InvalidArgument);
    let (session, outcome) = receive(&session, &ServerMessage::Commit(Commit::new("other", "them", 2, 2, insert(&items, 0, y))));
    assert_eq!(outcome.unwrap_err().code, ErrorCode::InvalidArgument);
    assert_eq!(session.revision(), 1);
}

#[test]
fn rejected_requests_put_the_session_into_recovery() {
    let mut a = IdAllocator::deterministic([6; 16]);
    let (root, items) = base(&mut a);
    let session = SessionState::create("me", SyncSnapshot::new("doc", 0, root.copy()).unwrap()).unwrap();
    let x = Value::with_allocator(Body::Int(1), &mut a).unwrap();
    let (session, _) = edit(&session, &insert(&items, 0, x)).unwrap();
    let unrelated = Rejection::new("doc", "me", 7, CollaError::new(ErrorCode::InvalidArgument, "no"));
    let (session, outcome) = receive(&session, &ServerMessage::Rejection(unrelated));
    assert!(outcome.unwrap().is_none());
    assert!(session.recovery_reason().is_none());
    let reason = CollaError::new(ErrorCode::StructuralConflict, "conflict");
    let (session, outcome) = receive(&session, &ServerMessage::Rejection(Rejection::new("doc", "me", 1, reason)));
    assert!(outcome.unwrap().is_none());
    assert_eq!(session.recovery_reason().unwrap().code, ErrorCode::StructuralConflict);
    assert!(session.outbound().is_none());
    let y = Value::with_allocator(Body::Int(2), &mut a).unwrap();
    let (_, outcome) = receive(&session, &ServerMessage::Commit(Commit::new("doc", "them", 1, 1, insert(&items, 0, y))));
    assert_eq!(outcome.unwrap_err().code, ErrorCode::InvalidState);
}

fn commit_of(message: ServerMessage) -> Commit {
    match message {
        ServerMessage::Commit(c) => c,
        ServerMessage::Rejection(r) => panic!("rejected: {:?}", r.reason().code),
    }
}

#[test]
fn two_clients_converge_through_the_authority() {
    let mut a = IdAllocator::deterministic([8; 16]);
    let (root, items) = base(&mut a);
    let authority = Authority::create("doc", root.copy()).unwrap();
    let left = SessionState::create("left", authority.snapshot()).unwrap();
    let right = SessionState::create("right", authority.snapshot()).unwrap();
    let x = Value::with_allocator(Body::Int(1), &mut a).unwrap();
    let y = Value::with_allocator(Body::Int(2), &mut a).unwrap();
    let (left, _) = edit(&left, &insert(&items, 0, x)).unwrap();
    let (right, _) = edit(&right, &insert(&items, 0, y)).unwrap();

    let (authority, message) = authority.accept(&left.outbound().unwrap()).unwrap();
    let first = commit_of(message);
    assert_eq!(first.revision(), 1);
    let (again, repeat) = authority.accept(&left.outbound().unwrap()).unwrap();
    assert_eq!(commit_of(repeat).revision(), 1);
    assert_eq!(again.revision(), 1);

    let (left, outcome) = receive(&left, &ServerMessage::Commit(first.copy()));
    assert!(outcome.unwrap().is_none());
    let (right, outcome) = receive(&right, &ServerMessage::Commit(first.copy()));
    assert!(outcome.unwrap().is_some());

    let (authority, message) = authority.accept(&right.outbound().unwrap()).unwrap();
    let second = commit_of(message);
    assert_eq!(second.revision(), 2);
    let (left, _) = receive(&left, &ServerMessage::Commit(second.copy()));
    let (right, _) = receive(&right, &ServerMessage::Commit(second.copy()));
    assert_eq!(left.revision(), 2);
    assert_eq!(right.revision(), 2);
    assert!(left.value().same_value(right.value()));
    assert!(left.value().same_value(authority.snapshot().value()));
    assert_eq!(list_len(left.value(), &items), 2);
    assert!(left.outbound().is_none() && right.outbound().is_none());
    assert_eq!(authority.commits_since(0).unwrap().len(), 2);
    assert_eq!(authority.commits_since(3).unwrap_err().code, ErrorCode::MissingRevision);
}

#[test]
fn the_authority_rejects_foreign_and_out_of_order_requests() {
    let mut a = IdAllocator::deterministic([9; 16]);
    let (root, items) = base(&mut a);
    let authority = Authority::create("doc", root.copy()).unwrap();
    let other = SessionState::create("me", SyncSnapshot::new("other", 0, root.copy()).unwrap()).unwrap();
    let x = Value::with_allocator(Body::Int(1), &mut a).unwrap();
    let (other, _) = edit(&other, &insert(&items, 0, x.copy())).unwrap();
    let (same, message) = authority.accept(&other.outbound().unwrap()).unwrap();
    match message {
        ServerMessage::Rejection(r) => assert_eq!(r.reason().code, ErrorCode::InvalidArgument),
        ServerMessage::Commit(_) => panic!("accepted a foreign request"),
    }
    assert_eq!(same.revision(), 0);
    let session = SessionState::create("me", authority.snapshot()).unwrap();
    let (session, _) = edit(&session, &insert(&items, 0, x)).unwrap();
    let (authority, message) = authority.accept(&session.outbound().unwrap()).unwrap();
    let first = commit_of(message);
    let (session, _) = receive(&session, &ServerMessage::Commit(first));
    let y = Value::with_allocator(Body::Int(2), &mut a).unwrap();
    let (session, _) = edit(&session, &insert(&items, 0, y)).unwrap();
    let request = session.outbound().unwrap();
    assert_eq!(request.sequence(), 2);
    let (authority, message) = authority.accept(&request).unwrap();
    assert_eq!(commit_of(message).revision(), 2);
    assert_eq!(authority.revision(), 2);
}
