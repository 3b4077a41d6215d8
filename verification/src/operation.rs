//! Identity-addressed operations on content trees, and Changes as ordered
//! sequences of them.
use crate::apply::apply_text;
use crate::change::{byte_len, TextChange};
use crate::engine::{type_error, Destination, Segment};
use crate::error::{CollaError, ErrorCode};
use crate::identity::ElementId;
use crate::keys::{compare_keys, KeyOrder};
use crate::change::TextOp;
use crate::model::{apply_ops, OpView};
use crate::tree::{
    attach, destination_of, detach, meets, node_of, replace_at, same_id, slot_of, validation,
    Body, Shape, Slot, Tree, Value,
};
use crate::value::Text;
use vstd::prelude::*;

verus! {

/// One ordered identity-addressed content operation.
#[derive(Debug)]
pub enum Operation {
    /// Inserts owning content at a container position.
    Insert {
        /// Owning location of the new content.
        destination: Destination,
        /// The owning content inserted.
        value: Value,
    },
    /// Deletes existing owning content.
    Delete {
        /// Identity of the deleted element.
        target: ElementId,
    },
    /// Replaces content while retaining the target root identity.
    Assign {
        /// Identity of the replaced element.
        target: ElementId,
        /// The new content, carrying the target's identity.
        value: Value,
    },
    /// Moves the same owning subtree without changing any of its IDs.
    Move {
        /// Identity of the moved element.
        target: ElementId,
        /// Owning location after the move.
        destination: Destination,
    },
    /// Applies a scalar text change to a Text element.
    Text {
        /// Identity of the Text element.
        target: ElementId,
        /// The canonical text change.
        change: TextChange,
    },
    /// Adds a checked signed integer delta to an Int element.
    Add {
        /// Identity of the Int element.
        target: ElementId,
        /// Signed delta applied with checked integer arithmetic.
        delta: i64,
    },
}

/// The mathematical form of an operation.
pub enum Step {
    Insert((Seq<u8>, u64), Slot, Tree),
    Delete((Seq<u8>, u64)),
    Assign((Seq<u8>, u64), Tree),
    Move((Seq<u8>, u64), (Seq<u8>, u64), Slot),
    Text((Seq<u8>, u64), Seq<OpView>),
    Add((Seq<u8>, u64), i64),
}

impl View for Operation {
    type V = Step;

    open spec fn view(&self) -> Step {
        match self {
            Operation::Insert { destination, value } => Step::Insert(
                destination.parent@,
                slot_of(destination.slot),
                value@,
            ),
            Operation::Delete { target } => Step::Delete(target@),
            Operation::Assign { target, value } => Step::Assign(target@, value@),
            Operation::Move { target, destination } => Step::Move(
                target@,
                destination.parent@,
                slot_of(destination.slot),
            ),
            Operation::Text { target, change } => Step::Text(target@, change@),
            Operation::Add { target, delta } => Step::Add(target@, *delta),
        }
    }
}

/// A result, kept only where the whole element passes validation.
pub open spec fn checked(r: Result<Tree, ErrorCode>) -> Result<Tree, ErrorCode> {
    match r {
        Err(e) => Err(e),
        Ok(t) => match validation(t) {
            Ok(_) => Ok(t),
            Err(e) => Err(e),
        },
    }
}

/// The outcome of one operation on `t`.
#[verifier::opaque]
pub open spec fn apply_step(t: Tree, op: Step) -> Result<Tree, ErrorCode> {
    match op {
        Step::Insert(p, s, v) => checked(attach(t, p, s, v)),
        Step::Delete(id) => checked(
            match detach(t, id) {
                Ok(d) => Ok(d.0),
                Err(e) => Err(e),
            },
        ),
        Step::Assign(id, v) => if v.id != id {
            Err(ErrorCode::InvalidValue)
        } else {
            checked(replace_at(t, id, v))
        },
        Step::Move(id, p, s) => if id == t.id {
            Err(ErrorCode::InvalidArgument)
        } else {
            match node_of(t, id) {
                None => Err(ErrorCode::MissingKey),
                Some(src) => if node_of(t, p) is None {
                    Err(ErrorCode::MissingKey)
                } else if node_of(src, p) is Some {
                    Err(ErrorCode::StructuralConflict)
                } else {
                    match destination_of(t, id) {
                        Err(e) => Err(e),
                        Ok(d) => if d == (p, s) {
                            Ok(t)
                        } else {
                            checked(
                                match detach(t, id) {
                                    Err(e) => Err(e),
                                    Ok(x) => attach(x.0, p, s, x.1),
                                },
                            )
                        },
                    }
                },
            }
        },
        Step::Text(id, ch) => match node_of(t, id) {
            None => Err(ErrorCode::MissingKey),
            Some(n) => match n.shape {
                Shape::Text(x) => match apply_ops(ch, x) {
                    None => Err(ErrorCode::OutOfBounds),
                    Some(y) => if byte_len(y) > isize::MAX {
                        Err(ErrorCode::LimitExceeded)
                    } else {
                        checked(replace_at(t, id, Tree { id, shape: Shape::Text(y) }))
                    },
                },
                _ => Err(ErrorCode::TypeMismatch),
            },
        },
        Step::Add(id, d) => match node_of(t, id) {
            None => Err(ErrorCode::MissingKey),
            Some(n) => match n.shape {
                Shape::Int(x) => if i64::MIN <= x + d <= i64::MAX {
                    checked(replace_at(t, id, Tree { id, shape: Shape::Int((x + d) as i64) }))
                } else {
                    Err(ErrorCode::IntegerOverflow)
                },
                _ => Err(ErrorCode::TypeMismatch),
            },
        },
    }
}

/// The outcome of the operations `ops` on `t`, in order; the first failure
/// stops the run.
pub open spec fn apply_steps(t: Tree, ops: Seq<Step>) -> Result<Tree, ErrorCode>
    decreases ops.len(),
{
    if ops.len() == 0 {
        Ok(t)
    } else {
        match apply_steps(t, ops.drop_last()) {
            Err(e) => Err(e),
            Ok(x) => apply_step(x, ops.last()),
        }
    }
}

/// Whether two path segments are the same.
pub(crate) fn same_segment(a: &Segment, b: &Segment) -> (r: bool)
    ensures
        r == (slot_of(*a) == slot_of(*b)),
{
    match (a, b) {
        (Segment::Key(x), Segment::Key(y)) => compare_keys(x.as_str(), y.as_str()) == KeyOrder::Equal,
        (Segment::Index(x), Segment::Index(y)) => *x == *y,
        _ => false,
    }
}

/// Keeps `v` only where it passes validation.
fn check(v: Value) -> (r: Result<Value, CollaError>)
    ensures
        meets(r, checked(Ok(v@))),
{
    match v.validate() {
        Ok(()) => Ok(v),
        Err(e) => Err(e),
    }
}

/// Applies one operation to `base`, validating the result.
pub fn apply_operation(base: &Value, operation: &Operation) -> (r: Result<Value, CollaError>)
    ensures
        meets(r, apply_step(base@, operation@)),
{
    reveal(apply_step);
    match operation {
        Operation::Insert { destination, value } => match base.attach(destination, value.copy()) {
            Ok(v) => check(v),
            Err(e) => Err(e),
        },
        Operation::Delete { target } => match base.detach(*target) {
            Ok((v, _)) => check(v),
            Err(e) => Err(e),
        },
        Operation::Assign { target, value } => {
            if !same_id(value.id(), *target) {
                return Err(CollaError::new(ErrorCode::InvalidValue, "set identity mismatch"));
            }
            match base.replace_at(*target, value.copy()) {
                Ok(v) => check(v),
                Err(e) => Err(e),
            }
        },
        Operation::Move { target, destination } => {
            if same_id(*target, base.id()) {
                return Err(CollaError::new(ErrorCode::InvalidArgument, "root cannot move"));
            }
            let source = match base.locate(*target) {
                Some((_, node)) => node,
                None => {
                    return Err(crate::engine::missing(*target));
                },
            };
            if base.locate(destination.parent).is_none() {
                return Err(crate::engine::missing(destination.parent));
            }
            if source.locate(destination.parent).is_some() {
                return Err(
                    crate::engine::structural(
                        "cannot move an element into itself or its descendant",
                    ),
                );
            }
            let current = match base.destination_of(*target) {
                Ok(d) => d,
                Err(e) => {
                    return Err(e);
                },
            };
            if same_id(current.parent, destination.parent) && same_segment(
                &current.slot,
                &destination.slot,
            ) {
                return Ok(base.copy());
            }
            match base.detach(*target) {
                Err(e) => Err(e),
                Ok((detached, moved)) => match detached.attach(destination, moved) {
                    Ok(v) => check(v),
                    Err(e) => Err(e),
                },
            }
        },
        Operation::Text { target, change } => {
            let node = match base.locate(*target) {
                Some((_, node)) => node,
                None => {
                    return Err(crate::engine::missing(*target));
                },
            };
            proof {
                crate::tree::lemma_body_shape(*node);
            }
            match node.body() {
                Body::Text(x) => {
                    let text = Text::new(x.as_str());
                    match apply_text(&text, change) {
                        Ok(y) => {
                            let v = Value::trusted(*target, Body::Text(y.as_str().to_owned()));
                            match base.replace_at(*target, v) {
                                Ok(v) => check(v),
                                Err(e) => Err(e),
                            }
                        },
                        Err(e) => Err(CollaError::new(e.code(), "text change does not apply")),
                    }
                },
                _ => Err(type_error("expected Text")),
            }
        },
        Operation::Add { target, delta } => {
            let node = match base.locate(*target) {
                Some((_, node)) => node,
                None => {
                    return Err(crate::engine::missing(*target));
                },
            };
            proof {
                crate::tree::lemma_body_shape(*node);
            }
            match node.body() {
                Body::Int(n) => match n.checked_add(*delta) {
                    Some(m) => {
                        let v = Value::trusted(*target, Body::Int(m));
                        match base.replace_at(*target, v) {
                            Ok(v) => check(v),
                            Err(e) => Err(e),
                        }
                    },
                    None => Err(
                        CollaError::new(ErrorCode::IntegerOverflow, "integer addition overflow"),
                    ),
                },
                _ => Err(type_error("expected Int")),
            }
        },
    }
}

/// A copy of a path segment.
pub(crate) fn copy_segment(s: &Segment) -> (c: Segment)
    ensures
        slot_of(c) == slot_of(*s),
{
    match s {
        Segment::Key(k) => Segment::Key(k.clone()),
        Segment::Index(i) => Segment::Index(*i),
    }
}

/// A copy of a destination.
pub(crate) fn copy_destination(d: &Destination) -> (c: Destination)
    ensures
        c.parent@ == d.parent@,
        slot_of(c.slot) == slot_of(d.slot),
{
    Destination { parent: d.parent, slot: copy_segment(&d.slot) }
}

impl Operation {
    /// An independent copy of this operation.
    pub fn copy(&self) -> (c: Operation)
        ensures
            c@ == self@,
    {
        match self {
            Operation::Insert { destination, value } => Operation::Insert {
                destination: copy_destination(destination),
                value: value.copy(),
            },
            Operation::Delete { target } => Operation::Delete { target: *target },
            Operation::Assign { target, value } => Operation::Assign {
                target: *target,
                value: value.copy(),
            },
            Operation::Move { target, destination } => Operation::Move {
                target: *target,
                destination: copy_destination(destination),
            },
            Operation::Text { target, change } => Operation::Text {
                target: *target,
                change: change.clone(),
            },
            Operation::Add { target, delta } => Operation::Add { target: *target, delta: *delta },
        }
    }
}

/// Immutable canonical operation sequence.
#[derive(Debug)]
pub struct Change {
    operations: Vec<Operation>,
}

/// The models of operations.
pub open spec fn steps_of(ops: Seq<Operation>) -> Seq<Step> {
    Seq::new(ops.len(), |i: int| ops[i]@)
}

impl View for Change {
    type V = Seq<Step>;

    closed spec fn view(&self) -> Seq<Step> {
        steps_of(self.operations@)
    }
}

/// What canonical form does with one operation: `Err` rejects the input,
/// `Ok(false)` drops the operation, `Ok(true)` keeps it.
pub open spec fn keeps_step(op: Step) -> Result<bool, ErrorCode> {
    match op {
        Step::Assign(id, v) => if id != v.id {
            Err(ErrorCode::InvalidValue)
        } else {
            match validation(v) {
                Ok(_) => Ok(true),
                Err(e) => Err(e),
            }
        },
        Step::Insert(_, _, v) => match validation(v) {
            Ok(_) => Ok(true),
            Err(e) => Err(e),
        },
        Step::Text(_, ch) => Ok(ch.len() > 0),
        Step::Add(_, d) => Ok(d != 0),
        _ => Ok(true),
    }
}

/// The canonical form of `ops`: each operation checked in order, no-op
/// Text and Add operations dropped, at most a million operations kept.
pub open spec fn canonical_steps(ops: Seq<Step>) -> Result<Seq<Step>, ErrorCode>
    decreases ops.len(),
{
    if ops.len() == 0 {
        Ok(Seq::empty())
    } else {
        match canonical_steps(ops.drop_last()) {
            Err(e) => Err(e),
            Ok(kept) => match keeps_step(ops.last()) {
                Err(e) => Err(e),
                Ok(false) => Ok(kept),
                Ok(true) => if kept.len() >= 1_000_000 {
                    Err(ErrorCode::LimitExceeded)
                } else {
                    Ok(kept.push(ops.last()))
                },
            },
        }
    }
}

/// A failure stays the failure of every longer input.
proof fn lemma_canonical_err(ops: Seq<Step>, j: int)
    requires
        0 <= j <= ops.len(),
        canonical_steps(ops.take(j)) is Err,
    ensures
        canonical_steps(ops) == canonical_steps(ops.take(j)),
    decreases ops.len() - j,
{
    if j < ops.len() {
        assert(ops.take(j + 1).drop_last() =~= ops.take(j));
        lemma_canonical_err(ops, j + 1);
    } else {
        assert(ops.take(j) =~= ops);
    }
}

impl Change {
    /// Validates and canonicalizes `operations`: an Assign must carry its
    /// target's identity, inserted and assigned content must be valid, and
    /// empty Text and zero Add operations are dropped.
    pub fn new(operations: Vec<Operation>) -> (r: Result<Change, CollaError>)
        ensures
            match canonical_steps(steps_of(operations@)) {
                Ok(s) => r is Ok && r->Ok_0@ == s,
                Err(c) => r is Err && r->Err_0.code == c,
            },
    {
        let ghost all = steps_of(operations@);
        let mut result: Vec<Operation> = Vec::new();
        let mut i: usize = 0;
        proof {
            assert(all.take(0) =~= Seq::<Step>::empty());
            assert(steps_of(result@) =~= Seq::<Step>::empty());
        }
        while i < operations.len()
            invariant
                0 <= i <= operations@.len(),
                all == steps_of(operations@),
                canonical_steps(all.take(i as int)) == Ok::<Seq<Step>, ErrorCode>(steps_of(result@)),
            decreases operations@.len() - i,
        {
            let op = &operations[i];
            let ghost before = steps_of(result@);
            proof {
                assert(all.take(i + 1).drop_last() =~= all.take(i as int));
                assert(all.take(i + 1).last() == op@);
            }
            let keep: Result<bool, CollaError> = match op {
                Operation::Assign { target, value } => {
                    if !same_id(*target, value.id()) {
                        Err(CollaError::new(ErrorCode::InvalidValue, "set must preserve target identity"))
                    } else {
                        match value.validate() {
                            Ok(()) => Ok(true),
                            Err(e) => Err(e),
                        }
                    }
                },
                Operation::Insert { value, .. } => match value.validate() {
                    Ok(()) => Ok(true),
                    Err(e) => Err(e),
                },
                Operation::Text { change, .. } => Ok(!change.is_empty()),
                Operation::Add { delta, .. } => Ok(*delta != 0),
                _ => Ok(true),
            };
            match keep {
                Err(e) => {
                    proof {
                        lemma_canonical_err(all, i + 1);
                    }
                    return Err(e);
                },
                Ok(false) => {},
                Ok(true) => {
                    if result.len() >= 1_000_000 {
                        proof {
                            lemma_canonical_err(all, i + 1);
                        }
                        return Err(CollaError::new(ErrorCode::LimitExceeded, "operation limit exceeded"));
                    }
                    result.push(op.copy());
                    proof {
                        assert(steps_of(result@) =~= before.push(op@));
                    }
                },
            }
            i += 1;
        }
        proof {
            assert(all.take(i as int) =~= all);
        }
        Ok(Change { operations: result })
    }

    /// Wraps operations that are already canonical.
    pub(crate) fn from_vec(operations: Vec<Operation>) -> (c: Change)
        ensures
            c@ == steps_of(operations@),
    {
        Change { operations }
    }

    /// The identity Change with no operations.
    pub fn noop() -> (c: Change)
        ensures
            c@ == Seq::<Step>::empty(),
    {
        let c = Change { operations: Vec::new() };
        proof {
            assert(c@ =~= Seq::<Step>::empty());
        }
        c
    }

    /// Borrows the canonical operations in execution order.
    pub fn operations(&self) -> (ops: &[Operation])
        ensures
            steps_of(ops@) == self@,
    {
        self.operations.as_slice()
    }

    /// Returns whether the canonical operation sequence is empty.
    pub fn is_noop(&self) -> (b: bool)
        ensures
            b == (self@.len() == 0),
    {
        self.operations.len() == 0
    }
}

/// Applies an identity-addressed Change atomically: each operation in turn,
/// the first failure failing the whole.
pub fn apply(base: &Value, change: &Change) -> (r: Result<Value, CollaError>)
    ensures
        meets(r, apply_steps(base@, change@)),
{
    let ops = change.operations();
    let ghost all = change@;
    let mut value = base.copy();
    let mut i: usize = 0;
    proof {
        assert(all.take(0) =~= Seq::<Step>::empty());
    }
    while i < ops.len()
        invariant
            0 <= i <= ops@.len(),
            all == steps_of(ops@),
            all == change@,
            apply_steps(base@, all.take(i as int)) == Ok::<Tree, ErrorCode>(value@),
        decreases ops@.len() - i,
    {
        proof {
            assert(all.take(i + 1).drop_last() =~= all.take(i as int));
            assert(all.take(i + 1).last() == ops@[i as int]@);
        }
        match apply_operation(&value, &ops[i]) {
            Ok(v) => {
                proof {
                    assert(apply_steps(base@, all.take(i + 1)) == apply_step(value@, ops@[i as int]@));
                }
                value = v;
            },
            Err(e) => {
                proof {
                    assert(apply_steps(base@, all.take(i + 1)) == apply_step(value@, ops@[i as int]@));
                    lemma_apply_err(base@, all, i + 1);
                }
                return Err(e);
            },
        }
        i += 1;
    }
    proof {
        assert(all.take(i as int) =~= all);
    }
    Ok(value)
}

/// A failure stays the failure of every longer run.
proof fn lemma_apply_err(t: Tree, ops: Seq<Step>, j: int)
    requires
        0 <= j <= ops.len(),
        apply_steps(t, ops.take(j)) is Err,
    ensures
        apply_steps(t, ops) == apply_steps(t, ops.take(j)),
    decreases ops.len() - j,
{
    if j < ops.len() {
        assert(ops.take(j + 1).drop_last() =~= ops.take(j));
        lemma_apply_err(t, ops, j + 1);
    } else {
        assert(ops.take(j) =~= ops);
    }
}

/// Whether two Text changes are the same.
fn same_text_change(a: &TextChange, b: &TextChange) -> (r: bool)
    ensures
        r == (a@ == b@),
{
    let x = a.ops();
    let y = b.ops();
    if x.len() != y.len() {
        return false;
    }
    let mut i: usize = 0;
    while i < x.len()
        invariant
            0 <= i <= x@.len(),
            x@.len() == y@.len(),
            x.deep_view() == a@,
            y.deep_view() == b@,
            forall|j: int| 0 <= j < i ==> x.deep_view()[j] == y.deep_view()[j],
        decreases x.len() - i,
    {
        let same = match (&x[i], &y[i]) {
            (TextOp::Retain(m), TextOp::Retain(n)) => *m == *n,
            (TextOp::Delete(m), TextOp::Delete(n)) => *m == *n,
            (TextOp::Insert(s), TextOp::Insert(t)) => compare_keys(s.as_str(), t.as_str()) == KeyOrder::Equal,
            _ => false,
        };
        if !same {
            proof {
                assert(x.deep_view()[i as int] != y.deep_view()[i as int]);
            }
            return false;
        }
        i += 1;
    }
    proof {
        assert(x.deep_view() =~= y.deep_view());
    }
    true
}

/// Whether two operations are the same.
pub fn same_operation(a: &Operation, b: &Operation) -> (r: bool)
    ensures
        r == (a@ == b@),
{
    match (a, b) {
        (Operation::Insert { destination: d, value: v }, Operation::Insert { destination: e, value: w }) =>
            same_id(d.parent, e.parent) && same_segment(&d.slot, &e.slot) && v.same_value(w),
        (Operation::Delete { target: x }, Operation::Delete { target: y }) => same_id(*x, *y),
        (Operation::Assign { target: x, value: v }, Operation::Assign { target: y, value: w }) =>
            same_id(*x, *y) && v.same_value(w),
        (Operation::Move { target: x, destination: d }, Operation::Move { target: y, destination: e }) =>
            same_id(*x, *y) && same_id(d.parent, e.parent) && same_segment(&d.slot, &e.slot),
        (Operation::Text { target: x, change: c }, Operation::Text { target: y, change: d }) =>
            same_id(*x, *y) && same_text_change(c, d),
        (Operation::Add { target: x, delta: m }, Operation::Add { target: y, delta: n }) =>
            same_id(*x, *y) && *m == *n,
        _ => false,
    }
}

impl Change {
    /// An independent copy of this Change.
    pub fn copy(&self) -> (c: Change)
        ensures
            c@ == self@,
    {
        let mut out: Vec<Operation> = Vec::new();
        let mut i: usize = 0;
        while i < self.operations.len()
            invariant
                0 <= i <= self.operations@.len(),
                out@.len() == i,
                forall|j: int| 0 <= j < i ==> out@[j]@ == self.operations@[j]@,
            decreases self.operations.len() - i,
        {
            out.push(self.operations[i].copy());
            i += 1;
        }
        let c = Change { operations: out };
        proof {
            assert(c@ =~= self@);
        }
        c
    }

    /// Copies of the operations in order.
    pub fn to_operations(&self) -> (r: Vec<Operation>)
        ensures
            steps_of(r@) == self@,
    {
        let c = self.copy();
        c.operations
    }

    /// Whether two Changes hold the same operations.
    pub fn same_change(&self, other: &Change) -> (r: bool)
        ensures
            r == (self@ == other@),
    {
        if self.operations.len() != other.operations.len() {
            proof {
                assert(self@.len() != other@.len());
            }
            return false;
        }
        let mut i: usize = 0;
        while i < self.operations.len()
            invariant
                0 <= i <= self.operations@.len(),
                self.operations@.len() == other.operations@.len(),
                forall|j: int| 0 <= j < i ==> self.operations@[j]@ == other.operations@[j]@,
            decreases self.operations.len() - i,
        {
            if !same_operation(&self.operations[i], &other.operations[i]) {
                proof {
                    assert(self@[i as int] != other@[i as int]);
                }
                return false;
            }
            i += 1;
        }
        proof {
            assert(self@ =~= other@);
        }
        true
    }
}

} // verus!
