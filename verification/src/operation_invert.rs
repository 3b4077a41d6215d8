//! Reverse Changes: the operations that restore a base's content and
//! identities after a Change.
use crate::change::byte_len;
use crate::engine::{algebra_error, type_error};
use crate::error::{CollaError, ErrorCode};
use crate::model::{apply_ops, expand};
use crate::operation::{apply_operation, apply_step, canonical_steps, steps_of, Change, Operation, Step};
use crate::invert_change::{text_inverse, text_inverse_exists};
use crate::tree::{destination_of, node_of, Body, Shape, Tree, Value};
use crate::value::Text;
use vstd::prelude::*;

verus! {

/// The operations that undo `op`, computed against the content `before` it.
pub open spec fn inverse_of(before: Tree, op: Step) -> Result<Seq<Step>, ErrorCode> {
    match op {
        Step::Insert(_, _, v) => Ok(seq![Step::Delete(v.id)]),
        Step::Delete(id) => match destination_of(before, id) {
            Err(e) => Err(e),
            Ok(d) => match node_of(before, id) {
                None => Err(ErrorCode::MissingKey),
                Some(n) => Ok(seq![Step::Insert(d.0, d.1, n)]),
            },
        },
        Step::Assign(id, _) => match node_of(before, id) {
            None => Err(ErrorCode::MissingKey),
            Some(n) => Ok(seq![Step::Assign(id, n)]),
        },
        Step::Move(id, _, _) => match destination_of(before, id) {
            Err(e) => Err(e),
            Ok(d) => Ok(seq![Step::Move(id, d.0, d.1)]),
        },
        Step::Text(id, ch) => match node_of(before, id) {
            None => Err(ErrorCode::MissingKey),
            Some(n) => match n.shape {
                Shape::Text(x) => match apply_ops(ch, x) {
                    None => Err(ErrorCode::IncompatibleChange),
                    Some(y) => if byte_len(y) > isize::MAX || !text_inverse_exists(ch, x) {
                        Err(ErrorCode::IncompatibleChange)
                    } else {
                        Ok(seq![Step::Text(id, text_inverse(ch, x))])
                    },
                },
                _ => Err(ErrorCode::TypeMismatch),
            },
        },
        Step::Add(id, d) => if d == i64::MIN {
            Ok(seq![Step::Add(id, i64::MAX), Step::Add(id, 1)])
        } else {
            Ok(seq![Step::Add(id, (-d) as i64)])
        },
    }
}

/// Running `ops` from `t`: the content after them and the inverse of each,
/// in order; the first failure, of an inverse or of an operation, stops it.
pub open spec fn invert_run(t: Tree, ops: Seq<Step>) -> Result<(Tree, Seq<Seq<Step>>), ErrorCode>
    decreases ops.len(),
{
    if ops.len() == 0 {
        Ok((t, Seq::empty()))
    } else {
        match invert_run(t, ops.drop_last()) {
            Err(e) => Err(e),
            Ok(r) => match inverse_of(r.0, ops.last()) {
                Err(e) => Err(e),
                Ok(inv) => match apply_step(r.0, ops.last()) {
                    Err(e) => Err(e),
                    Ok(a) => Ok((a, r.1.push(inv))),
                },
            },
        }
    }
}

/// The groups of `s` from last to first, joined.
pub open spec fn rev_flat(s: Seq<Seq<Step>>) -> Seq<Step>
    decreases s.len(),
{
    if s.len() == 0 {
        Seq::empty()
    } else {
        rev_flat(s.drop_first()) + s[0]
    }
}

/// The outcome of inverting the operations `ops` against `t`.
pub open spec fn invert_spec(t: Tree, ops: Seq<Step>) -> Result<Seq<Step>, ErrorCode> {
    match invert_run(t, ops) {
        Err(e) => Err(e),
        Ok(r) => canonical_steps(rev_flat(r.1)),
    }
}

/// A failure stays the failure of every longer run.
proof fn lemma_invert_err(t: Tree, ops: Seq<Step>, j: int)
    requires
        0 <= j <= ops.len(),
        invert_run(t, ops.take(j)) is Err,
    ensures
        invert_run(t, ops) == invert_run(t, ops.take(j)),
    decreases ops.len() - j,
{
    if j < ops.len() {
        assert(ops.take(j + 1).drop_last() =~= ops.take(j));
        lemma_invert_err(t, ops, j + 1);
    } else {
        assert(ops.take(j) =~= ops);
    }
}

/// The inverse operations of `op` against `before`.
fn inverse_ops(before: &Value, op: &Operation) -> (r: Result<Vec<Operation>, CollaError>)
    ensures
        match inverse_of(before@, op@) {
            Ok(s) => r is Ok && steps_of(r->Ok_0@) == s,
            Err(c) => r is Err && r->Err_0.code == c,
        },
{
    let mut out: Vec<Operation> = Vec::new();
    match op {
        Operation::Insert { value, .. } => {
            out.push(Operation::Delete { target: value.id() });
        },
        Operation::Delete { target } => {
            let destination = match before.destination_of(*target) {
                Ok(d) => d,
                Err(e) => {
                    return Err(e);
                },
            };
            let value = match before.get(*target) {
                Ok(v) => v,
                Err(e) => {
                    return Err(e);
                },
            };
            out.push(Operation::Insert { destination, value });
        },
        Operation::Assign { target, .. } => {
            let value = match before.get(*target) {
                Ok(v) => v,
                Err(e) => {
                    return Err(e);
                },
            };
            out.push(Operation::Assign { target: *target, value });
        },
        Operation::Move { target, .. } => {
            let destination = match before.destination_of(*target) {
                Ok(d) => d,
                Err(e) => {
                    return Err(e);
                },
            };
            out.push(Operation::Move { target: *target, destination });
        },
        Operation::Text { target, change } => {
            let node = match before.locate(*target) {
                Some((_, node)) => node,
                None => {
                    return Err(crate::engine::missing(*target));
                },
            };
            proof {
                crate::tree::lemma_body_shape(*node);
            }
            match node.body() {
                Body::Text(x) => {
                    let text = Text::new(x.as_str());
                    match crate::invert::invert_text(change, &text) {
                        Ok(inverse) => {
                            proof {
                                assert(text_inverse_exists(change@, text@));
                                crate::laws::lemma_canonical_unique(
                                    inverse@,
                                    text_inverse(change@, text@),
                                );
                            }
                            out.push(Operation::Text { target: *target, change: inverse });
                        },
                        Err(_) => {
                            return Err(algebra_error("text change does not apply"));
                        },
                    }
                },
                _ => {
                    return Err(type_error("expected Text"));
                },
            }
        },
        Operation::Add { target, delta } => {
            if *delta == i64::MIN {
                out.push(Operation::Add { target: *target, delta: i64::MAX });
                out.push(Operation::Add { target: *target, delta: 1 });
            } else {
                out.push(Operation::Add { target: *target, delta: -*delta });
            }
        },
    }
    proof {
        assert(steps_of(out@) =~= inverse_of(before@, op@)->Ok_0);
    }
    Ok(out)
}

/// A reverse Change that restores `base`'s content and identities after
/// `change`: the inverse of each operation, computed against the content
/// before it, in reverse order.
pub fn invert(base: &Value, change: &Change) -> (r: Result<Change, CollaError>)
    ensures
        match invert_spec(base@, change@) {
            Ok(s) => r is Ok && r->Ok_0@ == s,
            Err(c) => r is Err && r->Err_0.code == c,
        },
{
    let ops = change.operations();
    let ghost all = change@;
    let mut before = base.copy();
    let mut groups: Vec<Vec<Operation>> = Vec::new();
    let mut i: usize = 0;
    proof {
        assert(all.take(0) =~= Seq::<Step>::empty());
    }
    while i < ops.len()
        invariant
            0 <= i <= ops@.len(),
            all == steps_of(ops@),
            all == change@,
            groups@.len() == i,
            invert_run(base@, all.take(i as int)) is Ok,
            invert_run(base@, all.take(i as int))->Ok_0.0 == before@,
            invert_run(base@, all.take(i as int))->Ok_0.1.len() == i,
            forall|j: int|
                0 <= j < i ==> steps_of(#[trigger] groups@[j]@) == invert_run(
                    base@,
                    all.take(i as int),
                )->Ok_0.1[j],
        decreases ops@.len() - i,
    {
        proof {
            assert(all.take(i + 1).drop_last() =~= all.take(i as int));
            assert(all.take(i + 1).last() == ops@[i as int]@);
        }
        let inverse = match inverse_ops(&before, &ops[i]) {
            Ok(v) => v,
            Err(e) => {
                proof {
                    lemma_invert_err(base@, all, i + 1);
                }
                return Err(e);
            },
        };
        match apply_operation(&before, &ops[i]) {
            Ok(v) => {
                before = v;
            },
            Err(e) => {
                proof {
                    lemma_invert_err(base@, all, i + 1);
                }
                return Err(e);
            },
        }
        groups.push(inverse);
        i += 1;
    }
    proof {
        assert(all.take(i as int) =~= all);
    }
    let ghost invs = invert_run(base@, all)->Ok_0.1;
    let mut flat: Vec<Operation> = Vec::new();
    let mut k: usize = groups.len();
    proof {
        assert(invs.subrange(k as int, k as int) =~= Seq::<Seq<Step>>::empty());
        assert(steps_of(flat@) =~= Seq::<Step>::empty());
    }
    while k > 0
        invariant
            0 <= k <= groups@.len(),
            groups@.len() == invs.len(),
            forall|j: int| 0 <= j < groups@.len() ==> steps_of(#[trigger] groups@[j]@) == invs[j],
            steps_of(flat@) == rev_flat(invs.subrange(k as int, invs.len() as int)),
        decreases k,
    {
        k -= 1;
        let group = &groups[k];
        let ghost pre = steps_of(flat@);
        let mut m: usize = 0;
        while m < group.len()
            invariant
                0 <= m <= group@.len(),
                steps_of(flat@) == pre + steps_of(group@).take(m as int),
            decreases group@.len() - m,
        {
            let ghost f0 = steps_of(flat@);
            let c = group[m].copy();
            flat.push(c);
            proof {
                assert(steps_of(flat@) =~= f0.push(group@[m as int]@));
                assert(steps_of(group@).take(m + 1) =~= steps_of(group@).take(m as int).push(
                    group@[m as int]@,
                ));
                assert(steps_of(flat@) =~= pre + steps_of(group@).take(m + 1));
            }
            m += 1;
        }
        proof {
            assert(steps_of(group@).take(m as int) =~= steps_of(group@));
            assert(invs.subrange(k as int, invs.len() as int).drop_first() =~= invs.subrange(
                k + 1,
                invs.len() as int,
            ));
        }
    }
    proof {
        assert(invs.subrange(0, invs.len() as int) =~= invs);
    }
    Change::new(flat)
}

} // verus!
