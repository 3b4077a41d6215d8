//! Composition of sequential identity-addressed Changes against their base.
use crate::compose::compose_text;
use crate::engine::algebra_error;
use crate::error::{CollaError, ErrorCode};
use crate::model::{compose_units, expand};
use crate::operation::{
    apply_operation, apply_step, canonical_steps, steps_of, Change, Operation, Step,
};
use crate::runs::normalizes;
use crate::transform_change::text_of_units;
use crate::tree::{same_id, Tree, Value};
use vstd::prelude::*;

verus! {

/// Running `ops` from `t`: the content after them, and the operations that
/// changed the content they were applied to.
pub open spec fn normalize_run(t: Tree, ops: Seq<Step>) -> Result<(Tree, Seq<Step>), ErrorCode>
    decreases ops.len(),
{
    if ops.len() == 0 {
        Ok((t, Seq::empty()))
    } else {
        match normalize_run(t, ops.drop_last()) {
            Err(e) => Err(e),
            Ok(r) => match apply_step(r.0, ops.last()) {
                Err(e) => Err(e),
                Ok(n) => Ok(
                    (
                        n,
                        if n != r.0 {
                            r.1.push(ops.last())
                        } else {
                            r.1
                        },
                    ),
                ),
            },
        }
    }
}

/// `ops` against `t` without the operations that change nothing; nothing
/// at all where the whole run leaves `t` as it was.
pub open spec fn normalized(t: Tree, ops: Seq<Step>) -> Result<Seq<Step>, ErrorCode> {
    match normalize_run(t, ops) {
        Err(e) => Err(e),
        Ok(r) => Ok(
            if r.0 == t {
                Seq::empty()
            } else {
                r.1
            },
        ),
    }
}

/// A canonical Text stream has the effect of `units`.
pub open spec fn text_of_units_exists(units: Seq<crate::model::Unit<char>>) -> bool {
    exists|v: Seq<crate::model::OpView>|
        crate::change::canonical(v) && expand(v) == crate::model::normal_units(units)
}

/// The single operation with the effect of `last` then `op` on the same
/// target, where the two merge: Adds whose sum fits, Text changes (failing
/// where their composition overflows), and repeated Assigns or Moves.
pub open spec fn merge_with(last: Step, op: Step) -> Option<Result<Step, ErrorCode>> {
    match (last, op) {
        (Step::Add(a, x), Step::Add(b, y)) => if a == b && i64::MIN <= x + y <= i64::MAX {
            Some(Ok(Step::Add(a, (x + y) as i64)))
        } else {
            None
        },
        (Step::Text(a, x), Step::Text(b, y)) => if a == b {
            if normalizes(compose_units(expand(x), expand(y))) && text_of_units_exists(
                compose_units(expand(x), expand(y)),
            ) {
                Some(Ok(Step::Text(a, text_of_units(compose_units(expand(x), expand(y))))))
            } else {
                Some(Err(ErrorCode::IncompatibleChange))
            }
        } else {
            None
        },
        (Step::Assign(a, _), Step::Assign(b, _)) => if a == b {
            Some(Ok(op))
        } else {
            None
        },
        (Step::Move(a, _, _), Step::Move(b, _, _)) => if a == b {
            Some(Ok(op))
        } else {
            None
        },
        _ => None,
    }
}

/// `ops` with each operation merged into the one before it where they merge.
pub open spec fn merge_run(ops: Seq<Step>) -> Result<Seq<Step>, ErrorCode>
    decreases ops.len(),
{
    if ops.len() == 0 {
        Ok(Seq::empty())
    } else {
        match merge_run(ops.drop_last()) {
            Err(e) => Err(e),
            Ok(out) => if out.len() == 0 {
                Ok(out.push(ops.last()))
            } else {
                match merge_with(out.last(), ops.last()) {
                    None => Ok(out.push(ops.last())),
                    Some(Err(e)) => Err(e),
                    Some(Ok(m)) => Ok(out.drop_last().push(m)),
                }
            },
        }
    }
}

/// The outcome of composing `first` then `second` against `t`: the joined
/// operations are canonicalized and run against `t` (so an intermediate
/// failure fails the composition), merged, and canonicalized and run again.
pub open spec fn compose_spec(t: Tree, first: Seq<Step>, second: Seq<Step>) -> Result<Seq<Step>, ErrorCode> {
    match canonical_steps(first + second) {
        Err(e) => Err(e),
        Ok(a) => match normalized(t, a) {
            Err(e) => Err(e),
            Ok(b) => match merge_run(b) {
                Err(e) => Err(e),
                Ok(c) => match canonical_steps(c) {
                    Err(e) => Err(e),
                    Ok(d) => normalized(t, d),
                },
            },
        },
    }
}

proof fn lemma_normalize_err(t: Tree, ops: Seq<Step>, j: int)
    requires
        0 <= j <= ops.len(),
        normalize_run(t, ops.take(j)) is Err,
    ensures
        normalize_run(t, ops) == normalize_run(t, ops.take(j)),
    decreases ops.len() - j,
{
    if j < ops.len() {
        assert(ops.take(j + 1).drop_last() =~= ops.take(j));
        lemma_normalize_err(t, ops, j + 1);
    } else {
        assert(ops.take(j) =~= ops);
    }
}

proof fn lemma_merge_err(ops: Seq<Step>, j: int)
    requires
        0 <= j <= ops.len(),
        merge_run(ops.take(j)) is Err,
    ensures
        merge_run(ops) == merge_run(ops.take(j)),
    decreases ops.len() - j,
{
    if j < ops.len() {
        assert(ops.take(j + 1).drop_last() =~= ops.take(j));
        lemma_merge_err(ops, j + 1);
    } else {
        assert(ops.take(j) =~= ops);
    }
}

/// Drops the operations of `ops` that change nothing against `base`; also
/// returns the content after them.
pub(crate) fn normalize(base: &Value, ops: &[Operation]) -> (r: Result<(Vec<Operation>, Value), CollaError>)
    ensures
        match normalized(base@, steps_of(ops@)) {
            Ok(s) => r is Ok && steps_of(r->Ok_0.0@) == s
                && r->Ok_0.1@ == normalize_run(base@, steps_of(ops@))->Ok_0.0,
            Err(c) => r is Err && r->Err_0.code == c,
        },
{
    let ghost all = steps_of(ops@);
    let mut value = base.copy();
    let mut kept: Vec<Operation> = Vec::new();
    let mut i: usize = 0;
    proof {
        assert(all.take(0) =~= Seq::<Step>::empty());
        assert(steps_of(kept@) =~= Seq::<Step>::empty());
    }
    while i < ops.len()
        invariant
            0 <= i <= ops@.len(),
            all == steps_of(ops@),
            normalize_run(base@, all.take(i as int)) == Ok::<(Tree, Seq<Step>), ErrorCode>(
                (value@, steps_of(kept@)),
            ),
        decreases ops@.len() - i,
    {
        proof {
            assert(all.take(i + 1).drop_last() =~= all.take(i as int));
            assert(all.take(i + 1).last() == ops@[i as int]@);
        }
        let next = match apply_operation(&value, &ops[i]) {
            Ok(v) => v,
            Err(e) => {
                proof {
                    lemma_normalize_err(base@, all, i + 1);
                }
                return Err(e);
            },
        };
        if !next.same_value(&value) {
            let ghost k0 = steps_of(kept@);
            kept.push(ops[i].copy());
            proof {
                assert(steps_of(kept@) =~= k0.push(ops@[i as int]@));
            }
        }
        value = next;
        i += 1;
    }
    proof {
        assert(all.take(i as int) =~= all);
    }
    if value.same_value(base) {
        kept = Vec::new();
        proof {
            assert(steps_of(kept@) =~= Seq::<Step>::empty());
        }
    }
    Ok((kept, value))
}

/// Merges `last` and `op` where they merge.
fn merge_pair(last: &Operation, op: &Operation) -> (r: Option<Result<Operation, CollaError>>)
    ensures
        match merge_with(last@, op@) {
            None => r is None,
            Some(Ok(s)) => r matches Some(Ok(o)) && o@ == s,
            Some(Err(c)) => r matches Some(Err(e)) && e.code == c,
        },
{
    match (last, op) {
        (Operation::Add { target: a, delta: x }, Operation::Add { target: b, delta: y }) => {
            if same_id(*a, *b) {
                match x.checked_add(*y) {
                    Some(d) => Some(Ok(Operation::Add { target: *a, delta: d })),
                    None => None,
                }
            } else {
                None
            }
        },
        (Operation::Text { target: a, change: x }, Operation::Text { target: b, change: y }) => {
            if same_id(*a, *b) {
                match compose_text(x, y) {
                    Ok(c) => {
                        proof {
                            assert(text_of_units_exists(compose_units(expand(x@), expand(y@))));
                            crate::laws::lemma_canonical_unique(
                                c@,
                                text_of_units(compose_units(expand(x@), expand(y@))),
                            );
                        }
                        Some(Ok(Operation::Text { target: *a, change: c }))
                    },
                    Err(_) => Some(Err(algebra_error("text changes do not compose"))),
                }
            } else {
                None
            }
        },
        (Operation::Assign { target: a, .. }, Operation::Assign { target: b, .. }) => {
            if same_id(*a, *b) {
                Some(Ok(op.copy()))
            } else {
                None
            }
        },
        (Operation::Move { target: a, .. }, Operation::Move { target: b, .. }) => {
            if same_id(*a, *b) {
                Some(Ok(op.copy()))
            } else {
                None
            }
        },
        _ => None,
    }
}

/// Merges each operation into the one before it where they merge.
fn merge(ops: &Vec<Operation>) -> (r: Result<Vec<Operation>, CollaError>)
    ensures
        match merge_run(steps_of(ops@)) {
            Ok(s) => r is Ok && steps_of(r->Ok_0@) == s,
            Err(c) => r is Err && r->Err_0.code == c,
        },
{
    let ghost all = steps_of(ops@);
    let mut out: Vec<Operation> = Vec::new();
    let mut i: usize = 0;
    proof {
        assert(all.take(0) =~= Seq::<Step>::empty());
        assert(steps_of(out@) =~= Seq::<Step>::empty());
    }
    while i < ops.len()
        invariant
            0 <= i <= ops@.len(),
            all == steps_of(ops@),
            merge_run(all.take(i as int)) == Ok::<Seq<Step>, ErrorCode>(steps_of(out@)),
        decreases ops@.len() - i,
    {
        proof {
            assert(all.take(i + 1).drop_last() =~= all.take(i as int));
            assert(all.take(i + 1).last() == ops@[i as int]@);
        }
        let ghost o0 = steps_of(out@);
        let n = out.len();
        let merged = if n == 0 {
            None
        } else {
            proof {
                assert(o0.last() == out@[n - 1]@);
            }
            merge_pair(&out[n - 1], &ops[i])
        };
        match merged {
            None => {
                out.push(ops[i].copy());
                proof {
                    assert(steps_of(out@) =~= o0.push(ops@[i as int]@));
                }
            },
            Some(Err(e)) => {
                proof {
                    lemma_merge_err(all, i + 1);
                }
                return Err(e);
            },
            Some(Ok(m)) => {
                out.pop();
                out.push(m);
                proof {
                    assert(steps_of(out@) =~= o0.drop_last().push(m@));
                }
            },
        }
        i += 1;
    }
    proof {
        assert(all.take(i as int) =~= all);
    }
    Ok(out)
}

/// Composes sequential Changes against their original base, validating the
/// intermediate steps: applying the result to `base` has the effect of
/// applying `first` and then `second`.
pub fn compose(base: &Value, first: &Change, second: &Change) -> (r: Result<Change, CollaError>)
    ensures
        match compose_spec(base@, first@, second@) {
            Ok(s) => r is Ok && r->Ok_0@ == s,
            Err(c) => r is Err && r->Err_0.code == c,
        },
{
    let a = first.operations();
    let b = second.operations();
    let mut joined: Vec<Operation> = Vec::new();
    let mut i: usize = 0;
    while i < a.len()
        invariant
            0 <= i <= a@.len(),
            steps_of(joined@) == steps_of(a@).take(i as int),
        decreases a@.len() - i,
    {
        let ghost j0 = steps_of(joined@);
        joined.push(a[i].copy());
        proof {
            assert(steps_of(joined@) =~= j0.push(a@[i as int]@));
            assert(steps_of(joined@) =~= steps_of(a@).take(i + 1));
        }
        i += 1;
    }
    let mut k: usize = 0;
    proof {
        assert(steps_of(a@).take(i as int) =~= steps_of(a@));
        assert(steps_of(b@).take(0) =~= Seq::<Step>::empty());
    }
    while k < b.len()
        invariant
            0 <= k <= b@.len(),
            steps_of(joined@) == steps_of(a@) + steps_of(b@).take(k as int),
        decreases b@.len() - k,
    {
        let ghost j0 = steps_of(joined@);
        joined.push(b[k].copy());
        proof {
            assert(steps_of(joined@) =~= j0.push(b@[k as int]@));
            assert(steps_of(joined@) =~= steps_of(a@) + steps_of(b@).take(k + 1));
        }
        k += 1;
    }
    proof {
        assert(steps_of(b@).take(k as int) =~= steps_of(b@));
        assert(steps_of(joined@) == first@ + second@);
    }
    let sequence = Change::new(joined)?;
    let kept = normalize(base, sequence.operations())?.0;
    let merged = merge(&kept)?;
    let canonical = Change::new(merged)?;
    let result = normalize(base, canonical.operations())?.0;
    Ok(Change::from_vec(result))
}

} // verus!
