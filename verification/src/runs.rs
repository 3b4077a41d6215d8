//! Exactly when normalizing an operation stream succeeds.
//!
//! Normalization merges each maximal run of keeps, puts or drops of the
//! reordered steps into one operation. It fails exactly when such a run is
//! too long for one operation.
use crate::change::{
    byte_len, fold_view, inserts_fit, lemma_encode_utf8_concat, lemma_normalize_view, lengths_fit,
    normalize_view, op_units, push_view, TextOp,
};
use crate::fits::lemma_expand_measures;
use crate::laws::{op_kind, unit_kind};
use crate::model::{
    consumed, drops, emit, expand, keeps, normal_units, produced, lemma_emit_concat, lemma_emit_drops, lemma_emit_keeps,
    lemma_emit_puts, lemma_expand_push, lemma_keeps_add, lemma_reorder_split, op_steps, pend,
    puts, reorder, OpView, Unit,
};
use vstd::prelude::*;

verus! {

/// The one-step operation for a unit.
pub open spec fn unit_op(u: Unit<char>) -> OpView {
    match u {
        Unit::Keep => OpView::Retain(1),
        Unit::Put(c) => OpView::Insert(seq![c]),
        Unit::Drop => OpView::Delete(1),
    }
}

/// An operation extended by one more unit of its kind.
pub open spec fn grow(op: OpView, u: Unit<char>) -> OpView {
    match (op, u) {
        (OpView::Retain(n), _) => OpView::Retain(n + 1),
        (OpView::Insert(s), Unit::Put(c)) => OpView::Insert(s.push(c)),
        (OpView::Insert(s), _) => OpView::Insert(s),
        (OpView::Delete(n), _) => OpView::Delete(n + 1),
    }
}

/// Adds one unit to a run chunking.
pub open spec fn add_unit(c: Seq<OpView>, u: Unit<char>) -> Seq<OpView> {
    if c.len() > 0 && op_kind(c.last()) == unit_kind(u) {
        c.drop_last().push(grow(c.last(), u))
    } else {
        c.push(unit_op(u))
    }
}

/// The maximal runs of a step stream, one operation each.
pub open spec fn runs(y: Seq<Unit<char>>) -> Seq<OpView>
    decreases y.len(),
{
    if y.len() == 0 {
        seq![]
    } else {
        add_unit(runs(y.drop_last()), y.last())
    }
}

/// One operation's length fits: counts in `usize`, inserted text in one allocation.
pub open spec fn op_fits(op: OpView) -> bool {
    match op {
        OpView::Retain(n) => n <= usize::MAX,
        OpView::Insert(s) => byte_len(s) <= isize::MAX,
        OpView::Delete(n) => n <= usize::MAX,
    }
}

/// Every maximal run of `y` fits in one operation.
pub open spec fn runs_fit(y: Seq<Unit<char>>) -> bool {
    forall|i: int| 0 <= i < runs(y).len() ==> op_fits(#[trigger] runs(y)[i])
}

/// Each operation of a stream fits on its own.
pub open spec fn ops_fit(ops: Seq<OpView>) -> bool {
    forall|i: int| 0 <= i < ops.len() ==> op_fits(#[trigger] ops[i])
}

proof fn lemma_runs_push(y: Seq<Unit<char>>, u: Unit<char>)
    ensures
        runs(y.push(u)) == add_unit(runs(y), u),
{
    assert(y.push(u).drop_last() =~= y);
}

/// The last run has the kind of the last step.
proof fn lemma_runs_last(y: Seq<Unit<char>>)
    requires
        y.len() > 0,
    ensures
        runs(y).len() > 0,
        op_kind(runs(y).last()) == unit_kind(y.last()),
{
    let c = runs(y.drop_last());
    let u = y.last();
    if c.len() > 0 && op_kind(c.last()) == unit_kind(u) {
        assert(op_kind(grow(c.last(), u)) == op_kind(c.last()));
    }
}

/// Appending `n` keeps extends a trailing retain or adds one.
proof fn lemma_runs_keeps(y: Seq<Unit<char>>, n: nat)
    requires
        n > 0,
    ensures
        runs(y + keeps(n)) == if runs(y).len() > 0 && runs(y).last() is Retain {
            runs(y).drop_last().push(OpView::Retain(runs(y).last()->Retain_0 + n))
        } else {
            runs(y).push(OpView::Retain(n))
        },
    decreases n,
{
    assert(y + keeps(n) =~= (y + keeps((n - 1) as nat)).push(Unit::Keep));
    lemma_runs_push(y + keeps((n - 1) as nat), Unit::Keep);
    if n > 1 {
        lemma_runs_keeps(y, (n - 1) as nat);
    } else {
        assert(y + keeps(0) =~= y);
    }
}

/// Appending `n` drops extends a trailing delete or adds one.
proof fn lemma_runs_drops(y: Seq<Unit<char>>, n: nat)
    requires
        n > 0,
    ensures
        runs(y + drops(n)) == if runs(y).len() > 0 && runs(y).last() is Delete {
            runs(y).drop_last().push(OpView::Delete(runs(y).last()->Delete_0 + n))
        } else {
            runs(y).push(OpView::Delete(n))
        },
    decreases n,
{
    assert(y + drops(n) =~= (y + drops((n - 1) as nat)).push(Unit::Drop));
    lemma_runs_push(y + drops((n - 1) as nat), Unit::Drop);
    if n > 1 {
        lemma_runs_drops(y, (n - 1) as nat);
    } else {
        assert(y + drops(0) =~= y);
    }
}

/// Appending the puts of `t` extends a trailing insert or adds one.
proof fn lemma_runs_puts(y: Seq<Unit<char>>, t: Seq<char>)
    requires
        t.len() > 0,
    ensures
        runs(y + puts(t)) == if runs(y).len() > 0 && runs(y).last() is Insert {
            runs(y).drop_last().push(OpView::Insert(runs(y).last()->Insert_0 + t))
        } else {
            runs(y).push(OpView::Insert(t))
        },
    decreases t.len(),
{
    let t1 = t.drop_last();
    assert(y + puts(t) =~= (y + puts(t1)).push(Unit::Put(t.last())));
    lemma_runs_push(y + puts(t1), Unit::Put(t.last()));
    if t1.len() > 0 {
        lemma_runs_puts(y, t1);
        assert(t1.push(t.last()) =~= t);
        let c = runs(y + puts(t1));
        assert(c.len() > 0 && c.last() is Insert);
        if runs(y).len() > 0 && runs(y).last() is Insert {
            assert((runs(y).last()->Insert_0 + t1).push(t.last()) =~= runs(y).last()->Insert_0 + t);
            assert(c.drop_last() =~= runs(y).drop_last());
        } else {
            assert(c.drop_last() =~= runs(y));
        }
    } else {
        assert(puts(t1) =~= Seq::<Unit<char>>::empty());
        assert(y + puts(t1) =~= y);
        assert(seq![t.last()] =~= t);
        if runs(y).len() > 0 && runs(y).last() is Insert {
            assert(runs(y).last()->Insert_0.push(t.last()) =~= runs(y).last()->Insert_0 + t);
        }
    }
}

/// The settled steps never end with a drop.
proof fn lemma_emit_no_trailing_drop(x: Seq<Unit<char>>, d: nat)
    ensures
        emit(x, d).len() > 0 ==> !(emit(x, d).last() is Drop),
    decreases x.len(),
{
    if x.len() > 0 {
        let rest = x.drop_first();
        match x[0] {
            Unit::Put(c) => {
                lemma_emit_no_trailing_drop(rest, d);
            },
            Unit::Drop => {
                lemma_emit_no_trailing_drop(rest, d + 1);
            },
            Unit::Keep => {
                lemma_emit_no_trailing_drop(rest, 0);
            },
        }
    }
}

/// A run chunking that does not fit still does not fit after its last run
/// grows or a run is added.
proof fn lemma_unfit_extend(c: Seq<OpView>, d: Seq<OpView>)
    requires
        !(forall|i: int| 0 <= i < c.len() ==> op_fits(#[trigger] c[i])),
        c.len() <= d.len(),
        forall|i: int| 0 <= i < c.len() - 1 ==> #[trigger] d[i] == c[i],
        c.len() > 0 ==> (op_fits(d[c.len() - 1]) ==> op_fits(c[c.len() - 1])),
    ensures
        !(forall|i: int| 0 <= i < d.len() ==> op_fits(#[trigger] d[i])),
{
    let i = choose|i: int| 0 <= i < c.len() && !op_fits(#[trigger] c[i]);
    if i < c.len() - 1 {
        assert(d[i] == c[i]);
    }
}

/// A fitting chunking stays fitting when its last run is replaced or a run
/// is added by one that fits.
proof fn lemma_fit_extend(c: Seq<OpView>, d: Seq<OpView>)
    requires
        forall|i: int| 0 <= i < c.len() ==> op_fits(#[trigger] c[i]),
        d.len() > 0,
        d.len() == c.len() || d.len() == c.len() + 1,
        forall|i: int| 0 <= i < d.len() - 1 ==> #[trigger] d[i] == c[i],
        op_fits(d.last()),
    ensures
        forall|i: int| 0 <= i < d.len() ==> op_fits(#[trigger] d[i]),
{
    assert forall|i: int| 0 <= i < d.len() implies op_fits(#[trigger] d[i]) by {
        if i < d.len() - 1 {
            assert(d[i] == c[i]);
        }
    }
}

/// Pushing a retain onto the runs of `y0` matches the runs of `y0` followed
/// by that many keeps.
proof fn lemma_push_retain(y0: Seq<Unit<char>>, n: nat)
    requires
        runs_fit(y0),
        0 < n <= usize::MAX,
    ensures
        push_view(runs(y0), OpView::Retain(n)) is Some <==> runs_fit(y0 + keeps(n)),
        push_view(runs(y0), OpView::Retain(n)) is Some ==> push_view(runs(y0), OpView::Retain(n))->Some_0
            == runs(y0 + keeps(n)),
{
    let c = runs(y0);
    lemma_runs_keeps(y0, n);
    let d = runs(y0 + keeps(n));
    if c.len() > 0 && c.last() is Retain {
        let a = c.last()->Retain_0;
        if a + n <= usize::MAX {
            lemma_fit_extend(c, d);
        } else {
            assert(!op_fits(d[d.len() - 1]));
        }
    } else {
        if c.len() == 0 {
            assert(seq![OpView::Retain(n)] =~= c.push(OpView::Retain(n)));
        }
        lemma_fit_extend(c, d);
    }
}

/// Pushing a delete onto the runs of `y0` matches the runs of `y0` followed
/// by that many drops.
proof fn lemma_push_delete(y0: Seq<Unit<char>>, n: nat)
    requires
        runs_fit(y0),
        0 < n <= usize::MAX,
    ensures
        push_view(runs(y0), OpView::Delete(n)) is Some <==> runs_fit(y0 + drops(n)),
        push_view(runs(y0), OpView::Delete(n)) is Some ==> push_view(runs(y0), OpView::Delete(n))->Some_0
            == runs(y0 + drops(n)),
{
    let c = runs(y0);
    lemma_runs_drops(y0, n);
    let d = runs(y0 + drops(n));
    if c.len() > 0 && c.last() is Delete {
        let a = c.last()->Delete_0;
        if a + n <= usize::MAX {
            lemma_fit_extend(c, d);
        } else {
            assert(!op_fits(d[d.len() - 1]));
        }
    } else {
        if c.len() == 0 {
            assert(seq![OpView::Delete(n)] =~= c.push(OpView::Delete(n)));
        }
        lemma_fit_extend(c, d);
    }
}

/// Pushing an insert onto the runs of settled steps `e0` matches the runs of
/// `e0` followed by the inserted puts.
proof fn lemma_push_insert(e0: Seq<Unit<char>>, t: Seq<char>)
    requires
        runs_fit(e0),
        t.len() > 0,
        byte_len(t) <= isize::MAX,
        e0.len() > 0 ==> !(e0.last() is Drop),
    ensures
        push_view(runs(e0), OpView::Insert(t)) is Some <==> runs_fit(e0 + puts(t)),
        push_view(runs(e0), OpView::Insert(t)) is Some ==> push_view(runs(e0), OpView::Insert(t))->Some_0
            == runs(e0 + puts(t)),
{
    let c = runs(e0);
    if e0.len() > 0 {
        lemma_runs_last(e0);
    }
    lemma_runs_puts(e0, t);
    let d = runs(e0 + puts(t));
    if c.len() > 0 && c.last() is Insert {
        let a = c.last()->Insert_0;
        lemma_encode_utf8_concat(a, t);
        if byte_len(a) + byte_len(t) <= isize::MAX {
            lemma_fit_extend(c, d);
        } else {
            assert(!op_fits(d[d.len() - 1]));
        }
    } else {
        if c.len() == 0 {
            assert(seq![OpView::Insert(t)] =~= c.push(OpView::Insert(t)));
        }
        lemma_fit_extend(c, d);
    }
}

/// A run chunking that does not fit still does not fit after `n` keeps.
proof fn lemma_unfit_keeps(y0: Seq<Unit<char>>, n: nat)
    requires
        !runs_fit(y0),
        n > 0,
    ensures
        !runs_fit(y0 + keeps(n)),
{
    lemma_runs_keeps(y0, n);
    lemma_unfit_extend(runs(y0), runs(y0 + keeps(n)));
}

/// A run chunking that does not fit still does not fit after `n` drops.
proof fn lemma_unfit_drops(y0: Seq<Unit<char>>, n: nat)
    requires
        !runs_fit(y0),
        n > 0,
    ensures
        !runs_fit(y0 + drops(n)),
{
    lemma_runs_drops(y0, n);
    lemma_unfit_extend(runs(y0), runs(y0 + drops(n)));
}

/// A run chunking that does not fit still does not fit after the puts of `t`.
proof fn lemma_unfit_puts(y0: Seq<Unit<char>>, t: Seq<char>)
    requires
        !runs_fit(y0),
        t.len() > 0,
    ensures
        !runs_fit(y0 + puts(t)),
{
    let c = runs(y0);
    lemma_runs_puts(y0, t);
    if c.len() > 0 && c.last() is Insert {
        lemma_encode_utf8_concat(c.last()->Insert_0, t);
    }
    lemma_unfit_extend(c, runs(y0 + puts(t)));
}

/// What the fold gives for a stream, stated against its reordered steps.
pub open spec fn fold_matches_runs(raw: Seq<OpView>) -> bool {
    &&& fold_view(raw) is Some <==> runs_fit(reorder(expand(raw), 0))
    &&& fold_view(raw) is Some ==> fold_view(raw)->Some_0 == runs(reorder(expand(raw), 0))
}

/// The fold step for a nonempty retain or delete, whose steps go at the end.
proof fn lemma_fold_step_tail(init: Seq<OpView>, op: OpView)
    requires
        fold_matches_runs(init),
        op is Retain || op is Delete,
        0 < op_units(op) <= usize::MAX,
        op is Retain ==> reorder(expand(init.push(op)), 0) == reorder(expand(init), 0) + keeps(
            op_units(op),
        ),
        op is Delete ==> reorder(expand(init.push(op)), 0) == reorder(expand(init), 0) + drops(
            op_units(op),
        ),
    ensures
        fold_matches_runs(init.push(op)),
{
    let y0 = reorder(expand(init), 0);
    let n = op_units(op);
    assert(init.push(op).drop_last() =~= init);
    if op is Retain {
        if fold_view(init) is Some {
            lemma_push_retain(y0, n);
        } else {
            lemma_unfit_keeps(y0, n);
        }
    } else {
        if fold_view(init) is Some {
            lemma_push_delete(y0, n);
        } else {
            lemma_unfit_drops(y0, n);
        }
    }
}

/// The fold step for a nonempty insert with no pending drops.
proof fn lemma_fold_step_insert_settled(init: Seq<OpView>, t: Seq<char>)
    requires
        fold_matches_runs(init),
        t.len() > 0,
        byte_len(t) <= isize::MAX,
        reorder(expand(init), 0).len() > 0 ==> !(reorder(expand(init), 0).last() is Drop),
        reorder(expand(init.push(OpView::Insert(t))), 0) == reorder(expand(init), 0) + puts(t),
    ensures
        fold_matches_runs(init.push(OpView::Insert(t))),
{
    let y0 = reorder(expand(init), 0);
    assert(init.push(OpView::Insert(t)).drop_last() =~= init);
    if fold_view(init) is Some {
        lemma_push_insert(y0, t);
    } else {
        lemma_unfit_puts(y0, t);
    }
}

/// The runs of settled steps, puts and then `p` drops.
proof fn lemma_runs_insert_before_drops(e0: Seq<Unit<char>>, t: Seq<char>, p: nat)
    requires
        t.len() > 0,
        p > 0,
        e0.len() > 0 ==> !(e0.last() is Drop),
    ensures
        runs(e0 + drops(p)) == runs(e0).push(OpView::Delete(p)),
        runs(e0 + puts(t) + drops(p)) == runs(e0 + puts(t)).push(OpView::Delete(p)),
{
    if e0.len() > 0 {
        lemma_runs_last(e0);
    }
    lemma_runs_drops(e0, p);
    assert((e0 + puts(t)).len() > 0);
    assert((e0 + puts(t)).last() == Unit::<char>::Put(t.last()));
    lemma_runs_last(e0 + puts(t));
    lemma_runs_drops(e0 + puts(t), p);
}

/// The fold step for a nonempty insert that goes before `p` pending drops.
#[verifier::rlimit(40)]
proof fn lemma_fold_step_insert_pending(
    init: Seq<OpView>,
    e0: Seq<Unit<char>>,
    t: Seq<char>,
    p: nat,
)
    requires
        fold_matches_runs(init),
        t.len() > 0,
        p > 0,
        byte_len(t) <= isize::MAX,
        e0.len() > 0 ==> !(e0.last() is Drop),
        reorder(expand(init), 0) == e0 + drops(p),
        reorder(expand(init.push(OpView::Insert(t))), 0) == e0 + puts(t) + drops(p),
    ensures
        fold_matches_runs(init.push(OpView::Insert(t))),
{
    let raw = init.push(OpView::Insert(t));
    assert(raw.drop_last() =~= init);
    lemma_runs_insert_before_drops(e0, t, p);
    let ce = runs(e0);
    let cp = runs(e0 + puts(t));
    let c0 = runs(e0 + drops(p));
    let c1 = runs(e0 + puts(t) + drops(p));
    assert(c0.drop_last() =~= ce);
    assert(c1.drop_last() =~= cp);
    if fold_view(init) is Some {
        assert forall|i: int| 0 <= i < ce.len() implies op_fits(#[trigger] ce[i]) by {
            assert(c0[i] == ce[i]);
        }
        assert(op_fits(c0[c0.len() - 1]));
        lemma_push_insert(e0, t);
        assert(push_view(c0, OpView::Insert(t)) == match push_view(ce, OpView::Insert(t)) {
            Some(o) => Some(o.push(OpView::Delete(p))),
            None => None,
        });
        if runs_fit(e0 + puts(t)) {
            lemma_fit_extend(cp, c1);
        } else {
            let j = choose|j: int| 0 <= j < cp.len() && !op_fits(#[trigger] cp[j]);
            assert(c1[j] == cp[j]);
        }
    } else {
        let j = choose|j: int| 0 <= j < c0.len() && !op_fits(#[trigger] c0[j]);
        if j == c0.len() - 1 {
            assert(c1[c1.len() - 1] == OpView::Delete(p));
        } else {
            assert(c0[j] == ce[j]);
            lemma_unfit_puts(e0, t);
            let k = choose|k: int| 0 <= k < cp.len() && !op_fits(#[trigger] cp[k]);
            assert(c1[k] == cp[k]);
        }
    }
}

/// Normalization's merge fold succeeds exactly when every maximal run of the
/// reordered steps fits, and then it yields those runs.
#[verifier::rlimit(40)]
pub proof fn lemma_fold_runs(raw: Seq<OpView>)
    requires
        ops_fit(raw),
    ensures
        fold_matches_runs(raw),
    decreases raw.len(),
{
    if raw.len() == 0 {
        assert(expand(raw) =~= Seq::<Unit<char>>::empty());
        assert(reorder(expand(raw), 0) =~= Seq::<Unit<char>>::empty());
        assert(runs(reorder(expand(raw), 0)) =~= Seq::<OpView>::empty());
    } else {
        let init = raw.drop_last();
        let op = raw.last();
        assert forall|i: int| 0 <= i < init.len() implies op_fits(#[trigger] init[i]) by {
            assert(init[i] == raw[i]);
        }
        assert(op_fits(raw[raw.len() - 1]));
        lemma_fold_runs(init);
        assert(init.push(op) =~= raw);
        let x0 = expand(init);
        let e0 = emit(x0, 0);
        let p0 = pend(x0, 0);
        let y0 = reorder(x0, 0);
        lemma_reorder_split(x0, 0);
        lemma_expand_push(init, op);
        let st = op_steps(op);
        let x = x0 + st;
        lemma_reorder_split(x, 0);
        lemma_emit_concat(x0, st, 0);
        lemma_emit_no_trailing_drop(x0, 0);
        let y = reorder(x, 0);
        if op_units(op) == 0 {
            match op {
                OpView::Insert(t) => {
                    assert(t =~= Seq::<char>::empty());
                    assert(puts(t) =~= Seq::<Unit<char>>::empty());
                },
                OpView::Retain(n) => {
                    assert(keeps(0) =~= Seq::<Unit<char>>::empty());
                },
                OpView::Delete(n) => {
                    assert(drops(0) =~= Seq::<Unit<char>>::empty());
                },
            }
            assert(x =~= x0);
        } else {
            match op {
                OpView::Retain(n) => {
                    lemma_emit_keeps(n, p0);
                    assert(drops(0) =~= Seq::<Unit<char>>::empty());
                    assert(y =~= y0 + keeps(n));
                    lemma_fold_step_tail(init, op);
                },
                OpView::Delete(n) => {
                    lemma_emit_drops(n, p0);
                    lemma_keeps_add(p0, n);
                    assert(emit(st, p0) =~= Seq::<Unit<char>>::empty());
                    assert(y =~= y0 + drops(n));
                    lemma_fold_step_tail(init, op);
                },
                OpView::Insert(t) => {
                    lemma_emit_puts(t, p0);
                    assert(y =~= e0 + puts(t) + drops(p0));
                    if p0 == 0 {
                        assert(drops(0) =~= Seq::<Unit<char>>::empty());
                        assert(y0 =~= e0);
                        assert(y =~= e0 + puts(t));
                        lemma_fold_step_insert_settled(init, t);
                    } else {
                        lemma_fold_step_insert_pending(init, e0, t, p0);
                    }
                },
            }
        }
    }
}

/// A step stream whose canonical form can be built: every maximal run of
/// its reordered steps fits in one operation and the canonical stream's
/// lengths fit in `usize`.
pub open spec fn normalizes(x: Seq<Unit<char>>) -> bool {
    &&& runs_fit(reorder(x, 0))
    &&& consumed(normal_units(x)) <= usize::MAX
    &&& produced(normal_units(x)) <= usize::MAX
}

/// An operation stream of fitting operations normalizes to a stream whose
/// lengths fit exactly when its steps normalize.
pub proof fn lemma_normalizes(ops: Seq<OpView>)
    requires
        ops_fit(ops),
    ensures
        (normalize_view(ops) is Some && lengths_fit(normalize_view(ops)->Some_0)) <==> normalizes(
            expand(ops),
        ),
{
    lemma_fold_runs(ops);
    if normalize_view(ops) is Some {
        assert forall|i: int| 0 <= i < ops.len() implies crate::change::insert_fits(
            #[trigger] ops[i],
        ) by {
            assert(op_fits(ops[i]));
        }
        lemma_normalize_view(ops);
        lemma_expand_measures(normalize_view(ops)->Some_0);
    }
}

/// Every operation of a built stream fits once its inserted texts do.
pub proof fn lemma_text_ops_fit(v: Vec<TextOp>)
    requires
        inserts_fit(v.deep_view()),
    ensures
        ops_fit(v.deep_view()),
{
    assert forall|i: int| 0 <= i < v.deep_view().len() implies op_fits(
        #[trigger] v.deep_view()[i],
    ) by {
        assert(v.deep_view()[i] == v@[i].deep_view());
        assert(crate::change::insert_fits(v.deep_view()[i]));
    }
}

} // verus!
