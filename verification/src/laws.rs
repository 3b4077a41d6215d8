//! Laws of the Text change algebra that relate several operations.
use crate::change::{
    canonical, fold_view, insert_fits, joinable, lemma_normalize_view, normalize_view, op_units,
    push_view, settled_form, trim_retains, TieBreak,
};
use crate::compose::{lemma_compose_left_empty, lemma_compose_right_empty};
use crate::model::{
    apply_ops, compose_units, drops, expand, keeps, lemma_compose_run, lemma_emit_keeps,
    lemma_expand_push, lemma_normal_run, lemma_puts_len, lemma_reorder_split,
    lemma_transform_left_empty, lemma_transform_right_empty, lemma_transform_run, lemma_trim_keeps_suffix, normal_units,
    op_steps, put_count, puts, reorder, run, transform_units, OpView, Unit,
};
use vstd::prelude::*;

verus! {

/// Building a Change from the operations of a canonical stream gives the
/// same stream back: normalization is idempotent.
pub proof fn law_normalization_idempotent(ops: Seq<OpView>)
    requires
        canonical(ops),
    ensures
        normalize_view(ops) == Some(ops),
    decreases ops.len(),
{
    lemma_fold_canonical(ops);
    if ops.len() > 0 {
        assert(!(ops.last() is Retain));
    }
}

proof fn lemma_fold_canonical(ops: Seq<OpView>)
    requires
        forall|i: int| 0 <= i < ops.len() ==> op_units(#[trigger] ops[i]) > 0,
        forall|i: int| 0 <= i < ops.len() - 1 ==> !joinable(#[trigger] ops[i], ops[i + 1]),
    ensures
        fold_view(ops) == Some(ops),
        trim_retains(ops) == ops || (ops.len() > 0 && ops.last() is Retain),
    decreases ops.len(),
{
    if ops.len() > 0 {
        let init = ops.drop_last();
        assert forall|i: int| 0 <= i < init.len() implies op_units(#[trigger] init[i]) > 0 by {
            assert(init[i] == ops[i]);
        }
        assert forall|i: int| 0 <= i < init.len() - 1 implies !joinable(
            #[trigger] init[i],
            init[i + 1],
        ) by {
            assert(init[i] == ops[i]);
            assert(init[i + 1] == ops[i + 1]);
        }
        lemma_fold_canonical(init);
        assert(op_units(ops.last()) > 0);
        if init.len() > 0 {
            assert(!joinable(ops[init.len() - 1], ops[init.len() as int]));
            assert(init.last() == ops[init.len() - 1]);
        }
        assert(init.push(ops.last()) =~= ops);
        assert(push_view(init, ops.last()) == Some(ops));
    }
}

/// A normalized Change has the effect of the raw operations it was built
/// from, on every base those operations apply to.
pub proof fn law_normalized_applies_alike(raw: Seq<OpView>, normalized: Seq<OpView>, base: Seq<char>)
    requires
        expand(normalized) == normal_units(expand(raw)),
        apply_ops(raw, base) is Some,
    ensures
        apply_ops(normalized, base) == apply_ops(raw, base),
{
    lemma_normal_run(expand(raw), base);
}

/// Merging concurrent work by composition agrees with transformation: with
/// `(x, y)` the transformed pair of `left` and `right`, applying `left`
/// composed with `y` to a base gives what applying `right` and then `x` gives.
pub proof fn law_compose_after_transform(
    left: Seq<OpView>,
    right: Seq<OpView>,
    tie: TieBreak,
    x: Seq<OpView>,
    y: Seq<OpView>,
    merged: Seq<OpView>,
    base: Seq<char>,
)
    requires
        expand(x) == normal_units(transform_units(expand(left), expand(right), tie).0),
        expand(y) == normal_units(transform_units(expand(left), expand(right), tie).1),
        expand(merged) == normal_units(compose_units(expand(left), expand(y))),
        apply_ops(left, base) is Some,
        apply_ops(right, base) is Some,
    ensures
        apply_ops(merged, base) is Some,
        apply_ops(x, apply_ops(right, base)->Some_0) is Some,
        apply_ops(merged, base) == apply_ops(x, apply_ops(right, base)->Some_0),
{
    let (a, b) = (expand(left), expand(right));
    let (ta, tb) = transform_units(a, b, tie);
    lemma_transform_run(a, b, tie, base);
    lemma_normal_run(tb, run(a, base));
    lemma_normal_run(ta, run(b, base));
    let ey = expand(y);
    lemma_compose_run(a, ey, base);
    lemma_normal_run(compose_units(a, ey), base);
}

/// A canonical stream's steps are already in normal form.
pub proof fn lemma_canonical_steps_normal(ops: Seq<OpView>)
    requires
        canonical(ops),
    ensures
        normal_units(expand(ops)) == expand(ops),
{
    law_normalization_idempotent(ops);
    lemma_normalize_view(ops);
}

/// Steps that keep every scalar normalize to nothing.
proof fn lemma_normal_keeps(n: nat)
    ensures
        normal_units(keeps(n)) == Seq::<Unit<char>>::empty(),
{
    let e = Seq::<Unit<char>>::empty();
    lemma_reorder_split(keeps(n), 0);
    if n > 0 {
        lemma_emit_keeps(n, 0);
    } else {
        assert(keeps(0) =~= e);
    }
    assert(drops(0) =~= e);
    lemma_trim_keeps_suffix(e, n);
    assert(e + keeps(n) =~= keeps(n));
    assert(reorder(keeps(n), 0) =~= keeps(n));
}

/// A canonical stream with no steps has no operations.
proof fn lemma_no_steps_no_ops(ops: Seq<OpView>)
    requires
        canonical(ops),
        expand(ops).len() == 0,
    ensures
        ops.len() == 0,
{
    if ops.len() > 0 {
        let last = ops.last();
        assert(ops.drop_last().push(last) =~= ops);
        lemma_expand_push(ops.drop_last(), last);
        assert(op_units(ops[ops.len() - 1]) > 0);
        match last {
            OpView::Insert(t) => lemma_puts_len(t),
            _ => {},
        }
    }
}

/// Transforming against a Change that does nothing gives back the other
/// Change unchanged and transforms the empty Change into the empty Change.
pub proof fn law_transform_against_nothing(
    left: Seq<OpView>,
    right: Seq<OpView>,
    tie: TieBreak,
    x: Seq<OpView>,
    y: Seq<OpView>,
)
    requires
        canonical(left),
        right.len() == 0,
        canonical(x),
        canonical(y),
        expand(x) == normal_units(transform_units(expand(left), expand(right), tie).0),
        expand(y) == normal_units(transform_units(expand(left), expand(right), tie).1),
    ensures
        x == left,
        y.len() == 0,
{
    assert(expand(right) =~= Seq::<Unit<char>>::empty());
    lemma_transform_right_empty(expand(left), tie);
    lemma_canonical_steps_normal(left);
    lemma_normal_keeps(put_count(expand(left)));
    lemma_no_steps_no_ops(y);
    lemma_canonical_unique(x, left);
}

/// Composing with a Change that does nothing gives back the other Change.
pub proof fn law_compose_with_nothing(left: Seq<OpView>, right: Seq<OpView>, merged: Seq<OpView>)
    requires
        canonical(left),
        right.len() == 0,
        canonical(merged),
        expand(merged) == normal_units(compose_units(expand(left), expand(right))),
    ensures
        merged == left,
{
    assert(expand(right) =~= Seq::<Unit<char>>::empty());
    lemma_compose_right_empty(expand(left));
    lemma_canonical_steps_normal(left);
    lemma_canonical_unique(merged, left);
}

/// A Change that does nothing, transformed against another Change, stays the
/// empty Change, and the other Change comes back unchanged.
pub proof fn law_nothing_transformed(
    left: Seq<OpView>,
    right: Seq<OpView>,
    tie: TieBreak,
    x: Seq<OpView>,
    y: Seq<OpView>,
)
    requires
        left.len() == 0,
        canonical(right),
        canonical(x),
        canonical(y),
        expand(x) == normal_units(transform_units(expand(left), expand(right), tie).0),
        expand(y) == normal_units(transform_units(expand(left), expand(right), tie).1),
    ensures
        x.len() == 0,
        y == right,
{
    assert(expand(left) =~= Seq::<Unit<char>>::empty());
    lemma_transform_left_empty(expand(right), tie);
    lemma_canonical_steps_normal(right);
    lemma_normal_keeps(put_count(expand(right)));
    lemma_no_steps_no_ops(x);
    lemma_canonical_unique(y, right);
}

/// Composing a Change that does nothing with another gives back the other.
pub proof fn law_nothing_composed(left: Seq<OpView>, right: Seq<OpView>, merged: Seq<OpView>)
    requires
        left.len() == 0,
        canonical(right),
        canonical(merged),
        expand(merged) == normal_units(compose_units(expand(left), expand(right))),
    ensures
        merged == right,
{
    assert(expand(left) =~= Seq::<Unit<char>>::empty());
    lemma_compose_left_empty(expand(right));
    lemma_canonical_steps_normal(right);
    lemma_canonical_unique(merged, right);
}

/// The kind of a unit step: keep, put or drop.
pub open spec fn unit_kind(u: Unit<char>) -> int {
    match u {
        Unit::Keep => 0,
        Unit::Put(_) => 1,
        Unit::Drop => 2,
    }
}

/// The kind of the steps of an operation.
pub open spec fn op_kind(op: OpView) -> int {
    match op {
        OpView::Retain(_) => 0,
        OpView::Insert(_) => 1,
        OpView::Delete(_) => 2,
    }
}

/// The number of trailing steps of kind `k`.
pub open spec fn trailing(x: Seq<Unit<char>>, k: int) -> nat
    decreases x.len(),
{
    if x.len() > 0 && unit_kind(x.last()) == k {
        trailing(x.drop_last(), k) + 1
    } else {
        0
    }
}

proof fn lemma_steps_kind(op: OpView)
    ensures
        op_steps(op).len() == op_units(op),
        forall|i: int| 0 <= i < op_steps(op).len() ==> unit_kind(#[trigger] op_steps(op)[i]) == op_kind(op),
{
    match op {
        OpView::Insert(t) => lemma_puts_len(t),
        _ => {},
    }
}

proof fn lemma_trailing_append(y: Seq<Unit<char>>, s: Seq<Unit<char>>, k: int)
    requires
        forall|i: int| 0 <= i < s.len() ==> unit_kind(#[trigger] s[i]) == k,
    ensures
        trailing(y + s, k) == trailing(y, k) + s.len(),
    decreases s.len(),
{
    if s.len() == 0 {
        assert(y + s =~= y);
    } else {
        assert((y + s).drop_last() =~= y + s.drop_last());
        assert((y + s).last() == s[s.len() - 1]);
        lemma_trailing_append(y, s.drop_last(), k);
    }
}

/// The steps of a stream of nonzero operations end with a step of its last
/// operation's kind.
proof fn lemma_expand_last_kind(ops: Seq<OpView>)
    requires
        ops.len() > 0,
        op_units(ops.last()) > 0,
    ensures
        expand(ops).len() > 0,
        unit_kind(expand(ops).last()) == op_kind(ops.last()),
{
    let init = ops.drop_last();
    lemma_expand_push(init, ops.last());
    assert(init.push(ops.last()) =~= ops);
    lemma_steps_kind(ops.last());
    let st = op_steps(ops.last());
    assert(expand(ops).last() == st[st.len() - 1]);
}

/// Canonical operations are determined by their steps.
pub proof fn lemma_canonical_unique(a: Seq<OpView>, b: Seq<OpView>)
    requires
        settled_form(a),
        settled_form(b),
        expand(a) == expand(b),
    ensures
        a == b,
    decreases a.len() + b.len(),
{
    if a.len() == 0 || b.len() == 0 {
        if a.len() > 0 {
            lemma_expand_last_kind(a);
        }
        if b.len() > 0 {
            lemma_expand_last_kind(b);
        }
        assert(a =~= b);
    } else {
        let (a1, b1) = (a.drop_last(), b.drop_last());
        let (x, y) = (a.last(), b.last());
        assert(op_units(a[a.len() - 1]) > 0);
        assert(op_units(b[b.len() - 1]) > 0);
        lemma_expand_last_kind(a);
        lemma_expand_last_kind(b);
        let k = op_kind(x);
        assert(op_kind(y) == k);
        lemma_expand_push(a1, x);
        lemma_expand_push(b1, y);
        assert(a1.push(x) =~= a);
        assert(b1.push(y) =~= b);
        lemma_steps_kind(x);
        lemma_steps_kind(y);
        lemma_trailing_append(expand(a1), op_steps(x), k);
        lemma_trailing_append(expand(b1), op_steps(y), k);
        if a1.len() > 0 {
            assert(op_units(a[a1.len() - 1]) > 0);
            assert(!joinable(a[a1.len() - 1], a[a1.len() as int]));
            assert(a1.last() == a[a1.len() - 1]);
            lemma_expand_last_kind(a1);
        }
        if b1.len() > 0 {
            assert(op_units(b[b1.len() - 1]) > 0);
            assert(!joinable(b[b1.len() - 1], b[b1.len() as int]));
            assert(b1.last() == b[b1.len() - 1]);
            lemma_expand_last_kind(b1);
        }
        assert(op_units(x) == op_units(y));
        let n = op_units(x) as int;
        let e = expand(a);
        assert(e.skip(e.len() - n) =~= op_steps(x));
        assert(e.skip(e.len() - n) =~= op_steps(y));
        assert(e.take(e.len() - n) =~= expand(a1));
        assert(e.take(e.len() - n) =~= expand(b1));
        match (x, y) {
            (OpView::Insert(s), OpView::Insert(t)) => {
                lemma_puts_len(s);
                lemma_puts_len(t);
                assert forall|i: int| 0 <= i < s.len() implies s[i] == t[i] by {
                    assert(puts(s)[i] == puts(t)[i]);
                }
                assert(s =~= t);
            },
            _ => {},
        }
        assert forall|i: int| 0 <= i < a1.len() implies op_units(#[trigger] a1[i]) > 0 by {
            assert(a1[i] == a[i]);
        }
        assert forall|i: int| 0 <= i < a1.len() - 1 implies !joinable(#[trigger] a1[i], a1[i + 1]) by {
            assert(a1[i] == a[i] && a1[i + 1] == a[i + 1]);
        }
        assert forall|i: int| 0 <= i < a1.len() implies insert_fits(#[trigger] a1[i]) by {
            assert(a1[i] == a[i]);
        }
        assert forall|i: int| 0 <= i < b1.len() implies op_units(#[trigger] b1[i]) > 0 by {
            assert(b1[i] == b[i]);
        }
        assert forall|i: int| 0 <= i < b1.len() - 1 implies !joinable(#[trigger] b1[i], b1[i + 1]) by {
            assert(b1[i] == b[i] && b1[i + 1] == b[i + 1]);
        }
        assert forall|i: int| 0 <= i < b1.len() implies insert_fits(#[trigger] b1[i]) by {
            assert(b1[i] == b[i]);
        }
        lemma_canonical_unique(a1, b1);
    }
}

} // verus!
