//! Transformed List Changes fit the results they run on: each consumes no
//! more elements than the other side's Change leaves.
use crate::change::TieBreak;
use crate::compose_change::{advance, head_step, lemma_units_from, remaining, step_tail};
use crate::compose_law::{
    after_part, first_part, lemma_tail_advance, lemma_tail_done, lemma_tail_head, lemma_tail_start,
    tail_steps, walk_ready,
};
use crate::invert_law::lemma_list_totals_head;
use crate::structure::{
    list_fold, list_in, list_normalize, list_out, list_push, normal_step, step_in, step_out, step_size,
    trim_list_retains, Edit, ListStep,
};
use crate::transform_change::{modify_or_retain, opt_steps, transform_edit, transform_steps};
use vstd::prelude::*;

verus! {

/// The larger of two counts.
pub open spec fn larger(x: nat, y: nat) -> nat {
    if x >= y {
        x
    } else {
        y
    }
}

/// The steps of a List Change, none for any other Change.
pub open spec fn list_steps_of(e: Edit) -> Seq<ListStep> {
    match e {
        Edit::List(s) => s,
        _ => Seq::empty(),
    }
}

proof fn lemma_counts_front(h: ListStep, rest: Seq<ListStep>)
    ensures
        list_in(seq![h] + rest) == step_in(h) + list_in(rest),
        list_out(seq![h] + rest) == step_out(h) + list_out(rest),
{
    let s = seq![h] + rest;
    lemma_list_totals_head(s);
    assert(s.subrange(1, s.len() as int) =~= rest);
}

proof fn lemma_counts_opt(x: Option<ListStep>, rest: Seq<ListStep>)
    ensures
        list_in(opt_steps(x) + rest) == list_in(rest) + match x {
            Some(h) => step_in(h),
            None => 0nat,
        },
{
    match x {
        Some(h) => lemma_counts_front(h, rest),
        None => {
            assert(Seq::<ListStep>::empty() + rest =~= rest);
        },
    }
}

/// Splitting a non-insertion step keeps its counts.
proof fn lemma_counts_split(h: ListStep, k: nat, rest: Seq<ListStep>)
    requires
        !(h is Insert),
        0 < k <= step_size(h),
    ensures
        list_in(seq![h] + rest) == step_in(first_part(h, k)) + list_in(after_part(h, k, rest)),
        list_out(seq![h] + rest) == step_out(first_part(h, k)) + list_out(after_part(h, k, rest)),
{
    lemma_counts_front(h, rest);
    if k < step_size(h) {
        lemma_counts_front(step_tail(h, k), rest);
    }
}

/// Counts of the rest of a stream read from step `i`, unit `off`, where
/// `off` is inside the step.
proof fn lemma_tail_counts(s: Seq<ListStep>, i: int, off: nat)
    requires
        0 <= i < s.len(),
        off < step_size(s[i]),
    ensures
        tail_steps(s, i, off) == seq![step_tail(s[i], off)] + s.subrange(i + 1, s.len() as int),
        list_in(tail_steps(s, i, off)) == step_in(step_tail(s[i], off)) + list_in(s.subrange(i + 1, s.len() as int)),
        list_out(tail_steps(s, i, off)) == step_out(step_tail(s[i], off)) + list_out(s.subrange(i + 1, s.len() as int)),
{
    lemma_tail_head(s, i, off);
    lemma_counts_front(step_tail(s[i], off), s.subrange(i + 1, s.len() as int));
}

/// Each transformed stream consumes at most what the other stream leaves:
/// the right result runs after the left stream and consumes no more than its
/// output plus the base the right stream reads beyond it, and alike.
proof fn lemma_transform_counts(
    a: Seq<ListStep>,
    i: int,
    oa: nat,
    b: Seq<ListStep>,
    j: int,
    ob: nat,
    tie: TieBreak,
)
    requires
        walk_ready(a, i, oa, b, j, ob),
        transform_steps(a, i, oa, b, j, ob, tie) is Ok,
    ensures
        ({
            let r = transform_steps(a, i, oa, b, j, ob, tie)->Ok_0;
            let ta = tail_steps(a, i, oa);
            let tb = tail_steps(b, j, ob);
            let m = larger(list_in(ta), list_in(tb));
            &&& list_in(r.1) + list_in(ta) <= list_out(ta) + m
            &&& list_in(r.0) + list_in(tb) <= list_out(tb) + m
        }),
    decreases a, remaining(a, i, oa) + remaining(b, j, ob), 1nat,
{
    let a_has = 0 <= i < a.len() && oa <= step_size(a[i]);
    let b_has = 0 <= j < b.len() && ob <= step_size(b[j]);
    let arest = a.subrange(i + 1, a.len() as int);
    let brest = b.subrange(j + 1, b.len() as int);
    if a_has {
        lemma_units_from(a, i);
        assert(step_size(a[i]) > 0);
    }
    if b_has {
        lemma_units_from(b, j);
        assert(step_size(b[j]) > 0);
    }
    let r = transform_steps(a, i, oa, b, j, ob, tie)->Ok_0;
    if a_has && oa == step_size(a[i]) {
        lemma_tail_done(a, i, oa);
        lemma_transform_counts(a, i + 1, 0, b, j, ob, tie);
    } else if b_has && ob == step_size(b[j]) {
        lemma_tail_done(b, j, ob);
        lemma_transform_counts(a, i, oa, b, j + 1, 0, tie);
    } else if a_has && a[i] is Insert && !(b_has && b[j] is Insert && tie == TieBreak::RightFirst) {
        let ha = head_step(a, i, oa);
        lemma_tail_counts(a, i, oa);
        lemma_tail_start(a, i + 1);
        lemma_transform_counts(a, i + 1, 0, b, j, ob, tie);
        let r2 = transform_steps(a, i + 1, 0, b, j, ob, tie)->Ok_0;
        lemma_counts_opt(Some(ha), r2.0);
        lemma_counts_opt(Some(ListStep::Retain(step_size(ha))), r2.1);
    } else if b_has && b[j] is Insert {
        let hb = head_step(b, j, ob);
        lemma_tail_counts(b, j, ob);
        lemma_tail_start(b, j + 1);
        lemma_transform_counts(a, i, oa, b, j + 1, 0, tie);
        let r2 = transform_steps(a, i, oa, b, j + 1, 0, tie)->Ok_0;
        lemma_counts_opt(Some(ListStep::Retain(step_size(hb))), r2.0);
        lemma_counts_opt(Some(hb), r2.1);
    } else if !a_has && !b_has {
        assert(tail_steps(a, i, oa) =~= Seq::<ListStep>::empty());
        assert(tail_steps(b, j, ob) =~= Seq::<ListStep>::empty());
    } else if !b_has {
        let ha = head_step(a, i, oa);
        assert(tail_steps(b, j, ob) =~= Seq::<ListStep>::empty());
        lemma_tail_counts(a, i, oa);
        lemma_tail_start(a, i + 1);
        lemma_transform_counts(a, i + 1, 0, b, j, ob, tie);
        let r2 = transform_steps(a, i + 1, 0, b, j, ob, tie)->Ok_0;
        lemma_counts_opt(Some(ha), r2.0);
        lemma_counts_opt(None, r2.1);
        assert(step_in(ha) <= step_size(ha) || true);
    } else if !a_has {
        let hb = head_step(b, j, ob);
        assert(tail_steps(a, i, oa) =~= Seq::<ListStep>::empty());
        lemma_tail_counts(b, j, ob);
        lemma_tail_start(b, j + 1);
        lemma_transform_counts(a, i, oa, b, j + 1, 0, tie);
        let r2 = transform_steps(a, i, oa, b, j + 1, 0, tie)->Ok_0;
        lemma_counts_opt(None, r2.0);
        lemma_counts_opt(Some(hb), r2.1);
    } else {
        lemma_counts_walk(a, i, oa, b, j, ob, tie);
    }
}

/// `lemma_transform_counts` where both streams have a non-insertion step left.
#[verifier::rlimit(80)]
proof fn lemma_counts_walk(
    a: Seq<ListStep>,
    i: int,
    oa: nat,
    b: Seq<ListStep>,
    j: int,
    ob: nat,
    tie: TieBreak,
)
    requires
        walk_ready(a, i, oa, b, j, ob),
        transform_steps(a, i, oa, b, j, ob, tie) is Ok,
        0 <= i < a.len() && oa < step_size(a[i]),
        0 <= j < b.len() && ob < step_size(b[j]),
        !(a[i] is Insert),
        !(b[j] is Insert),
    ensures
        ({
            let r = transform_steps(a, i, oa, b, j, ob, tie)->Ok_0;
            let ta = tail_steps(a, i, oa);
            let tb = tail_steps(b, j, ob);
            let m = larger(list_in(ta), list_in(tb));
            &&& list_in(r.1) + list_in(ta) <= list_out(ta) + m
            &&& list_in(r.0) + list_in(tb) <= list_out(tb) + m
        }),
    decreases a, remaining(a, i, oa) + remaining(b, j, ob), 0nat,
{
    let arest = a.subrange(i + 1, a.len() as int);
    let brest = b.subrange(j + 1, b.len() as int);
    lemma_units_from(a, i);
    lemma_units_from(b, j);
    let ha = head_step(a, i, oa);
    let hb = head_step(b, j, ob);
    let sa = (step_size(a[i]) - oa) as nat;
    let sb = (step_size(b[j]) - ob) as nat;
    let len: nat = if sa <= sb {
        sa
    } else {
        sb
    };
    let (i2, oa2) = advance(a, i, oa, len);
    let (j2, ob2) = advance(b, j, ob, len);
    lemma_tail_counts(a, i, oa);
    lemma_tail_counts(b, j, ob);
    lemma_tail_advance(a, i, oa, len);
    lemma_tail_advance(b, j, ob, len);
    lemma_counts_split(ha, len, arest);
    lemma_counts_split(hb, len, brest);
    lemma_transform_counts(a, i2, oa2, b, j2, ob2, tie);
    let r2 = transform_steps(a, i2, oa2, b, j2, ob2, tie)->Ok_0;
    match (ha, hb) {
        (ListStep::Delete(_), ListStep::Delete(_)) => {},
        (ListStep::Delete(_), ListStep::Retain(_)) => {
            lemma_counts_opt(Some(ListStep::Delete(len)), r2.0);
            lemma_counts_opt(None, r2.1);
        },
        (ListStep::Delete(_), ListStep::Modify(_)) => {
            lemma_counts_opt(Some(ListStep::Delete(1)), r2.0);
            lemma_counts_opt(None, r2.1);
        },
        (ListStep::Retain(_), ListStep::Delete(_)) => {
            lemma_counts_opt(None, r2.0);
            lemma_counts_opt(Some(ListStep::Delete(len)), r2.1);
        },
        (ListStep::Modify(_), ListStep::Delete(_)) => {
            lemma_counts_opt(None, r2.0);
            lemma_counts_opt(Some(ListStep::Delete(1)), r2.1);
        },
        (ListStep::Retain(_), ListStep::Retain(_)) => {
            lemma_counts_opt(Some(ListStep::Retain(len)), r2.0);
            lemma_counts_opt(Some(ListStep::Retain(len)), r2.1);
        },
        (ListStep::Modify(c), ListStep::Retain(_)) => {
            lemma_counts_opt(Some(ListStep::Modify(c)), r2.0);
            lemma_counts_opt(Some(ListStep::Retain(1)), r2.1);
        },
        (ListStep::Retain(_), ListStep::Modify(c)) => {
            lemma_counts_opt(Some(ListStep::Retain(1)), r2.0);
            lemma_counts_opt(Some(ListStep::Modify(c)), r2.1);
        },
        (ListStep::Modify(x), ListStep::Modify(y)) => {
            let pq = transform_edit(x, y, tie)->Ok_0;
            lemma_counts_opt(Some(modify_or_retain(pq.0)), r2.0);
            lemma_counts_opt(Some(modify_or_retain(pq.1)), r2.1);
        },
        _ => {},
    }
    
}

proof fn lemma_push_in(out: Seq<ListStep>, s: ListStep)
    requires
        list_push(out, s) is Some,
    ensures
        list_in(list_push(out, s)->Some_0) == list_in(out) + step_in(s),
    decreases out.len(),
{
    if out.len() > 0 {
        assert(list_in(out) == list_in(out.drop_last()) + step_in(out.last()));
        if s is Insert && out.last() is Delete {
            lemma_push_in(out.drop_last(), s);
            let o = list_push(out.drop_last(), s)->Some_0;
            assert(o.push(out.last()).drop_last() =~= o);
            assert(o.push(out.last()).last() == out.last());
            assert(list_in(o.push(out.last())) == list_in(o) + step_in(out.last()));
        } else {
            assert(out.drop_last().push(out.last()) =~= out);
            match (out.last(), s) {
                (ListStep::Retain(x), ListStep::Retain(y)) => {
                    let t = out.drop_last().push(ListStep::Retain((x + y) as nat));
                    assert(t.drop_last() =~= out.drop_last());
                    assert(t.last() == ListStep::Retain((x + y) as nat));
                    assert(list_in(t) == list_in(out.drop_last()) + step_in(ListStep::Retain((x + y) as nat)));
                    assert(list_push(out, s) == Some(t));
                },
                (ListStep::Delete(x), ListStep::Delete(y)) => {
                    let t = out.drop_last().push(ListStep::Delete((x + y) as nat));
                    assert(t.drop_last() =~= out.drop_last());
                    assert(t.last() == ListStep::Delete((x + y) as nat));
                    assert(list_in(t) == list_in(out.drop_last()) + step_in(ListStep::Delete((x + y) as nat)));
                    assert(list_push(out, s) == Some(t));
                },
                (ListStep::Insert(x), ListStep::Insert(y)) => {
                    let t = out.drop_last().push(ListStep::Insert(x + y));
                    assert(t.drop_last() =~= out.drop_last());
                    assert(t.last() == ListStep::Insert(x + y));
                    assert(list_in(t) == list_in(out.drop_last()) + step_in(ListStep::Insert(x + y)));
                    assert(list_push(out, s) == Some(t));
                },
                _ => {
                    assert(out.push(s).drop_last() =~= out);
                    assert(out.push(s).last() == s);
                    assert(list_in(out.push(s)) == list_in(out) + step_in(s));
                    assert(list_push(out, s) == Some(out.push(s)));
                },
            }
        }
    } else {
        assert(seq![s].drop_last() =~= Seq::<ListStep>::empty());
        assert(seq![s].last() == s);
        assert(list_in(seq![s]) == list_in(Seq::<ListStep>::empty()) + step_in(s));
    }
}

proof fn lemma_fold_in(steps: Seq<ListStep>)
    requires
        list_fold(steps) is Some,
    ensures
        list_in(list_fold(steps)->Some_0) == list_in(steps),
    decreases steps.len(),
{
    if steps.len() > 0 {
        lemma_fold_in(steps.drop_last());
        let o = list_fold(steps.drop_last())->Some_0;
        if let Some(s) = normal_step(steps.last()) {
            lemma_push_in(o, s);
        }
    }
}

proof fn lemma_trim_in(o: Seq<ListStep>)
    ensures
        list_in(trim_list_retains(o)) <= list_in(o),
    decreases o.len(),
{
    if o.len() > 0 && o.last() is Retain {
        lemma_trim_in(o.drop_last());
    }
}

/// Normalization consumes no more than the stream it normalizes.
proof fn lemma_normalize_in(steps: Seq<ListStep>)
    requires
        list_normalize(steps) is Some,
    ensures
        list_in(list_normalize(steps)->Some_0) <= list_in(steps),
{
    lemma_fold_in(steps);
    lemma_trim_in(list_fold(steps)->Some_0);
}

/// Transformed List Changes fit: where List Changes `left` and `right`
/// transform into `(x, y)`, `y` (run after `left`) consumes no more elements
/// than `left` outputs plus the base elements `right` reads beyond what
/// `left` reads, and `x` (run after `right`) alike. So on a base that both
/// `left` and `right` fit, each transformed Change fits the other's result.
pub proof fn law_transformed_lists_fit(left: Seq<ListStep>, right: Seq<ListStep>, tie: TieBreak, x: Edit, y: Edit)
    requires
        crate::invert_law::formed(Edit::List(left)),
        crate::invert_law::formed(Edit::List(right)),
        transform_edit(Edit::List(left), Edit::List(right), tie) == Ok::<
            (Edit, Edit),
            crate::transform_change::Conflict,
        >((x, y)),
    ensures
        list_in(list_steps_of(y)) + list_in(left) <= list_out(left) + larger(list_in(left), list_in(right)),
        list_in(list_steps_of(x)) + list_in(right) <= list_out(right) + larger(list_in(left), list_in(right)),
{
    assert(walk_ready(left, 0, 0, right, 0, 0));
    lemma_transform_counts(left, 0, 0, right, 0, 0, tie);
    lemma_tail_start(left, 0);
    lemma_tail_start(right, 0);
    assert(left.subrange(0, left.len() as int) =~= left);
    assert(right.subrange(0, right.len() as int) =~= right);
    let r = transform_steps(left, 0, 0, right, 0, 0, tie)->Ok_0;
    lemma_normalize_in(r.0);
    lemma_normalize_in(r.1);
}

} // verus!
