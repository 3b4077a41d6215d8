//! Convergence (TP1) of transformed List Changes whose steps keep, insert
//! and delete elements.
use crate::apply_change::{apply_edit, apply_list, Fault};
use crate::change::TieBreak;
use crate::compose_change::{advance, head_step, lemma_units_from, remaining, step_tail};
use crate::compose_law::{
    first_part, lemma_head_apply, lemma_split_head, lemma_tail_advance,
    lemma_tail_done, lemma_tail_head, lemma_tail_start, tail_steps, walk_ready,
};
use crate::content::Content;
use crate::path::SegView;
use crate::invert_law::{formed, lemma_apply_list_run, lemma_normalize_apply, lemma_run_lengths};
use crate::structure::{list_in, list_normalize, list_out, max_list_len, step_in, step_size, Edit, ListStep};
use crate::transform_change::{list_edit, transform_edit, transform_steps, Conflict};
use vstd::prelude::*;

verus! {

/// No step of `s` modifies an element.
pub open spec fn no_modify(s: Seq<ListStep>) -> bool {
    forall|k: int| 0 <= k < s.len() ==> !(#[trigger] s[k] is Modify)
}

/// Every step of `s` keeps elements.
pub open spec fn retains_only(s: Seq<ListStep>) -> bool {
    forall|k: int| 0 <= k < s.len() ==> #[trigger] s[k] is Retain
}

/// The elements the keeping steps of `s` keep, together.
pub open spec fn retain_total(s: Seq<ListStep>) -> nat
    decreases s.len(),
{
    if s.len() == 0 {
        0
    } else {
        (if s[0] is Retain {
            step_size(s[0])
        } else {
            0
        }) + retain_total(s.subrange(1, s.len() as int))
    }
}

/// The elements the inserting steps of `s` insert, together.
pub open spec fn inserted(s: Seq<ListStep>) -> nat
    decreases s.len(),
{
    if s.len() == 0 {
        0
    } else {
        (if s[0] is Insert {
            step_size(s[0])
        } else {
            0
        }) + inserted(s.subrange(1, s.len() as int))
    }
}

proof fn lemma_front(h: ListStep, t: Seq<ListStep>)
    ensures
        (seq![h] + t)[0] == h,
        (seq![h] + t).subrange(1, (seq![h] + t).len() as int) == t,
        (seq![h] + t).len() == t.len() + 1,
{
    assert((seq![h] + t).subrange(1, (seq![h] + t).len() as int) =~= t);
}

/// Steps that only keep elements leave what they run on as it is.
proof fn lemma_retains_apply(q: Seq<ListStep>, m: Seq<Content>, index: nat, p: Seq<SegView>)
    requires
        retains_only(q),
        index + retain_total(q) <= m.len(),
    ensures
        apply_list(q, m, index, p) == Ok::<Seq<Content>, Fault>(m.subrange(index as int, m.len() as int)),
    decreases q.len(),
{
    if q.len() > 0 {
        let rest = q.subrange(1, q.len() as int);
        assert(q[0] is Retain);
        let n = step_size(q[0]);
        assert(retains_only(rest)) by {
            assert forall|k: int| 0 <= k < rest.len() implies #[trigger] rest[k] is Retain by {
                assert(rest[k] == q[k + 1]);
            }
        }
        lemma_retains_apply(rest, m, index + n, p);
        assert(m.subrange(index as int, (index + n) as int) + m.subrange((index + n) as int, m.len() as int)
            =~= m.subrange(index as int, m.len() as int));
    }
}

/// A List stream puts at least the elements it inserts into its result.
proof fn lemma_inserted_out(s: Seq<ListStep>, m: Seq<Content>, index: nat, p: Seq<SegView>)
    requires
        apply_list(s, m, index, p) is Ok,
    ensures
        apply_list(s, m, index, p)->Ok_0.len() >= inserted(s),
    decreases s.len(),
{
    if s.len() > 0 {
        let rest = s.subrange(1, s.len() as int);
        match s[0] {
            ListStep::Retain(n) => lemma_inserted_out(rest, m, index + n, p),
            ListStep::Insert(_) => lemma_inserted_out(rest, m, index, p),
            ListStep::Delete(n) => lemma_inserted_out(rest, m, index + n, p),
            ListStep::Modify(_) => lemma_inserted_out(rest, m, index + 1, p),
        }
    }
}

/// Once the second stream is used up, the first goes on unchanged and the
/// second's counterpart only keeps what the first inserts.
proof fn lemma_right_done(a: Seq<ListStep>, i: int, oa: nat, b: Seq<ListStep>, j: int, ob: nat, tie: TieBreak)
    requires
        walk_ready(a, i, oa, b, j, ob),
        j == b.len(),
    ensures
        transform_steps(a, i, oa, b, j, ob, tie) is Ok,
        transform_steps(a, i, oa, b, j, ob, tie)->Ok_0.0 == tail_steps(a, i, oa),
        retains_only(transform_steps(a, i, oa, b, j, ob, tie)->Ok_0.1),
        retain_total(transform_steps(a, i, oa, b, j, ob, tie)->Ok_0.1) == inserted(tail_steps(a, i, oa)),
    decreases remaining(a, i, oa),
{
    let a_has = 0 <= i < a.len() && oa <= step_size(a[i]);
    if a_has {
        lemma_units_from(a, i);
        assert(step_size(a[i]) > 0);
    }
    if a_has && oa == step_size(a[i]) {
        lemma_tail_done(a, i, oa);
        lemma_right_done(a, i + 1, 0, b, j, ob, tie);
    } else if !a_has {
        assert(tail_steps(a, i, oa) == Seq::<ListStep>::empty());
    } else {
        let ha = head_step(a, i, oa);
        let arest = a.subrange(i + 1, a.len() as int);
        lemma_tail_head(a, i, oa);
        lemma_tail_start(a, i + 1);
        lemma_right_done(a, i + 1, 0, b, j, ob, tie);
        let r = transform_steps(a, i + 1, 0, b, j, ob, tie)->Ok_0;
        lemma_front(ha, arest);
        if a[i] is Insert {
            let k = ListStep::Retain(step_size(ha));
            assert(transform_steps(a, i, oa, b, j, ob, tie) == Ok::<
                (Seq<ListStep>, Seq<ListStep>),
                crate::transform_change::Conflict,
            >((seq![ha] + r.0, seq![k] + r.1)));
            lemma_front(k, r.1);
            assert(retains_only(seq![k] + r.1)) by {
                assert forall|x: int| 0 <= x < (seq![k] + r.1).len() implies #[trigger] (seq![k] + r.1)[x] is Retain by {
                    if x > 0 {
                        assert((seq![k] + r.1)[x] == r.1[x - 1]);
                    }
                }
            }
        } else {
            assert(transform_steps(a, i, oa, b, j, ob, tie) == Ok::<
                (Seq<ListStep>, Seq<ListStep>),
                crate::transform_change::Conflict,
            >((seq![ha] + r.0, r.1)));
        }
    }
}

/// Once the first stream is used up, the second goes on unchanged and the
/// first's counterpart only keeps what the second inserts.
proof fn lemma_left_done(a: Seq<ListStep>, i: int, oa: nat, b: Seq<ListStep>, j: int, ob: nat, tie: TieBreak)
    requires
        walk_ready(a, i, oa, b, j, ob),
        i == a.len(),
    ensures
        transform_steps(a, i, oa, b, j, ob, tie) is Ok,
        transform_steps(a, i, oa, b, j, ob, tie)->Ok_0.1 == tail_steps(b, j, ob),
        retains_only(transform_steps(a, i, oa, b, j, ob, tie)->Ok_0.0),
        retain_total(transform_steps(a, i, oa, b, j, ob, tie)->Ok_0.0) == inserted(tail_steps(b, j, ob)),
    decreases remaining(b, j, ob),
{
    let b_has = 0 <= j < b.len() && ob <= step_size(b[j]);
    if b_has {
        lemma_units_from(b, j);
        assert(step_size(b[j]) > 0);
    }
    if b_has && ob == step_size(b[j]) {
        lemma_tail_done(b, j, ob);
        lemma_left_done(a, i, oa, b, j + 1, 0, tie);
    } else if !b_has {
        assert(tail_steps(b, j, ob) == Seq::<ListStep>::empty());
    } else {
        let hb = head_step(b, j, ob);
        let brest = b.subrange(j + 1, b.len() as int);
        lemma_tail_head(b, j, ob);
        lemma_tail_start(b, j + 1);
        lemma_left_done(a, i, oa, b, j + 1, 0, tie);
        let r = transform_steps(a, i, oa, b, j + 1, 0, tie)->Ok_0;
        lemma_front(hb, brest);
        if b[j] is Insert {
            let k = ListStep::Retain(step_size(hb));
            assert(transform_steps(a, i, oa, b, j, ob, tie) == Ok::<
                (Seq<ListStep>, Seq<ListStep>),
                crate::transform_change::Conflict,
            >((seq![k] + r.0, seq![hb] + r.1)));
            lemma_front(k, r.0);
            assert(retains_only(seq![k] + r.0)) by {
                assert forall|x: int| 0 <= x < (seq![k] + r.0).len() implies #[trigger] (seq![k] + r.0)[x] is Retain by {
                    if x > 0 {
                        assert((seq![k] + r.0)[x] == r.0[x - 1]);
                    }
                }
            }
        } else {
            assert(transform_steps(a, i, oa, b, j, ob, tie) == Ok::<
                (Seq<ListStep>, Seq<ListStep>),
                crate::transform_change::Conflict,
            >((r.0, seq![hb] + r.1)));
        }
    }
}


/// The rest of two concurrent List streams, transformed against each
/// other, converge: the second's counterpart run after the first gives what
/// the first's counterpart run after the second gives, and succeeds.
#[verifier::rlimit(60)]
proof fn lemma_steps_converge(
    a: Seq<ListStep>,
    i: int,
    oa: nat,
    b: Seq<ListStep>,
    j: int,
    ob: nat,
    tie: TieBreak,
    r: Seq<Content>,
    p: Seq<SegView>,
)
    requires
        walk_ready(a, i, oa, b, j, ob),
        no_modify(a),
        no_modify(b),
        transform_steps(a, i, oa, b, j, ob, tie) is Ok,
        apply_list(tail_steps(a, i, oa), r, 0, p) is Ok,
        apply_list(tail_steps(b, j, ob), r, 0, p) is Ok,
    ensures
        apply_list(
            transform_steps(a, i, oa, b, j, ob, tie)->Ok_0.1,
            apply_list(tail_steps(a, i, oa), r, 0, p)->Ok_0,
            0,
            p,
        ) is Ok,
        apply_list(
            transform_steps(a, i, oa, b, j, ob, tie)->Ok_0.1,
            apply_list(tail_steps(a, i, oa), r, 0, p)->Ok_0,
            0,
            p,
        ) == apply_list(
            transform_steps(a, i, oa, b, j, ob, tie)->Ok_0.0,
            apply_list(tail_steps(b, j, ob), r, 0, p)->Ok_0,
            0,
            p,
        ),
    decreases remaining(a, i, oa) + remaining(b, j, ob), 1nat,
{
    let ma = apply_list(tail_steps(a, i, oa), r, 0, p)->Ok_0;
    let mb = apply_list(tail_steps(b, j, ob), r, 0, p)->Ok_0;
    let a_has = 0 <= i < a.len() && oa <= step_size(a[i]);
    let b_has = 0 <= j < b.len() && ob <= step_size(b[j]);
    let arest = a.subrange(i + 1, a.len() as int);
    let brest = b.subrange(j + 1, b.len() as int);
    if a_has {
        lemma_units_from(a, i);
        assert(step_size(a[i]) > 0);
    }
    if b_has {
        lemma_units_from(b, j);
        assert(step_size(b[j]) > 0);
    }
    if a_has && oa == step_size(a[i]) {
        lemma_tail_done(a, i, oa);
        lemma_steps_converge(a, i + 1, 0, b, j, ob, tie, r, p);
    } else if b_has && ob == step_size(b[j]) {
        lemma_tail_done(b, j, ob);
        lemma_steps_converge(a, i, oa, b, j + 1, 0, tie, r, p);
    } else if a_has && a[i] is Insert && !(b_has && b[j] is Insert && tie == TieBreak::RightFirst) {
        let ha = head_step(a, i, oa);
        let k = step_size(ha);
        lemma_tail_head(a, i, oa);
        lemma_tail_start(a, i + 1);
        lemma_head_apply(ha, arest, r, p);
        assert(r.skip(0) =~= r);
        lemma_steps_converge(a, i + 1, 0, b, j, ob, tie, r, p);
        let rest = transform_steps(a, i + 1, 0, b, j, ob, tie)->Ok_0;
        let out = transform_steps(a, i, oa, b, j, ob, tie)->Ok_0;
        assert(out.0 == seq![ha] + rest.0);
        assert(out.1 == seq![ListStep::Retain(k)] + rest.1);
        let vs = ha->Insert_0;
        let ma2 = apply_list(arest, r, 0, p)->Ok_0;
        assert(ma == vs + ma2);
        lemma_head_apply(ListStep::Retain(k), rest.1, ma, p);
        assert(ma.take(k as int) =~= vs);
        assert(ma.skip(k as int) =~= ma2);
        lemma_head_apply(ha, rest.0, mb, p);
        assert(mb.skip(0) =~= mb);
    } else if b_has && b[j] is Insert {
        let hb = head_step(b, j, ob);
        let k = step_size(hb);
        lemma_tail_head(b, j, ob);
        lemma_tail_start(b, j + 1);
        lemma_head_apply(hb, brest, r, p);
        assert(r.skip(0) =~= r);
        lemma_steps_converge(a, i, oa, b, j + 1, 0, tie, r, p);
        let rest = transform_steps(a, i, oa, b, j + 1, 0, tie)->Ok_0;
        let out = transform_steps(a, i, oa, b, j, ob, tie)->Ok_0;
        assert(out.0 == seq![ListStep::Retain(k)] + rest.0);
        assert(out.1 == seq![hb] + rest.1);
        let vs = hb->Insert_0;
        let mb2 = apply_list(brest, r, 0, p)->Ok_0;
        assert(mb == vs + mb2);
        lemma_head_apply(ListStep::Retain(k), rest.0, mb, p);
        assert(mb.take(k as int) =~= vs);
        assert(mb.skip(k as int) =~= mb2);
        lemma_head_apply(hb, rest.1, ma, p);
        assert(ma.skip(0) =~= ma);
    } else if !a_has && !b_has {
        assert(tail_steps(a, i, oa) == Seq::<ListStep>::empty());
        assert(tail_steps(b, j, ob) == Seq::<ListStep>::empty());
        assert(r.subrange(0, r.len() as int) =~= r);
        assert(ma == r && mb == r);
        assert(ma.subrange(0, ma.len() as int) =~= ma);
    } else if !b_has {
        lemma_right_done(a, i, oa, b, j, ob, tie);
        let out = transform_steps(a, i, oa, b, j, ob, tie)->Ok_0;
        assert(tail_steps(b, j, ob) == Seq::<ListStep>::empty());
        assert(r.subrange(0, r.len() as int) =~= r);
        assert(mb == r);
        lemma_inserted_out(tail_steps(a, i, oa), r, 0, p);
        lemma_retains_apply(out.1, ma, 0, p);
        assert(ma.subrange(0, ma.len() as int) =~= ma);
    } else if !a_has {
        lemma_left_done(a, i, oa, b, j, ob, tie);
        let out = transform_steps(a, i, oa, b, j, ob, tie)->Ok_0;
        assert(tail_steps(a, i, oa) == Seq::<ListStep>::empty());
        assert(r.subrange(0, r.len() as int) =~= r);
        assert(ma == r);
        lemma_inserted_out(tail_steps(b, j, ob), r, 0, p);
        lemma_retains_apply(out.0, mb, 0, p);
        assert(mb.subrange(0, mb.len() as int) =~= mb);
    } else {
        lemma_steps_converge_walk(a, i, oa, b, j, ob, tie, r, p);
    }
}

/// The step of the convergence walk where both streams keep or delete
/// elements at the front.
proof fn lemma_steps_converge_walk(
    a: Seq<ListStep>,
    i: int,
    oa: nat,
    b: Seq<ListStep>,
    j: int,
    ob: nat,
    tie: TieBreak,
    r: Seq<Content>,
    p: Seq<SegView>,
)
    requires
        walk_ready(a, i, oa, b, j, ob),
        no_modify(a),
        no_modify(b),
        0 <= i < a.len(),
        0 <= j < b.len(),
        oa < step_size(a[i]),
        ob < step_size(b[j]),
        !(a[i] is Insert),
        !(b[j] is Insert),
        transform_steps(a, i, oa, b, j, ob, tie) is Ok,
        apply_list(tail_steps(a, i, oa), r, 0, p) is Ok,
        apply_list(tail_steps(b, j, ob), r, 0, p) is Ok,
    ensures
        apply_list(
            transform_steps(a, i, oa, b, j, ob, tie)->Ok_0.1,
            apply_list(tail_steps(a, i, oa), r, 0, p)->Ok_0,
            0,
            p,
        ) is Ok,
        apply_list(
            transform_steps(a, i, oa, b, j, ob, tie)->Ok_0.1,
            apply_list(tail_steps(a, i, oa), r, 0, p)->Ok_0,
            0,
            p,
        ) == apply_list(
            transform_steps(a, i, oa, b, j, ob, tie)->Ok_0.0,
            apply_list(tail_steps(b, j, ob), r, 0, p)->Ok_0,
            0,
            p,
        ),
    decreases remaining(a, i, oa) + remaining(b, j, ob), 0nat,
{
    let ma = apply_list(tail_steps(a, i, oa), r, 0, p)->Ok_0;
    let mb = apply_list(tail_steps(b, j, ob), r, 0, p)->Ok_0;
    let arest = a.subrange(i + 1, a.len() as int);
    let brest = b.subrange(j + 1, b.len() as int);
    let ha = step_tail(a[i], oa);
    let hb = step_tail(b[j], ob);
    let sa = (step_size(a[i]) - oa) as nat;
    let sb = (step_size(b[j]) - ob) as nat;
    let len: nat = if sa <= sb { sa } else { sb };
    let (i2, oa2) = advance(a, i, oa, len);
    let (j2, ob2) = advance(b, j, ob, len);
    lemma_units_from(a, i);
    lemma_units_from(b, j);
    assert(!(a[i] is Modify));
    assert(!(b[j] is Modify));
    lemma_tail_head(a, i, oa);
    lemma_tail_head(b, j, ob);
    lemma_tail_advance(a, i, oa, len);
    lemma_tail_advance(b, j, ob, len);
    let ta2 = tail_steps(a, i2, oa2);
    let tb2 = tail_steps(b, j2, ob2);
    let fa = first_part(ha, len);
    let fb = first_part(hb, len);
    lemma_split_head(ha, len, arest, r, p);
    lemma_split_head(hb, len, brest, r, p);
    assert(step_in(fa) == len);
    assert(step_in(fb) == len);
    let r2 = r.skip(len as int);
    let ma2 = apply_list(ta2, r2, 0, p)->Ok_0;
    let mb2 = apply_list(tb2, r2, 0, p)->Ok_0;
    assert(walk_ready(a, i2, oa2, b, j2, ob2));
    assert(transform_steps(a, i2, oa2, b, j2, ob2, tie) is Ok);
    lemma_steps_converge(a, i2, oa2, b, j2, ob2, tie, r2, p);
    let rest = transform_steps(a, i2, oa2, b, j2, ob2, tie)->Ok_0;
    let out = transform_steps(a, i, oa, b, j, ob, tie)->Ok_0;
    match (ha, hb) {
        (ListStep::Retain(_), ListStep::Retain(_)) => {
            let s0 = ListStep::Retain(len);
            assert(out.0 == seq![s0] + rest.0);
            assert(out.1 == seq![s0] + rest.1);
            assert(ma == r.take(len as int) + ma2);
            assert(mb == r.take(len as int) + mb2);
            lemma_head_apply(s0, rest.1, ma, p);
            lemma_head_apply(s0, rest.0, mb, p);
            assert(ma.take(len as int) =~= r.take(len as int));
            assert(ma.skip(len as int) =~= ma2);
            assert(mb.take(len as int) =~= r.take(len as int));
            assert(mb.skip(len as int) =~= mb2);
        },
        (ListStep::Delete(_), ListStep::Retain(_)) => {
            let s0 = ListStep::Delete(len);
            assert(out.0 == seq![s0] + rest.0);
            assert(out.1 == rest.1);
            assert(ma =~= ma2);
            assert(mb == r.take(len as int) + mb2);
            lemma_head_apply(s0, rest.0, mb, p);
            assert(mb.skip(len as int) =~= mb2);
            match apply_list(rest.0, mb2, 0, p) {
                Ok(x) => {
                    assert(Seq::<Content>::empty() + x =~= x);
                },
                Err(_) => {},
            }
        },
        (ListStep::Retain(_), ListStep::Delete(_)) => {
            let s0 = ListStep::Delete(len);
            assert(out.0 == rest.0);
            assert(out.1 == seq![s0] + rest.1);
            assert(mb =~= mb2);
            assert(ma == r.take(len as int) + ma2);
            lemma_head_apply(s0, rest.1, ma, p);
            assert(ma.skip(len as int) =~= ma2);
            match apply_list(rest.1, ma2, 0, p) {
                Ok(x) => {
                    assert(Seq::<Content>::empty() + x =~= x);
                },
                Err(_) => {},
            }
        },
        (ListStep::Delete(_), ListStep::Delete(_)) => {
            assert(out.0 == rest.0);
            assert(out.1 == rest.1);
            assert(ma =~= ma2);
            assert(mb =~= mb2);
        },
        _ => {},
    }
}

/// What a List Change gives on a List, decided by the elements its steps
/// give: that List, unless it is too long.
proof fn lemma_list_edit_outcome(n: Seq<ListStep>, m: Seq<Content>, p: Seq<SegView>)
    requires
        apply_list(n, m, 0, p) is Ok,
        m.len() <= max_list_len(),
    ensures
        apply_edit(list_edit(n), Content::List(m), p) == (if apply_list(n, m, 0, p)->Ok_0.len()
            <= max_list_len() {
            Ok::<Content, Fault>(Content::List(apply_list(n, m, 0, p)->Ok_0))
        } else {
            Err::<Content, Fault>(Fault::SequenceLengthOverflow(p))
        }),
{
    lemma_apply_list_run(n, m, 0, p);
    if n.len() == 0 {
        assert(m.subrange(0, m.len() as int) =~= m);
    } else {
        lemma_run_lengths(n, m, 0, p);
        assert(apply_list(n, m, 0, p)->Ok_0.len() == list_out(n) + (m.len() - list_in(n)));
    }
}

/// A List Change that applies gives a List no longer than a List can be.
proof fn lemma_list_applied(steps: Seq<ListStep>, base: Content, p: Seq<SegView>)
    requires
        apply_edit(Edit::List(steps), base, p) is Ok,
    ensures
        base is List,
        apply_list(steps, base->List_0, 0, p) is Ok,
        apply_edit(Edit::List(steps), base, p) == Ok::<Content, Fault>(
            Content::List(apply_list(steps, base->List_0, 0, p)->Ok_0),
        ),
        apply_list(steps, base->List_0, 0, p)->Ok_0.len() <= max_list_len(),
{
    let items = base->List_0;
    lemma_apply_list_run(steps, items, 0, p);
    lemma_run_lengths(steps, items, 0, p);
}

/// Convergence of transformed List Changes that keep, insert and delete
/// elements: where `left` and `right` both apply to one base and transform
/// into `(x, y)`, running `y` after `left` gives exactly what running `x`
/// after `right` gives, and that succeeds unless the merged List is longer
/// than a List can be.
pub proof fn law_transformed_lists_converge(
    left: Seq<ListStep>,
    right: Seq<ListStep>,
    tie: TieBreak,
    x: Edit,
    y: Edit,
    base: Content,
    p: Seq<SegView>,
)
    requires
        formed(Edit::List(left)),
        formed(Edit::List(right)),
        no_modify(left),
        no_modify(right),
        transform_edit(Edit::List(left), Edit::List(right), tie) == Ok::<(Edit, Edit), Conflict>((x, y)),
        apply_edit(Edit::List(left), base, p) is Ok,
        apply_edit(Edit::List(right), base, p) is Ok,
    ensures
        apply_edit(y, apply_edit(Edit::List(left), base, p)->Ok_0, p) == apply_edit(
            x,
            apply_edit(Edit::List(right), base, p)->Ok_0,
            p,
        ),
        apply_edit(y, apply_edit(Edit::List(left), base, p)->Ok_0, p) is Ok || apply_edit(
            y,
            apply_edit(Edit::List(left), base, p)->Ok_0,
            p,
        ) == Err::<Content, Fault>(Fault::SequenceLengthOverflow(p)),
{
    lemma_list_applied(left, base, p);
    lemma_list_applied(right, base, p);
    let items = base->List_0;
    let ma = apply_list(left, items, 0, p)->Ok_0;
    let mb = apply_list(right, items, 0, p)->Ok_0;
    lemma_tail_start(left, 0);
    lemma_tail_start(right, 0);
    assert(left.subrange(0, left.len() as int) =~= left);
    assert(right.subrange(0, right.len() as int) =~= right);
    assert(walk_ready(left, 0, 0, right, 0, 0));
    let raw = transform_steps(left, 0, 0, right, 0, 0, tie)->Ok_0;
    lemma_steps_converge(left, 0, 0, right, 0, 0, tie, items, p);
    let n0 = list_normalize(raw.0)->Some_0;
    let n1 = list_normalize(raw.1)->Some_0;
    assert(x == list_edit(n0) && y == list_edit(n1));
    lemma_apply_list_run(raw.1, ma, 0, p);
    lemma_apply_list_run(raw.0, mb, 0, p);
    lemma_normalize_apply(raw.1, ma, 0, p);
    lemma_normalize_apply(raw.0, mb, 0, p);
    lemma_list_edit_outcome(n1, ma, p);
    lemma_list_edit_outcome(n0, mb, p);
}

} // verus!
