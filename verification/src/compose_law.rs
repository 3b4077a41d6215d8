//! A composed Change has the effect of its two parts applied in turn.
use crate::apply_change::{apply_edit, apply_entries, apply_list, Fault};
use crate::content::Content;
use crate::path::SegView;
use crate::change::{canonical, inserts_fit, insert_fits, lemma_normalize_view, normalize_view};
use crate::laws::{op_kind, unit_kind};
use crate::model::{
    drops, expand, keeps, lemma_compose_run, lemma_expand_push, lemma_normal_run, normal_units,
    op_steps, puts, reorder, compose_units, OpView, Unit,
};
use crate::runs::{add_unit, grow, lemma_normalizes, normalizes, ops_fit, runs, unit_op};
use crate::keyed::keys_sorted;
use crate::keys::{key_lt, lemma_key_lt_asymmetric, lemma_key_lt_transitive};
use crate::compose_change::{
    entries_left, text_composed, advance, compose_edit, compose_entries, compose_steps, lemma_units_from, remaining, step_tail,
};
use crate::invert_law::{agree_at, entries_formed, entries_relate, entry_step, has_key, lemma_apply_relate, lemma_relate_apply, formed, lemma_apply_list_run, lemma_normalize_apply, lemma_run_lengths, modifies_formed, run_steps};
use crate::structure::{
    list_in, list_normalize, list_out, max_list_len, step_in, step_size, steps_nonempty,
    EntryEdit, Edit, ListStep,
};
use vstd::prelude::*;

verus! {

/// Two results of an application agree: both fail, or both succeed with
/// the same result.
pub open spec fn same_outcome<T>(x: Result<T, Fault>, y: Result<T, Fault>) -> bool {
    &&& (x is Ok) == (y is Ok)
    &&& x is Ok ==> x == y
}

/// The location a Change is applied at names its failures and nothing else.
pub proof fn lemma_edit_any_path(e: Edit, base: Content, p: Seq<SegView>, q: Seq<SegView>)
    ensures
        same_outcome(apply_edit(e, base, p), apply_edit(e, base, q)),
    decreases e,
{
    match e {
        Edit::KeyMap(es) => {
            if base is KeyMap {
                lemma_entries_any_path(es, base->KeyMap_0, p, q);
            }
        },
        Edit::List(steps) => {
            if base is List {
                lemma_list_any_path(steps, base->List_0, 0, p, q);
            }
        },
        _ => {},
    }
}

/// Map entry changes succeed or fail alike at every location.
pub proof fn lemma_entries_any_path(
    es: Seq<(Seq<char>, EntryEdit)>,
    m: Map<Seq<char>, Content>,
    p: Seq<SegView>,
    q: Seq<SegView>,
)
    ensures
        same_outcome(apply_entries(es, m, p), apply_entries(es, m, q)),
    decreases es,
{
    if es.len() > 0 {
        let k = es[0].0;
        let rest = es.subrange(1, es.len() as int);
        match es[0].1 {
            EntryEdit::Insert(v) => {
                lemma_entries_any_path(rest, m.insert(k, v), p, q);
            },
            EntryEdit::Delete => {
                lemma_entries_any_path(rest, m.remove(k), p, q);
            },
            EntryEdit::Modify(c) => {
                if m.contains_key(k) {
                    assert(decreases_to!(es => es[0]));
                    assert(decreases_to!(es[0] => es[0].1));
                    assert(decreases_to!(es[0].1 => es[0].1->Modify_0));
                    lemma_edit_any_path(c, m[k], p.push(SegView::Key(k)), q.push(SegView::Key(k)));
                    match apply_edit(c, m[k], p.push(SegView::Key(k))) {
                        Ok(v) => {
                            lemma_entries_any_path(rest, m.insert(k, v), p, q);
                        },
                        Err(_) => {},
                    }
                }
            },
        }
    }
}

/// List steps succeed or fail alike at every location.
pub proof fn lemma_list_any_path(
    steps: Seq<ListStep>,
    items: Seq<Content>,
    index: nat,
    p: Seq<SegView>,
    q: Seq<SegView>,
)
    ensures
        same_outcome(apply_list(steps, items, index, p), apply_list(steps, items, index, q)),
    decreases steps,
{
    if steps.len() > 0 {
        let rest = steps.subrange(1, steps.len() as int);
        match steps[0] {
            ListStep::Retain(n) => {
                lemma_list_any_path(rest, items, index + n, p, q);
            },
            ListStep::Insert(_) => {
                lemma_list_any_path(rest, items, index, p, q);
            },
            ListStep::Delete(n) => {
                lemma_list_any_path(rest, items, index + n, p, q);
            },
            ListStep::Modify(c) => {
                if index < items.len() {
                    assert(decreases_to!(steps => steps[0]));
                    assert(decreases_to!(steps[0] => steps[0]->Modify_0));
                    lemma_edit_any_path(
                        c,
                        items[index as int],
                        p.push(SegView::Index(index)),
                        q.push(SegView::Index(index)),
                    );
                    lemma_list_any_path(rest, items, index + 1, p, q);
                }
            },
        }
    }
}

/// List steps applied from position `index` see only the base from
/// position `k` on.
pub proof fn lemma_list_shift(steps: Seq<ListStep>, items: Seq<Content>, index: nat, k: nat, p: Seq<SegView>)
    requires
        k <= index,
        k <= items.len(),
    ensures
        same_outcome(
            apply_list(steps, items, index, p),
            apply_list(steps, items.skip(k as int), (index - k) as nat, p),
        ),
    decreases steps,
{
    let shifted = items.skip(k as int);
    let j = (index - k) as nat;
    if steps.len() == 0 {
        if index <= items.len() {
            assert(items.subrange(index as int, items.len() as int) =~= shifted.subrange(
                j as int,
                shifted.len() as int,
            ));
        }
    } else {
        let rest = steps.subrange(1, steps.len() as int);
        match steps[0] {
            ListStep::Retain(n) => {
                lemma_list_shift(rest, items, index + n, k, p);
                if index + n <= items.len() {
                    assert(items.subrange(index as int, (index + n) as int) =~= shifted.subrange(
                        j as int,
                        (j + n) as int,
                    ));
                }
            },
            ListStep::Insert(_) => {
                lemma_list_shift(rest, items, index, k, p);
            },
            ListStep::Delete(n) => {
                lemma_list_shift(rest, items, index + n, k, p);
            },
            ListStep::Modify(c) => {
                lemma_list_shift(rest, items, index + 1, k, p);
                if index < items.len() {
                    assert(shifted[j as int] == items[index as int]);
                    lemma_edit_any_path(
                        c,
                        items[index as int],
                        p.push(SegView::Index(index)),
                        p.push(SegView::Index(j)),
                    );
                }
            },
        }
    }
}

/// The steps of `s` still to run from unit `off` of step `i` on.
pub open spec fn tail_steps(s: Seq<ListStep>, i: int, off: nat) -> Seq<ListStep> {
    if i < 0 || i >= s.len() {
        seq![]
    } else if off == 0 {
        s.subrange(i, s.len() as int)
    } else if off >= step_size(s[i]) {
        s.subrange(i + 1, s.len() as int)
    } else {
        seq![step_tail(s[i], off)] + s.subrange(i + 1, s.len() as int)
    }
}

/// What the front step `h` makes of the front of `m`.
pub open spec fn head_out(h: ListStep, m: Seq<Content>, p: Seq<SegView>) -> Result<Seq<Content>, Fault> {
    match h {
        ListStep::Retain(n) => Ok(m.take(n as int)),
        ListStep::Insert(vs) => Ok(vs),
        ListStep::Delete(_) => Ok(seq![]),
        ListStep::Modify(c) => match apply_edit(c, m[0], p.push(SegView::Index(0))) {
            Ok(v) => Ok(seq![v]),
            Err(f) => Err(f),
        },
    }
}

/// Applying the step `h` and then `rest` to `m`, one step at a time.
pub open spec fn head_apply(h: ListStep, rest: Seq<ListStep>, m: Seq<Content>, p: Seq<SegView>) -> Result<
    Seq<Content>,
    Fault,
> {
    if step_in(h) <= m.len() {
        match head_out(h, m, p) {
            Ok(o) => match apply_list(rest, m.skip(step_in(h) as int), 0, p) {
                Ok(t) => Ok(o + t),
                Err(f) => Err(f),
            },
            Err(f) => Err(f),
        }
    } else {
        Err(Fault::SequenceOutOfBounds(p))
    }
}

/// The first `k` units of the step `h`, as a step.
pub open spec fn first_part(h: ListStep, k: nat) -> ListStep {
    match h {
        ListStep::Retain(_) => ListStep::Retain(k),
        ListStep::Insert(vs) => ListStep::Insert(vs.take(k as int)),
        ListStep::Delete(_) => ListStep::Delete(k),
        ListStep::Modify(c) => ListStep::Modify(c),
    }
}

/// The steps left after the first `k` units of `h`, followed by `rest`.
pub open spec fn after_part(h: ListStep, k: nat, rest: Seq<ListStep>) -> Seq<ListStep> {
    if k >= step_size(h) {
        rest
    } else {
        seq![step_tail(h, k)] + rest
    }
}

/// Applying a stream is applying its first step and then the others.
pub proof fn lemma_head_apply(h: ListStep, rest: Seq<ListStep>, m: Seq<Content>, p: Seq<SegView>)
    ensures
        same_outcome(apply_list(seq![h] + rest, m, 0, p), head_apply(h, rest, m, p)),
{
    let s = seq![h] + rest;
    assert(s[0] == h);
    assert(s.subrange(1, s.len() as int) =~= rest);
    let k = step_in(h);
    if k <= m.len() {
        lemma_list_shift(rest, m, k, k, p);
        assert(m.skip(k as int) =~= m.skip(k as int));
    }
    match h {
        ListStep::Retain(n) => {
            if n <= m.len() {
                assert(m.subrange(0, n as int) =~= m.take(n as int));
            }
        },
        ListStep::Insert(_) => {
            lemma_list_shift(rest, m, 0, 0, p);
            assert(m.skip(0) =~= m);
        },
        ListStep::Delete(_) => {},
        ListStep::Modify(c) => {
            if 0 < m.len() {
                match apply_edit(c, m[0], p.push(SegView::Index(0))) {
                    Ok(v) => {
                        match apply_list(rest, m, 1, p) {
                            Ok(t) => {
                                assert(seq![v] + t == seq![v] + t);
                            },
                            Err(_) => {},
                        }
                    },
                    Err(_) => {},
                }
            }
        },
    }
}

/// Applying a step is applying its first `k` units and then the rest of it.
pub proof fn lemma_split_head(h: ListStep, k: nat, rest: Seq<ListStep>, m: Seq<Content>, p: Seq<SegView>)
    requires
        0 < k <= step_size(h),
    ensures
        same_outcome(
            apply_list(seq![h] + rest, m, 0, p),
            head_apply(first_part(h, k), after_part(h, k, rest), m, p),
        ),
{
    lemma_head_apply(h, rest, m, p);
    if k >= step_size(h) {
        match h {
            ListStep::Insert(vs) => {
                assert(vs.take(k as int) =~= vs);
            },
            _ => {},
        }
    } else {
        let t = step_tail(h, k);
        let f = first_part(h, k);
        lemma_head_apply(f, seq![t] + rest, m, p);
        match h {
            ListStep::Retain(n) => {
                if k <= m.len() {
                    let m2 = m.skip(k as int);
                    lemma_head_apply(t, rest, m2, p);
                    if n <= m.len() {
                        assert(m2.skip((n - k) as int) =~= m.skip(n as int));
                        assert(m.take(k as int) + m2.take((n - k) as int) =~= m.take(n as int));
                        match apply_list(rest, m.skip(n as int), 0, p) {
                            Ok(x) => {
                                assert(m.take(k as int) + (m2.take((n - k) as int) + x) =~= m.take(
                                    n as int,
                                ) + x);
                            },
                            Err(_) => {},
                        }
                    }
                }
            },
            ListStep::Insert(vs) => {
                lemma_head_apply(t, rest, m, p);
                assert(m.skip(0) =~= m);
                assert(vs.take(k as int) + vs.skip(k as int) =~= vs);
                match apply_list(rest, m, 0, p) {
                    Ok(x) => {
                        assert(vs.take(k as int) + (vs.skip(k as int) + x) =~= vs + x);
                    },
                    Err(_) => {},
                }
            },
            ListStep::Delete(n) => {
                if k <= m.len() {
                    let m2 = m.skip(k as int);
                    lemma_head_apply(t, rest, m2, p);
                    if n <= m.len() {
                        assert(m2.skip((n - k) as int) =~= m.skip(n as int));
                    }
                    match apply_list(seq![t] + rest, m2, 0, p) {
                        Ok(x) => {
                            assert(Seq::<Content>::empty() + x =~= x);
                        },
                        Err(_) => {},
                    }
                    match apply_list(rest, m.skip(n as int), 0, p) {
                        Ok(x) => {
                            assert(Seq::<Content>::empty() + x =~= x);
                        },
                        Err(_) => {},
                    }
                }
            },
            ListStep::Modify(_) => {},
        }
    }
}

/// The steps from the start of step `i` on.
pub proof fn lemma_tail_start(s: Seq<ListStep>, i: int)
    requires
        0 <= i <= s.len(),
    ensures
        tail_steps(s, i, 0) == s.subrange(i, s.len() as int),
{
    if i == s.len() {
        assert(s.subrange(i, s.len() as int) =~= Seq::<ListStep>::empty());
    }
}

/// A partly read step is the front of the steps left.
pub proof fn lemma_tail_head(s: Seq<ListStep>, i: int, off: nat)
    requires
        0 <= i < s.len(),
        off < step_size(s[i]),
    ensures
        tail_steps(s, i, off) == seq![step_tail(s[i], off)] + s.subrange(i + 1, s.len() as int),
{
    if off == 0 {
        assert(s.subrange(i, s.len() as int) =~= seq![s[i]] + s.subrange(i + 1, s.len() as int));
        match s[i] {
            ListStep::Insert(vs) => {
                assert(vs.skip(0) =~= vs);
            },
            _ => {},
        }
    }
}

/// A fully read step leaves the steps after it.
pub proof fn lemma_tail_done(s: Seq<ListStep>, i: int, off: nat)
    requires
        0 <= i < s.len(),
        off == step_size(s[i]),
        off > 0,
    ensures
        tail_steps(s, i, off) == tail_steps(s, i + 1, 0),
{
    lemma_tail_start(s, i + 1);
}

/// Reading `k` more units of a partly read step leaves what is after them.
pub proof fn lemma_tail_advance(s: Seq<ListStep>, i: int, off: nat, k: nat)
    requires
        0 <= i < s.len(),
        off < step_size(s[i]),
        0 < k <= step_size(s[i]) - off,
    ensures
        tail_steps(s, advance(s, i, off, k).0, advance(s, i, off, k).1) == after_part(
            step_tail(s[i], off),
            k,
            s.subrange(i + 1, s.len() as int),
        ),
        step_size(step_tail(s[i], off)) == step_size(s[i]) - off,
{
    let h = step_tail(s[i], off);
    match s[i] {
        ListStep::Insert(vs) => {
            assert(vs.skip(off as int).skip(k as int) =~= vs.skip((off + k) as int));
        },
        _ => {},
    }
    if off + k >= step_size(s[i]) {
        lemma_tail_start(s, i + 1);
    }
}

/// Both List streams, read from the given positions, satisfy what the
/// composition walk assumes of them.
pub open spec fn walk_ready(a: Seq<ListStep>, i: int, oa: nat, b: Seq<ListStep>, j: int, ob: nat) -> bool {
    &&& steps_nonempty(a)
    &&& steps_nonempty(b)
    &&& modifies_formed(a)
    &&& modifies_formed(b)
    &&& 0 <= i <= a.len()
    &&& 0 <= j <= b.len()
    &&& (i < a.len() ==> oa <= step_size(a[i]))
    &&& (i == a.len() ==> oa == 0)
    &&& (j < b.len() ==> ob <= step_size(b[j]))
    &&& (j == b.len() ==> ob == 0)
}

/// The rest of two List streams composed applies like the rest of the
/// first followed by the rest of the second.
pub proof fn lemma_steps_compose(
    a: Seq<ListStep>,
    i: int,
    oa: nat,
    b: Seq<ListStep>,
    j: int,
    ob: nat,
    r: Seq<Content>,
    p: Seq<SegView>,
)
    requires
        walk_ready(a, i, oa, b, j, ob),
        apply_list(tail_steps(a, i, oa), r, 0, p) is Ok,
        apply_list(tail_steps(b, j, ob), apply_list(tail_steps(a, i, oa), r, 0, p)->Ok_0, 0, p) is Ok,
        compose_steps(a, i, oa, b, j, ob) is Ok,
    ensures
        apply_list(compose_steps(a, i, oa, b, j, ob)->Ok_0, r, 0, p) == apply_list(
            tail_steps(b, j, ob),
            apply_list(tail_steps(a, i, oa), r, 0, p)->Ok_0,
            0,
            p,
        ),
    decreases a, remaining(a, i, oa) + remaining(b, j, ob),
{
    let mid = apply_list(tail_steps(a, i, oa), r, 0, p)->Ok_0;
    let fin = apply_list(tail_steps(b, j, ob), mid, 0, p)->Ok_0;
    let a_has = 0 <= i < a.len() && oa <= step_size(a[i]);
    let b_has = 0 <= j < b.len() && ob <= step_size(b[j]);
    let arest = a.subrange(i + 1, a.len() as int);
    let brest = b.subrange(j + 1, b.len() as int);
    if a_has {
        lemma_units_from(a, i);
        assert(step_size(a[i]) > 0);
    }
    if b_has {
        lemma_units_from(b, j);
        assert(step_size(b[j]) > 0);
    }
    if a_has && oa == step_size(a[i]) {
        lemma_tail_done(a, i, oa);
        lemma_steps_compose(a, i + 1, 0, b, j, ob, r, p);
    } else if b_has && ob == step_size(b[j]) {
        lemma_tail_done(b, j, ob);
        lemma_steps_compose(a, i, oa, b, j + 1, 0, r, p);
    } else if b_has && b[j] is Insert {
        let hb = step_tail(b[j], ob);
        lemma_tail_head(b, j, ob);
        lemma_head_apply(hb, brest, mid, p);
        lemma_tail_start(b, j + 1);
        assert(mid.skip(0) =~= mid);
        assert(r.skip(0) =~= r);
        lemma_steps_compose(a, i, oa, b, j + 1, 0, r, p);
        let cs2 = compose_steps(a, i, oa, b, j + 1, 0)->Ok_0;
        assert(compose_steps(a, i, oa, b, j, ob)->Ok_0 == seq![hb] + cs2);
        lemma_head_apply(hb, cs2, r, p);
    } else if a_has && a[i] is Delete {
        let ha = step_tail(a[i], oa);
        let k = step_in(ha);
        lemma_tail_head(a, i, oa);
        lemma_head_apply(ha, arest, r, p);
        lemma_tail_start(a, i + 1);
        lemma_steps_compose(a, i + 1, 0, b, j, ob, r.skip(k as int), p);
        let cs2 = compose_steps(a, i + 1, 0, b, j, ob)->Ok_0;
        assert(compose_steps(a, i, oa, b, j, ob)->Ok_0 == seq![ha] + cs2);
        lemma_head_apply(ha, cs2, r, p);
        assert(Seq::<Content>::empty() + mid =~= mid);
        match apply_list(cs2, r.skip(k as int), 0, p) {
            Ok(x) => {
                assert(Seq::<Content>::empty() + x =~= x);
            },
            Err(_) => {},
        }
    } else if !a_has && !b_has {
        assert(r.subrange(0, r.len() as int) =~= r);
        assert(mid.subrange(0, mid.len() as int) =~= mid);
    } else if !a_has {
        let hb = step_tail(b[j], ob);
        let k = step_in(hb);
        assert(r.subrange(0, r.len() as int) =~= r);
        assert(mid == r);
        lemma_tail_head(b, j, ob);
        lemma_head_apply(hb, brest, mid, p);
        lemma_tail_start(b, j + 1);
        let r2 = r.skip(k as int);
        assert(r2.subrange(0, r2.len() as int) =~= r2);
        lemma_steps_compose(a, i, oa, b, j + 1, 0, r2, p);
        let cs2 = compose_steps(a, i, oa, b, j + 1, 0)->Ok_0;
        assert(compose_steps(a, i, oa, b, j, ob)->Ok_0 == seq![hb] + cs2);
        lemma_head_apply(hb, cs2, r, p);
    } else if !b_has {
        let ha = step_tail(a[i], oa);
        let k = step_in(ha);
        assert(mid.subrange(0, mid.len() as int) =~= mid);
        assert(fin == mid);
        lemma_tail_head(a, i, oa);
        lemma_head_apply(ha, arest, r, p);
        lemma_tail_start(a, i + 1);
        let r2 = r.skip(k as int);
        let mid2 = apply_list(arest, r2, 0, p)->Ok_0;
        assert(mid2.subrange(0, mid2.len() as int) =~= mid2);
        lemma_steps_compose(a, i + 1, 0, b, j, ob, r2, p);
        let cs2 = compose_steps(a, i + 1, 0, b, j, ob)->Ok_0;
        assert(compose_steps(a, i, oa, b, j, ob)->Ok_0 == seq![ha] + cs2);
        lemma_head_apply(ha, cs2, r, p);
    } else {
        lemma_steps_walk(a, i, oa, b, j, ob, r, p);
    }
}

/// The step of the composition walk where both streams have a step left
/// and neither is an insertion by the second nor a deletion by the first.
proof fn lemma_steps_walk(
    a: Seq<ListStep>,
    i: int,
    oa: nat,
    b: Seq<ListStep>,
    j: int,
    ob: nat,
    r: Seq<Content>,
    p: Seq<SegView>,
)
    requires
        walk_ready(a, i, oa, b, j, ob),
        0 <= i < a.len(),
        0 <= j < b.len(),
        oa < step_size(a[i]),
        ob < step_size(b[j]),
        !(b[j] is Insert),
        !(a[i] is Delete),
        apply_list(tail_steps(a, i, oa), r, 0, p) is Ok,
        apply_list(tail_steps(b, j, ob), apply_list(tail_steps(a, i, oa), r, 0, p)->Ok_0, 0, p) is Ok,
        compose_steps(a, i, oa, b, j, ob) is Ok,
    ensures
        apply_list(compose_steps(a, i, oa, b, j, ob)->Ok_0, r, 0, p) == apply_list(
            tail_steps(b, j, ob),
            apply_list(tail_steps(a, i, oa), r, 0, p)->Ok_0,
            0,
            p,
        ),
    decreases a, remaining(a, i, oa) + remaining(b, j, ob), 0nat,
{
    let mid = apply_list(tail_steps(a, i, oa), r, 0, p)->Ok_0;
    let arest = a.subrange(i + 1, a.len() as int);
    let brest = b.subrange(j + 1, b.len() as int);
    let ha = step_tail(a[i], oa);
    let hb = step_tail(b[j], ob);
    let sa = (step_size(a[i]) - oa) as nat;
    let sb = (step_size(b[j]) - ob) as nat;
    let len: nat = if sa <= sb { sa } else { sb };
    let (i2, oa2) = advance(a, i, oa, len);
    let (j2, ob2) = advance(b, j, ob, len);
    lemma_units_from(a, i);
    lemma_units_from(b, j);
    lemma_tail_head(a, i, oa);
    lemma_tail_head(b, j, ob);
    lemma_tail_advance(a, i, oa, len);
    lemma_tail_advance(b, j, ob, len);
    let ta2 = tail_steps(a, i2, oa2);
    let tb2 = tail_steps(b, j2, ob2);
    let fa = first_part(ha, len);
    let fb = first_part(hb, len);
    lemma_split_head(ha, len, arest, r, p);
    lemma_split_head(hb, len, brest, mid, p);
    let out_a = head_out(fa, r, p)->Ok_0;
    let r2 = r.skip(step_in(fa) as int);
    let mid2 = apply_list(ta2, r2, 0, p)->Ok_0;
    assert(mid == out_a + mid2);
    assert(out_a.len() == len) by {
        match ha {
            ListStep::Insert(vs) => {},
            _ => {},
        }
    }
    assert(step_in(fb) == len);
    assert(mid.skip(len as int) =~= mid2);
    assert(walk_ready(a, i2, oa2, b, j2, ob2));
    lemma_steps_compose(a, i2, oa2, b, j2, ob2, r2, p);
    let cs2 = compose_steps(a, i2, oa2, b, j2, ob2)->Ok_0;
    let out_b = head_out(fb, mid, p)->Ok_0;
    assert(mid[0] == out_a[0]);
    match (ha, hb) {
        (ListStep::Insert(vs), ListStep::Retain(_)) => {
            let s0 = ListStep::Insert(vs.take(len as int));
            assert(compose_steps(a, i, oa, b, j, ob)->Ok_0 == seq![s0] + cs2);
            lemma_head_apply(s0, cs2, r, p);
            assert(r.skip(0) =~= r);
            assert(out_b =~= out_a);
        },
        (ListStep::Insert(_), ListStep::Delete(_)) => {
            assert(compose_steps(a, i, oa, b, j, ob)->Ok_0 == cs2);
            assert(r.skip(0) =~= r);
            match apply_list(cs2, r, 0, p) {
                Ok(x) => {
                    assert(Seq::<Content>::empty() + x =~= x);
                },
                Err(_) => {},
            }
        },
        (ListStep::Insert(vs), ListStep::Modify(c)) => {
            let w = apply_edit(c, vs[0], Seq::empty())->Ok_0;
            lemma_edit_any_path(c, vs[0], Seq::empty(), p.push(SegView::Index(0)));
            let s0 = ListStep::Insert(seq![w]);
            assert(compose_steps(a, i, oa, b, j, ob)->Ok_0 == seq![s0] + cs2);
            lemma_head_apply(s0, cs2, r, p);
            assert(r.skip(0) =~= r);
        },
        (ListStep::Retain(_), ListStep::Retain(_)) => {
            let s0 = ListStep::Retain(len);
            assert(compose_steps(a, i, oa, b, j, ob)->Ok_0 == seq![s0] + cs2);
            lemma_head_apply(s0, cs2, r, p);
            assert(out_b =~= out_a);
        },
        (ListStep::Retain(_), ListStep::Delete(_)) => {
            let s0 = ListStep::Delete(len);
            assert(compose_steps(a, i, oa, b, j, ob)->Ok_0 == seq![s0] + cs2);
            lemma_head_apply(s0, cs2, r, p);
        },
        (ListStep::Modify(_), ListStep::Delete(_)) => {
            let s0 = ListStep::Delete(1);
            assert(compose_steps(a, i, oa, b, j, ob)->Ok_0 == seq![s0] + cs2);
            lemma_head_apply(s0, cs2, r, p);
        },
        (ListStep::Retain(_), ListStep::Modify(c)) => {
            let s0 = ListStep::Modify(c);
            assert(compose_steps(a, i, oa, b, j, ob)->Ok_0 == seq![s0] + cs2);
            lemma_head_apply(s0, cs2, r, p);
        },
        (ListStep::Modify(c), ListStep::Retain(_)) => {
            let s0 = ListStep::Modify(c);
            assert(compose_steps(a, i, oa, b, j, ob)->Ok_0 == seq![s0] + cs2);
            lemma_head_apply(s0, cs2, r, p);
            assert(out_b =~= out_a);
        },
        (ListStep::Modify(x), ListStep::Modify(y)) => {
            let z = compose_edit(x, y)->Ok_0;
            let s0 = ListStep::Modify(z);
            assert(compose_steps(a, i, oa, b, j, ob)->Ok_0 == seq![s0] + cs2);
            assert(decreases_to!(a => a[i]));
            assert(decreases_to!(a[i] => a[i]->Modify_0));
            assert(formed(x));
            assert(b[j] is Modify);
            assert(formed(y));
            law_compose_applies_in_turn(x, y, r[0], p.push(SegView::Index(0)));
            lemma_head_apply(s0, cs2, r, p);
        },
        _ => {},
    }
}

/// Composing two Changes gives one Change with the effect of applying the
/// first and then the second: wherever the two apply in turn and compose,
/// the composition applies to the same result.
pub proof fn law_compose_applies_in_turn(a: Edit, b: Edit, base: Content, p: Seq<SegView>)
    requires
        formed(a),
        formed(b),
        apply_edit(a, base, p) is Ok,
        apply_edit(b, apply_edit(a, base, p)->Ok_0, p) is Ok,
        compose_edit(a, b) is Ok,
    ensures
        apply_edit(compose_edit(a, b)->Ok_0, base, p) == apply_edit(b, apply_edit(a, base, p)->Ok_0, p),
    decreases a, 0nat, 0nat,
{
    let mid = apply_edit(a, base, p)->Ok_0;
    match (a, b) {
        (Edit::Noop, _) => {},
        (_, Edit::Noop) => {},
        (_, Edit::Replace(v)) => {},
        (Edit::Replace(v), _) => {
            lemma_edit_any_path(b, v, Seq::empty(), p);
        },
        (Edit::Int(x), Edit::Int(y)) => {},
        (Edit::List(x), Edit::List(y)) => {
            let items = base->List_0;
            let mid_items = mid->List_0;
            lemma_tail_start(x, 0);
            lemma_tail_start(y, 0);
            assert(x.subrange(0, x.len() as int) =~= x);
            assert(y.subrange(0, y.len() as int) =~= y);
            assert(walk_ready(x, 0, 0, y, 0, 0));
            lemma_steps_compose(x, 0, 0, y, 0, 0, items, p);
            let raw = compose_steps(x, 0, 0, y, 0, 0)->Ok_0;
            let fin_items = apply_list(y, mid_items, 0, p)->Ok_0;
            assert(apply_list(raw, items, 0, p) == Ok::<Seq<Content>, Fault>(fin_items));
            lemma_apply_list_run(raw, items, 0, p);
            let n = list_normalize(raw)->Some_0;
            lemma_normalize_apply(raw, items, 0, p);
            lemma_apply_list_run(n, items, 0, p);
            lemma_run_lengths(n, items, 0, p);
            lemma_apply_list_run(y, mid_items, 0, p);
            lemma_run_lengths(y, mid_items, 0, p);
            assert(apply_list(n, items, 0, p) == Ok::<Seq<Content>, Fault>(fin_items));
            assert(list_in(n) <= items.len());
            assert(fin_items.len() == list_out(n) + (items.len() - list_in(n)));
            assert(fin_items.len() <= max_list_len());
            if n.len() == 0 {
                assert(items.subrange(0, items.len() as int) =~= items);
            }
        },
        (Edit::KeyMap(ea), Edit::KeyMap(eb)) => {
            let m = base->KeyMap_0;
            let mid_m = mid->KeyMap_0;
            let fin_m = apply_entries(eb, mid_m, p)->Ok_0;
            lemma_apply_relate(ea, m, mid_m, p);
            lemma_apply_relate(eb, mid_m, fin_m, p);
            assert(merge_ordered(ea, 0, eb, 0));
            lemma_entries_compose(ea, 0, eb, 0, m, mid_m, fin_m, p);
            let out = compose_entries(ea, 0, eb, 0)->Ok_0;
            assert forall|k: Seq<char>| !has_key(out, k) implies #[trigger] agree_at(m, fin_m, k) by {
                if !key_from(ea, 0, k) && !key_from(eb, 0, k) {
                    assert(!has_key(ea, k)) by {
                        if has_key(ea, k) {
                            let x = choose|x: int| 0 <= x < ea.len() && #[trigger] ea[x].0 == k;
                            assert(key_from(ea, 0, k));
                        }
                    }
                    assert(!has_key(eb, k)) by {
                        if has_key(eb, k) {
                            let y = choose|y: int| 0 <= y < eb.len() && #[trigger] eb[y].0 == k;
                            assert(key_from(eb, 0, k));
                        }
                    }
                    assert(agree_at(m, mid_m, k));
                    assert(agree_at(mid_m, fin_m, k));
                }
            }
            lemma_relate_apply(out, m, fin_m, p);
        },
        (Edit::Text(xs), Edit::Text(ys)) => {
            let text = base->Text_0;
            let u = compose_units(expand(xs), expand(ys));
            lemma_text_composed(xs, ys);
            let v = text_composed(xs, ys);
            lemma_compose_run(expand(xs), expand(ys), text);
            lemma_normal_run(u, text);
            if v.len() == 0 {
                assert(expand(v) =~= Seq::<Unit<char>>::empty());
            }
        },
        _ => {},
    }
}

/// The maximal runs of a unit stream expand back to it.
proof fn lemma_expand_runs(y: Seq<Unit<char>>)
    ensures
        expand(runs(y)) == y,
    decreases y.len(),
{
    if y.len() > 0 {
        let y0 = y.drop_last();
        let u = y.last();
        lemma_expand_runs(y0);
        let c = runs(y0);
        if c.len() > 0 && op_kind(c.last()) == unit_kind(u) {
            let init = c.drop_last();
            let op = c.last();
            lemma_expand_push(init, grow(op, u));
            lemma_expand_push(init, op);
            assert(init.push(op) =~= c);
            match (op, u) {
                (OpView::Retain(n), _) => {
                    assert(keeps(n + 1) =~= keeps(n).push(u));
                },
                (OpView::Insert(t), Unit::Put(ch)) => {
                    assert(t.push(ch).drop_last() =~= t);
                },
                (OpView::Delete(n), _) => {
                    assert(drops(n + 1) =~= drops(n).push(u));
                },
                _ => {},
            }
            assert(expand(runs(y)) =~= y0.push(u));
        } else {
            lemma_expand_push(c, unit_op(u));
            match u {
                Unit::Keep => {
                    assert(keeps(1) =~= seq![u]);
                },
                Unit::Put(ch) => {
                    crate::model::lemma_puts_len(seq![ch]);
                    assert(puts(seq![ch]) =~= seq![u]);
                },
                Unit::Drop => {
                    assert(drops(1) =~= seq![u]);
                },
            }
            assert(expand(runs(y)) =~= y0.push(u));
        }
        assert(y0.push(u) =~= y);
    }
}

/// No deletion step is directly followed by an insertion step.
pub open spec fn settled_units(y: Seq<Unit<char>>) -> bool {
    forall|i: int| 0 <= i < y.len() - 1 ==> !(#[trigger] y[i] is Drop && y[i + 1] is Put)
}

proof fn lemma_reorder_settled(x: Seq<Unit<char>>, d: nat)
    ensures
        settled_units(reorder(x, d)),
    decreases x.len(),
{
    if x.len() > 0 {
        let rest = x.drop_first();
        match x[0] {
            Unit::Put(c) => {
                lemma_reorder_settled(rest, d);
                let r = reorder(rest, d);
                let y = seq![Unit::Put(c)] + r;
                assert forall|i: int| 0 <= i < y.len() - 1 implies !(#[trigger] y[i] is Drop && y[i + 1]
                    is Put) by {
                    if i > 0 {
                        assert(y[i] == r[i - 1] && y[i + 1] == r[i]);
                    }
                }
            },
            Unit::Drop => {
                lemma_reorder_settled(rest, d + 1);
            },
            Unit::Keep => {
                lemma_reorder_settled(rest, 0);
                let r = reorder(rest, 0);
                let y = drops(d) + seq![Unit::Keep] + r;
                assert forall|i: int| 0 <= i < y.len() - 1 implies !(#[trigger] y[i] is Drop && y[i + 1]
                    is Put) by {
                    if i > d {
                        assert(y[i] == r[i - d - 1] && y[i + 1] == r[i - d]);
                    } else if i == d {
                        assert(y[i] == Unit::<char>::Keep);
                    } else {
                        assert(y[i + 1] == Unit::<char>::Drop || y[i + 1] == Unit::<char>::Keep);
                    }
                }
            },
        }
    }
}

proof fn lemma_reorder_fixed(y: Seq<Unit<char>>, d: nat)
    requires
        settled_units(y),
        d > 0 && y.len() > 0 ==> !(y[0] is Put),
    ensures
        reorder(y, d) == drops(d) + y,
    decreases y.len(),
{
    if y.len() == 0 {
        assert(drops(d) + y =~= drops(d));
    } else {
        let rest = y.drop_first();
        assert forall|i: int| 0 <= i < rest.len() - 1 implies !(#[trigger] rest[i] is Drop && rest[i
            + 1] is Put) by {
            assert(rest[i] == y[i + 1] && rest[i + 1] == y[i + 2]);
        }
        if rest.len() > 0 {
            assert(rest[0] == y[1]);
        }
        match y[0] {
            Unit::Put(c) => {
                lemma_reorder_fixed(rest, d);
                assert(drops(0) + rest =~= rest);
                assert(seq![Unit::Put(c)] + rest =~= y);
                assert(drops(d) + y =~= y);
            },
            Unit::Drop => {
                lemma_reorder_fixed(rest, d + 1);
                assert(drops(d + 1) + rest =~= drops(d) + y);
            },
            Unit::Keep => {
                lemma_reorder_fixed(rest, 0);
                assert(drops(0) + rest =~= rest);
                assert(drops(d) + seq![Unit::Keep] + rest =~= drops(d) + y);
            },
        }
    }
}

/// A unit stream that normalizes has a canonical stream with its effect.
pub proof fn lemma_canonical_of(u: Seq<Unit<char>>)
    requires
        normalizes(u),
    ensures
        exists|v: Seq<OpView>| canonical(v) && expand(v) == normal_units(u),
{
    let y = reorder(u, 0);
    let ops = runs(y);
    lemma_expand_runs(y);
    lemma_reorder_settled(u, 0);
    lemma_reorder_fixed(y, 0);
    assert(drops(0) + y =~= y);
    assert(ops_fit(ops));
    assert(normalizes(expand(ops)));
    lemma_normalizes(ops);
    assert(inserts_fit(ops)) by {
        assert forall|i: int| 0 <= i < ops.len() implies insert_fits(#[trigger] ops[i]) by {
            assert(crate::runs::op_fits(ops[i]));
        }
    }
    lemma_normalize_view(ops);
    let n = normalize_view(ops)->Some_0;
    assert(canonical(n) && expand(n) == normal_units(u));
}

/// The canonical stream `text_composed` picks exists whenever the
/// composed units normalize.
pub proof fn lemma_text_composed(s: Seq<OpView>, t: Seq<OpView>)
    requires
        normalizes(compose_units(expand(s), expand(t))),
    ensures
        canonical(text_composed(s, t)),
        expand(text_composed(s, t)) == normal_units(compose_units(expand(s), expand(t))),
{
    lemma_canonical_of(compose_units(expand(s), expand(t)));
}

/// Some entry change from position `from` on has key `k`.
pub open spec fn key_from(es: Seq<(Seq<char>, EntryEdit)>, from: int, k: Seq<char>) -> bool {
    exists|x: int| from <= x < es.len() && #[trigger] es[x].0 == k
}

/// Keys already merged sort before the keys still to merge.
pub open spec fn merge_ordered(
    ea: Seq<(Seq<char>, EntryEdit)>,
    i: int,
    eb: Seq<(Seq<char>, EntryEdit)>,
    j: int,
) -> bool {
    &&& forall|x: int, y: int| 0 <= x < i && j <= y < eb.len() ==> key_lt(#[trigger] ea[x].0, #[trigger] eb[y].0)
    &&& forall|x: int, y: int| 0 <= y < j && i <= x < ea.len() ==> key_lt(#[trigger] eb[y].0, #[trigger] ea[x].0)
}

/// What the composition of the rest of two Map Changes, `out`, says of
/// `m`, the Map before both, and `fin`, the Map after both.
pub open spec fn merged_well(
    ea: Seq<(Seq<char>, EntryEdit)>,
    i: int,
    eb: Seq<(Seq<char>, EntryEdit)>,
    j: int,
    out: Seq<(Seq<char>, EntryEdit)>,
    m: Map<Seq<char>, Content>,
    fin: Map<Seq<char>, Content>,
    p: Seq<SegView>,
) -> bool {
    &&& forall|x: int| 0 <= x < out.len() ==> entry_step((#[trigger] out[x]).1, out[x].0, m, fin, p)
    &&& forall|x: int|
        0 <= x < out.len() ==> key_from(ea, i, (#[trigger] out[x]).0) || key_from(eb, j, out[x].0)
    &&& forall|k: Seq<char>|
        (key_from(ea, i, k) || key_from(eb, j, k)) && !has_key(out, k) ==> #[trigger] agree_at(m, fin, k)
    &&& keys_sorted(out)
}

proof fn lemma_merge_next(
    ea: Seq<(Seq<char>, EntryEdit)>,
    i: int,
    eb: Seq<(Seq<char>, EntryEdit)>,
    j: int,
    i2: int,
    j2: int,
)
    requires
        keys_sorted(ea),
        keys_sorted(eb),
        0 <= i <= ea.len(),
        0 <= j <= eb.len(),
        merge_ordered(ea, i, eb, j),
        i2 == i || i2 == i + 1,
        j2 == j || j2 == j + 1,
        i2 == i + 1 ==> i < ea.len() && (j < eb.len() ==> key_lt(ea[i].0, eb[j].0) || (j2 == j + 1
            && ea[i].0 == eb[j].0)),
        j2 == j + 1 ==> j < eb.len() && (i < ea.len() ==> key_lt(eb[j].0, ea[i].0) || (i2 == i + 1
            && ea[i].0 == eb[j].0)),
    ensures
        merge_ordered(ea, i2, eb, j2),
{
    assert forall|x: int, y: int| 0 <= x < i2 && j2 <= y < eb.len() implies key_lt(
        #[trigger] ea[x].0,
        #[trigger] eb[y].0,
    ) by {
        if x == i {
            if y > j {
                assert(key_lt(eb[j].0, eb[y].0));
            }
            if key_lt(ea[i].0, eb[j].0) && y > j {
                lemma_key_lt_transitive(ea[i].0, eb[j].0, eb[y].0);
            }
        }
    }
    assert forall|x: int, y: int| 0 <= y < j2 && i2 <= x < ea.len() implies key_lt(
        #[trigger] eb[y].0,
        #[trigger] ea[x].0,
    ) by {
        if y == j {
            if x > i {
                assert(key_lt(ea[i].0, ea[x].0));
            }
            if key_lt(eb[j].0, ea[i].0) && x > i {
                lemma_key_lt_transitive(eb[j].0, ea[i].0, ea[x].0);
            }
        }
    }
}

/// One merged entry change in front of the rest keeps the merge well.
proof fn lemma_merge_front(
    ea: Seq<(Seq<char>, EntryEdit)>,
    i: int,
    eb: Seq<(Seq<char>, EntryEdit)>,
    j: int,
    i2: int,
    j2: int,
    e: (Seq<char>, EntryEdit),
    rest: Seq<(Seq<char>, EntryEdit)>,
    m: Map<Seq<char>, Content>,
    fin: Map<Seq<char>, Content>,
    p: Seq<SegView>,
)
    requires
        keys_sorted(ea),
        keys_sorted(eb),
        0 <= i <= i2 <= ea.len(),
        0 <= j <= j2 <= eb.len(),
        i2 == i || i2 == i + 1,
        j2 == j || j2 == j + 1,
        i2 + j2 > i + j,
        i2 == i + 1 ==> ea[i].0 == e.0,
        j2 == j + 1 ==> eb[j].0 == e.0,
        merge_ordered(ea, i2, eb, j2),
        merged_well(ea, i2, eb, j2, rest, m, fin, p),
        entry_step(e.1, e.0, m, fin, p),
    ensures
        merged_well(ea, i, eb, j, seq![e] + rest, m, fin, p),
{
    let out = seq![e] + rest;
    let k = e.0;
    assert forall|z: Seq<char>| (key_from(ea, i2, z) || key_from(eb, j2, z)) implies key_lt(k, z) by {
        if key_from(ea, i2, z) {
            let x = choose|x: int| i2 <= x < ea.len() && #[trigger] ea[x].0 == z;
            if i2 == i + 1 {
                assert(key_lt(ea[i].0, ea[x].0));
            } else {
                assert(key_lt(eb[j].0, ea[x].0));
            }
        } else {
            let y = choose|y: int| j2 <= y < eb.len() && #[trigger] eb[y].0 == z;
            if j2 == j + 1 {
                assert(key_lt(eb[j].0, eb[y].0));
            } else {
                assert(key_lt(ea[i].0, eb[y].0));
            }
        }
    }
    assert forall|x: int| 0 <= x < out.len() implies entry_step((#[trigger] out[x]).1, out[x].0, m, fin, p) by {
        if x > 0 {
            assert(out[x] == rest[x - 1]);
        }
    }
    assert forall|x: int| 0 <= x < out.len() implies key_from(ea, i, (#[trigger] out[x]).0) || key_from(
        eb,
        j,
        out[x].0,
    ) by {
        if x > 0 {
            assert(out[x] == rest[x - 1]);
            if key_from(ea, i2, rest[x - 1].0) {
                let w = choose|w: int| i2 <= w < ea.len() && #[trigger] ea[w].0 == rest[x - 1].0;
                assert(ea[w].0 == out[x].0);
            } else {
                let w = choose|w: int| j2 <= w < eb.len() && #[trigger] eb[w].0 == rest[x - 1].0;
                assert(eb[w].0 == out[x].0);
            }
        } else if i2 == i + 1 {
            assert(ea[i].0 == out[0].0);
        } else {
            assert(eb[j].0 == out[0].0);
        }
    }
    assert forall|z: Seq<char>| (key_from(ea, i, z) || key_from(eb, j, z)) && !has_key(out, z) implies #[trigger] agree_at(
        m,
        fin,
        z,
    ) by {
        assert(out[0].0 == k);
        assert(z != k);
        assert(!has_key(rest, z)) by {
            if has_key(rest, z) {
                let w = choose|w: int| 0 <= w < rest.len() && #[trigger] rest[w].0 == z;
                assert(out[w + 1] == rest[w]);
            }
        }
        if key_from(ea, i, z) {
            let x = choose|x: int| i <= x < ea.len() && #[trigger] ea[x].0 == z;
            if x == i {
                assert(i2 == i + 1 || key_from(ea, i2, z));
            }
            if x >= i2 {
                assert(key_from(ea, i2, z));
            }
        } else {
            let y = choose|y: int| j <= y < eb.len() && #[trigger] eb[y].0 == z;
            if y >= j2 {
                assert(key_from(eb, j2, z));
            }
        }
    }
    assert forall|a: int, b: int| 0 <= a < b < out.len() implies key_lt(#[trigger] out[a].0, #[trigger] out[b].0) by {
        assert(out[b] == rest[b - 1]);
        if a > 0 {
            assert(out[a] == rest[a - 1]);
        } else {
            assert(key_from(ea, i2, rest[b - 1].0) || key_from(eb, j2, rest[b - 1].0));
        }
    }
}

/// An entry both Changes drop from the composition keeps the merge well.
proof fn lemma_merge_skip(
    ea: Seq<(Seq<char>, EntryEdit)>,
    i: int,
    eb: Seq<(Seq<char>, EntryEdit)>,
    j: int,
    rest: Seq<(Seq<char>, EntryEdit)>,
    m: Map<Seq<char>, Content>,
    fin: Map<Seq<char>, Content>,
    p: Seq<SegView>,
)
    requires
        0 <= i < ea.len(),
        0 <= j < eb.len(),
        ea[i].0 == eb[j].0,
        merged_well(ea, i + 1, eb, j + 1, rest, m, fin, p),
        agree_at(m, fin, ea[i].0),
    ensures
        merged_well(ea, i, eb, j, rest, m, fin, p),
{
    assert forall|x: int| 0 <= x < rest.len() implies key_from(ea, i, (#[trigger] rest[x]).0) || key_from(
        eb,
        j,
        rest[x].0,
    ) by {
        if key_from(ea, i + 1, rest[x].0) {
            let w = choose|w: int| i + 1 <= w < ea.len() && #[trigger] ea[w].0 == rest[x].0;
            assert(ea[w].0 == rest[x].0);
        } else {
            let w = choose|w: int| j + 1 <= w < eb.len() && #[trigger] eb[w].0 == rest[x].0;
            assert(eb[w].0 == rest[x].0);
        }
    }
    assert forall|z: Seq<char>| (key_from(ea, i, z) || key_from(eb, j, z)) && !has_key(rest, z) implies #[trigger] agree_at(
        m,
        fin,
        z,
    ) by {
        if z != ea[i].0 {
            if key_from(ea, i, z) {
                let x = choose|x: int| i <= x < ea.len() && #[trigger] ea[x].0 == z;
                assert(key_from(ea, i + 1, z));
            } else {
                let y = choose|y: int| j <= y < eb.len() && #[trigger] eb[y].0 == z;
                assert(key_from(eb, j + 1, z));
            }
        }
    }
}

/// The rest of two Map Changes composed turns `m` into `fin` at every key it
/// changes, and leaves alone the other keys the rest of either changes.
pub proof fn lemma_entries_compose(
    ea: Seq<(Seq<char>, EntryEdit)>,
    i: int,
    eb: Seq<(Seq<char>, EntryEdit)>,
    j: int,
    m: Map<Seq<char>, Content>,
    mid: Map<Seq<char>, Content>,
    fin: Map<Seq<char>, Content>,
    p: Seq<SegView>,
)
    requires
        keys_sorted(ea),
        keys_sorted(eb),
        entries_formed(ea),
        entries_formed(eb),
        0 <= i <= ea.len(),
        0 <= j <= eb.len(),
        merge_ordered(ea, i, eb, j),
        entries_relate(ea, m, mid, p),
        entries_relate(eb, mid, fin, p),
        compose_entries(ea, i, eb, j) is Ok,
    ensures
        merged_well(ea, i, eb, j, compose_entries(ea, i, eb, j)->Ok_0, m, fin, p),
    decreases ea, entries_left(ea.len(), i) + entries_left(eb.len(), j), 0nat,
{
    let out = compose_entries(ea, i, eb, j)->Ok_0;
    let a_has = 0 <= i < ea.len();
    let b_has = 0 <= j < eb.len();
    if !a_has && !b_has {
        assert(out.len() == 0);
    } else if a_has && (!b_has || key_lt(ea[i].0, eb[j].0)) {
        let k = ea[i].0;
        lemma_merge_next(ea, i, eb, j, i + 1, j);
        lemma_entries_compose(ea, i + 1, eb, j, m, mid, fin, p);
        let rest = compose_entries(ea, i + 1, eb, j)->Ok_0;
        assert(!has_key(eb, k)) by {
            if has_key(eb, k) {
                let y = choose|y: int| 0 <= y < eb.len() && #[trigger] eb[y].0 == k;
                if y >= j {
                    if y > j {
                        assert(key_lt(eb[j].0, eb[y].0));
                        lemma_key_lt_transitive(k, eb[j].0, eb[y].0);
                    }
                    lemma_key_lt_asymmetric(k, k);
                } else {
                    assert(key_lt(eb[y].0, ea[i].0));
                    lemma_key_lt_asymmetric(k, k);
                }
            }
        }
        assert(agree_at(mid, fin, k));
        assert(entry_step(ea[i].1, k, m, mid, p));
        lemma_merge_front(ea, i, eb, j, i + 1, j, ea[i], rest, m, fin, p);
    } else if b_has && (!a_has || key_lt(eb[j].0, ea[i].0)) {
        let k = eb[j].0;
        lemma_merge_next(ea, i, eb, j, i, j + 1);
        lemma_entries_compose(ea, i, eb, j + 1, m, mid, fin, p);
        let rest = compose_entries(ea, i, eb, j + 1)->Ok_0;
        assert(!has_key(ea, k)) by {
            if has_key(ea, k) {
                let x = choose|x: int| 0 <= x < ea.len() && #[trigger] ea[x].0 == k;
                if x >= i {
                    if x > i {
                        assert(key_lt(ea[i].0, ea[x].0));
                        lemma_key_lt_transitive(k, ea[i].0, ea[x].0);
                    }
                    lemma_key_lt_asymmetric(k, k);
                } else {
                    assert(key_lt(ea[x].0, eb[j].0));
                    lemma_key_lt_asymmetric(k, k);
                }
            }
        }
        assert(agree_at(m, mid, k));
        assert(entry_step(eb[j].1, k, mid, fin, p));
        lemma_merge_front(ea, i, eb, j, i, j + 1, eb[j], rest, m, fin, p);
    } else {
        let k = ea[i].0;
        crate::keys::lemma_key_lt_total(ea[i].0, eb[j].0);
        assert(eb[j].0 == k);
        lemma_merge_next(ea, i, eb, j, i + 1, j + 1);
        lemma_entries_compose(ea, i + 1, eb, j + 1, m, mid, fin, p);
        let rest = compose_entries(ea, i + 1, eb, j + 1)->Ok_0;
        assert(entry_step(ea[i].1, k, m, mid, p));
        assert(entry_step(eb[j].1, k, mid, fin, p));
        let pk = p.push(SegView::Key(k));
        match (ea[i].1, eb[j].1) {
            (EntryEdit::Insert(v), EntryEdit::Modify(c)) => {
                lemma_edit_any_path(c, v, Seq::empty(), pk);
                let e = (k, EntryEdit::Insert(apply_edit(c, v, Seq::empty())->Ok_0));
                assert(out == seq![e] + rest);
                lemma_merge_front(ea, i, eb, j, i + 1, j + 1, e, rest, m, fin, p);
            },
            (EntryEdit::Insert(_), EntryEdit::Delete) => {
                assert(out == rest);
                lemma_merge_skip(ea, i, eb, j, rest, m, fin, p);
            },
            (EntryEdit::Delete, EntryEdit::Insert(v)) => {
                let e = (k, EntryEdit::Modify(Edit::Replace(v)));
                assert(out == seq![e] + rest);
                lemma_merge_front(ea, i, eb, j, i + 1, j + 1, e, rest, m, fin, p);
            },
            (EntryEdit::Modify(x), EntryEdit::Modify(y)) => {
                assert(decreases_to!(ea => ea[i]));
                assert(decreases_to!(ea[i] => ea[i].1));
                assert(decreases_to!(ea[i].1 => ea[i].1->Modify_0));
                assert(formed(x));
                assert(eb[j].1 is Modify);
                assert(formed(y));
                law_compose_applies_in_turn(x, y, m[k], pk);
                let z = compose_edit(x, y)->Ok_0;
                if z is Noop {
                    assert(out == rest);
                    lemma_merge_skip(ea, i, eb, j, rest, m, fin, p);
                } else {
                    let e = (k, EntryEdit::Modify(z));
                    assert(out == seq![e] + rest);
                    lemma_merge_front(ea, i, eb, j, i + 1, j + 1, e, rest, m, fin, p);
                }
            },
            (EntryEdit::Modify(_), EntryEdit::Delete) => {
                let e = (k, EntryEdit::Delete);
                assert(out == seq![e] + rest);
                lemma_merge_front(ea, i, eb, j, i + 1, j + 1, e, rest, m, fin, p);
            },
            _ => {},
        }
    }
}

} // verus!
