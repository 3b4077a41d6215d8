//! The inverse of a Change restores the Snapshot it was built from.
use crate::apply_change::{apply_edit, apply_entries, apply_list, Fault};
use crate::change::byte_len;
use crate::content::Content;
use crate::invert_change::{invert_edit, invert_entries, invert_steps, text_inverse, text_inverse_exists};
use crate::model::{apply_ops, expand, invert_units, lemma_invert_run, lemma_normal_run, normal_units};
use crate::keyed::keys_sorted;
use crate::keys::{key_lt, lemma_key_lt_asymmetric};
use crate::path::SegView;
use crate::structure::{
    list_fold, list_in, list_normalize, list_out, list_push, max_list_len, normal_step, step_in,
    step_out, trim_list_retains, EntryEdit, Edit, ListStep,
};
use vstd::prelude::*;

verus! {

/// Content whose every Text fits one allocation, whose every List fits one
/// allocation of Value handles, and whose every Map is finite: the content
/// any Value can hold.
pub open spec fn sized(c: Content) -> bool
    decreases c,
{
    match c {
        Content::Text(s) => byte_len(s) <= isize::MAX,
        Content::List(items) => items.len() <= max_list_len() && forall|i: int|
            0 <= i < items.len() ==> sized(#[trigger] items[i]),
        Content::KeyMap(m) => m.dom().finite() && forall|k: Seq<char>|
            m.dom().contains(k) ==> sized(#[trigger] m[k]),
        _ => true,
    }
}

/// The output List steps produce from `items` starting at `index`, and the
/// position they stop at; the rest of the base is not included.
pub open spec fn run_steps(steps: Seq<ListStep>, items: Seq<Content>, index: nat, p: Seq<SegView>) -> Result<
    (Seq<Content>, nat),
    Fault,
>
    decreases steps,
{
    if steps.len() == 0 {
        Ok((seq![], index))
    } else {
        let rest = steps.subrange(1, steps.len() as int);
        match steps[0] {
            ListStep::Retain(n) => if index + n <= items.len() {
                match run_steps(rest, items, index + n, p) {
                    Ok((o, j)) => Ok((items.subrange(index as int, (index + n) as int) + o, j)),
                    Err(f) => Err(f),
                }
            } else {
                Err(Fault::SequenceOutOfBounds(p))
            },
            ListStep::Insert(vs) => match run_steps(rest, items, index, p) {
                Ok((o, j)) => Ok((vs + o, j)),
                Err(f) => Err(f),
            },
            ListStep::Delete(n) => if index + n <= items.len() {
                run_steps(rest, items, index + n, p)
            } else {
                Err(Fault::SequenceOutOfBounds(p))
            },
            ListStep::Modify(c) => if index < items.len() {
                match apply_edit(c, items[index as int], p.push(SegView::Index(index))) {
                    Ok(v) => match run_steps(rest, items, index + 1, p) {
                        Ok((o, j)) => Ok((seq![v] + o, j)),
                        Err(f) => Err(f),
                    },
                    Err(f) => Err(f),
                }
            } else {
                Err(Fault::IndexOutOfBounds(p, index, items.len()))
            },
        }
    }
}

/// Applying List steps is running them and keeping the rest of the base.
pub proof fn lemma_apply_list_run(steps: Seq<ListStep>, items: Seq<Content>, index: nat, p: Seq<SegView>)
    requires
        index <= items.len(),
    ensures
        apply_list(steps, items, index, p) == match run_steps(steps, items, index, p) {
            Ok((o, j)) => Ok(o + items.subrange(j as int, items.len() as int)),
            Err(f) => Err(f),
        },
        run_steps(steps, items, index, p) is Ok ==> index <= run_steps(steps, items, index, p)->Ok_0.1
            <= items.len(),
    decreases steps.len(),
{
    if steps.len() == 0 {
        assert(Seq::<Content>::empty() + items.subrange(index as int, items.len() as int)
            =~= items.subrange(index as int, items.len() as int));
    } else {
        let rest = steps.subrange(1, steps.len() as int);
        match steps[0] {
            ListStep::Retain(n) => {
                if index + n <= items.len() {
                    lemma_apply_list_run(rest, items, index + n, p);
                    match run_steps(rest, items, index + n, p) {
                        Ok((o, j)) => {
                            assert(items.subrange(index as int, (index + n) as int) + (o
                                + items.subrange(j as int, items.len() as int))
                                =~= (items.subrange(index as int, (index + n) as int) + o)
                                + items.subrange(j as int, items.len() as int));
                        },
                        Err(_) => {},
                    }
                }
            },
            ListStep::Insert(vs) => {
                lemma_apply_list_run(rest, items, index, p);
                match run_steps(rest, items, index, p) {
                    Ok((o, j)) => {
                        assert(vs + (o + items.subrange(j as int, items.len() as int)) =~= (vs + o)
                            + items.subrange(j as int, items.len() as int));
                    },
                    Err(_) => {},
                }
            },
            ListStep::Delete(n) => {
                if index + n <= items.len() {
                    lemma_apply_list_run(rest, items, index + n, p);
                }
            },
            ListStep::Modify(c) => {
                if index < items.len() {
                    lemma_apply_list_run(rest, items, index + 1, p);
                    match apply_edit(c, items[index as int], p.push(SegView::Index(index))) {
                        Ok(v) => {
                            match run_steps(rest, items, index + 1, p) {
                                Ok((o, j)) => {
                                    assert(seq![v] + (o + items.subrange(j as int, items.len() as int))
                                        =~= (seq![v] + o) + items.subrange(j as int, items.len() as int));
                                },
                                Err(_) => {},
                            }
                        },
                        Err(_) => {},
                    }
                }
            },
        }
    }
}

/// The totals of a List stream split at its first step.
pub proof fn lemma_list_totals_head(s: Seq<ListStep>)
    requires
        s.len() > 0,
    ensures
        list_in(s) == step_in(s[0]) + list_in(s.subrange(1, s.len() as int)),
        list_out(s) == step_out(s[0]) + list_out(s.subrange(1, s.len() as int)),
    decreases s.len(),
{
    let rest = s.subrange(1, s.len() as int);
    if s.len() == 1 {
        assert(s.drop_last() =~= Seq::<ListStep>::empty());
        assert(rest =~= Seq::<ListStep>::empty());
    } else {
        let init = s.drop_last();
        lemma_list_totals_head(init);
        assert(init.subrange(1, init.len() as int) =~= rest.drop_last());
        assert(rest.last() == s.last());
        assert(init[0] == s[0]);
    }
}

/// A successful run consumes and produces the stream's totals.
pub proof fn lemma_run_lengths(steps: Seq<ListStep>, items: Seq<Content>, index: nat, p: Seq<SegView>)
    requires
        run_steps(steps, items, index, p) is Ok,
    ensures
        run_steps(steps, items, index, p)->Ok_0.1 == index + list_in(steps),
        run_steps(steps, items, index, p)->Ok_0.0.len() == list_out(steps),
    decreases steps.len(),
{
    if steps.len() > 0 {
        let rest = steps.subrange(1, steps.len() as int);
        lemma_list_totals_head(steps);
        match steps[0] {
            ListStep::Retain(n) => lemma_run_lengths(rest, items, index + n, p),
            ListStep::Insert(_) => lemma_run_lengths(rest, items, index, p),
            ListStep::Delete(n) => lemma_run_lengths(rest, items, index + n, p),
            ListStep::Modify(_) => lemma_run_lengths(rest, items, index + 1, p),
        }
    }
}

/// The result of running `b` after a result of running `a`.
pub open spec fn run_then(
    first: Result<(Seq<Content>, nat), Fault>,
    b: Seq<ListStep>,
    items: Seq<Content>,
    p: Seq<SegView>,
) -> Result<(Seq<Content>, nat), Fault> {
    match first {
        Ok((o1, j)) => match run_steps(b, items, j, p) {
            Ok((o2, k)) => Ok((o1 + o2, k)),
            Err(f) => Err(f),
        },
        Err(f) => Err(f),
    }
}

/// Running two streams one after the other is running their concatenation.
pub proof fn lemma_run_concat(
    a: Seq<ListStep>,
    b: Seq<ListStep>,
    items: Seq<Content>,
    index: nat,
    p: Seq<SegView>,
)
    ensures
        run_steps(a + b, items, index, p) == run_then(run_steps(a, items, index, p), b, items, p),
    decreases a.len(),
{
    if a.len() == 0 {
        assert(a + b =~= b);
        match run_steps(b, items, index, p) {
            Ok((o2, k)) => {
                assert(Seq::<Content>::empty() + o2 =~= o2);
            },
            Err(_) => {},
        }
    } else {
        let ra = a.subrange(1, a.len() as int);
        assert((a + b)[0] == a[0]);
        assert((a + b).subrange(1, (a + b).len() as int) =~= ra + b);
        let next: nat = match a[0] {
            ListStep::Retain(n) => index + n,
            ListStep::Insert(_) => index,
            ListStep::Delete(n) => index + n,
            ListStep::Modify(_) => index + 1,
        };
        lemma_run_concat(ra, b, items, next, p);
        match run_steps(ra, items, next, p) {
            Ok((o1, j)) => {
                match run_steps(b, items, j, p) {
                    Ok((o2, k)) => {
                        match a[0] {
                            ListStep::Retain(n) => {
                                assert(items.subrange(index as int, (index + n) as int) + (o1 + o2)
                                    =~= (items.subrange(index as int, (index + n) as int) + o1) + o2);
                            },
                            ListStep::Insert(vs) => {
                                assert(vs + (o1 + o2) =~= (vs + o1) + o2);
                            },
                            ListStep::Delete(_) => {},
                            ListStep::Modify(c) => {
                                if index < items.len() {
                                    match apply_edit(c, items[index as int], p.push(SegView::Index(index))) {
                                        Ok(v) => {
                                            assert(seq![v] + (o1 + o2) =~= (seq![v] + o1) + o2);
                                        },
                                        Err(_) => {},
                                    }
                                }
                            },
                        }
                    },
                    Err(_) => {},
                }
            },
            Err(_) => {},
        }
    }
}

proof fn lemma_run_single(s: ListStep, items: Seq<Content>, index: nat, p: Seq<SegView>)
    ensures
        run_steps(seq![s], items, index, p) == match s {
            ListStep::Retain(n) => if index + n <= items.len() {
                Ok((items.subrange(index as int, (index + n) as int), index + n))
            } else {
                Err(Fault::SequenceOutOfBounds(p))
            },
            ListStep::Insert(vs) => Ok((vs, index)),
            ListStep::Delete(n) => if index + n <= items.len() {
                Ok((Seq::<Content>::empty(), index + n))
            } else {
                Err(Fault::SequenceOutOfBounds(p))
            },
            ListStep::Modify(c) => if index < items.len() {
                match apply_edit(c, items[index as int], p.push(SegView::Index(index))) {
                    Ok(v) => Ok((seq![v], index + 1)),
                    Err(f) => Err(f),
                }
            } else {
                Err(Fault::IndexOutOfBounds(p, index, items.len()))
            },
        },
{
    let one = seq![s];
    let none = Seq::<ListStep>::empty();
    assert(one[0] == s);
    assert(one.subrange(1, 1) =~= none);
    assert(run_steps(none, items, index, p) == Ok::<(Seq<Content>, nat), Fault>((Seq::<Content>::empty(), index)));
    assert(run_steps(none, items, index + 1, p) == Ok::<(Seq<Content>, nat), Fault>((Seq::<Content>::empty(), index + 1)));
    match s {
        ListStep::Retain(n) => {
            assert(run_steps(none, items, index + n, p) == Ok::<(Seq<Content>, nat), Fault>((Seq::<Content>::empty(), index + n)));
            assert(items.subrange(index as int, (index + n) as int) + Seq::<Content>::empty()
                =~= items.subrange(index as int, (index + n) as int));
        },
        ListStep::Insert(vs) => {
            assert(vs + Seq::<Content>::empty() =~= vs);
        },
        ListStep::Delete(n) => {
            assert(run_steps(none, items, index + n, p) == Ok::<(Seq<Content>, nat), Fault>((Seq::<Content>::empty(), index + n)));
        },
        ListStep::Modify(c) => {
            if index < items.len() {
                match apply_edit(c, items[index as int], p.push(SegView::Index(index))) {
                    Ok(v) => {
                        assert(seq![v] + Seq::<Content>::empty() =~= seq![v]);
                    },
                    Err(_) => {},
                }
            }
        },
    }
}

proof fn lemma_run_pair(a: ListStep, b: ListStep, items: Seq<Content>, index: nat, p: Seq<SegView>)
    ensures
        run_steps(seq![a, b], items, index, p) == run_then(run_steps(seq![a], items, index, p), seq![b], items, p),
{
    assert(seq![a] + seq![b] =~= seq![a, b]);
    lemma_run_concat(seq![a], seq![b], items, index, p);
}

/// Merging, reordering or appending a step changes no run.
pub proof fn lemma_push_run(
    out: Seq<ListStep>,
    s: ListStep,
    items: Seq<Content>,
    index: nat,
    p: Seq<SegView>,
)
    requires
        list_push(out, s) is Some,
    ensures
        run_steps(list_push(out, s)->Some_0, items, index, p) == run_steps(out.push(s), items, index, p),
    decreases out.len(),
{
    if out.len() == 0 {
        assert(seq![s] =~= out.push(s));
    } else {
        let init = out.drop_last();
        let last = out.last();
        assert(out =~= init + seq![last]);
        assert(out.push(s) =~= init + seq![last, s]);
        lemma_run_concat(init, seq![last, s], items, index, p);
        if s is Insert && last is Delete {
            let o1 = list_push(init, s)->Some_0;
            lemma_push_run(init, s, items, index, p);
            assert(o1.push(last) =~= o1 + seq![last]);
            lemma_run_concat(o1, seq![last], items, index, p);
            assert(init.push(s) =~= init + seq![s]);
            lemma_run_concat(init, seq![s], items, index, p);
            match run_steps(init, items, index, p) {
                Ok((x, j)) => {
                    lemma_run_pair(last, s, items, j, p);
                    lemma_run_single(last, items, j, p);
                    lemma_run_single(s, items, j, p);
                    match run_steps(seq![s], items, j, p) {
                        Ok((y, k)) => {
                            lemma_run_single(last, items, k, p);
                            lemma_run_pair(s, last, items, j, p);
                            lemma_run_concat(init + seq![s], seq![last], items, index, p);
                            assert(init + seq![s] + seq![last] =~= init + seq![s, last]);
                            lemma_run_concat(init, seq![s, last], items, index, p);
                            match last {
                                ListStep::Delete(d) => {
                                    match s {
                                        ListStep::Insert(vs) => {
                                            if j + d <= items.len() {
                                                lemma_run_single(s, items, j + d, p);
                                                assert(Seq::<Content>::empty() + vs =~= vs);
                                                assert(vs + Seq::<Content>::empty() =~= vs);
                                                assert(x + vs =~= (x + vs) + Seq::<Content>::empty());
                                            }
                                        },
                                        _ => {},
                                    }
                                },
                                _ => {},
                            }
                        },
                        Err(_) => {},
                    }
                },
                Err(_) => {},
            }
        } else {
            match (last, s) {
                (ListStep::Retain(a), ListStep::Retain(b)) => {
                    let merged = ListStep::Retain(a + b);
                    assert(init.push(merged) =~= init + seq![merged]);
                    lemma_run_concat(init, seq![merged], items, index, p);
                    match run_steps(init, items, index, p) {
                        Ok((x, j)) => {
                            lemma_run_pair(last, s, items, j, p);
                            lemma_run_single(last, items, j, p);
                            lemma_run_single(merged, items, j, p);
                            if j + a <= items.len() {
                                lemma_run_single(s, items, j + a, p);
                            }
                            if j + a + b <= items.len() {
                                assert(items.subrange(j as int, (j + a) as int) + items.subrange(
                                    (j + a) as int,
                                    (j + a + b) as int,
                                ) =~= items.subrange(j as int, (j + a + b) as int));
                            }
                        },
                        Err(_) => {},
                    }
                },
                (ListStep::Delete(a), ListStep::Delete(b)) => {
                    let merged = ListStep::Delete(a + b);
                    assert(init.push(merged) =~= init + seq![merged]);
                    lemma_run_concat(init, seq![merged], items, index, p);
                    match run_steps(init, items, index, p) {
                        Ok((x, j)) => {
                            lemma_run_pair(last, s, items, j, p);
                            lemma_run_single(last, items, j, p);
                            lemma_run_single(merged, items, j, p);
                            if j + a <= items.len() {
                                lemma_run_single(s, items, j + a, p);
                                assert(Seq::<Content>::empty() + Seq::<Content>::empty() =~= Seq::<Content>::empty());
                            }
                        },
                        Err(_) => {},
                    }
                },
                (ListStep::Insert(a), ListStep::Insert(b)) => {
                    let merged = ListStep::Insert(a + b);
                    assert(init.push(merged) =~= init + seq![merged]);
                    lemma_run_concat(init, seq![merged], items, index, p);
                    match run_steps(init, items, index, p) {
                        Ok((x, j)) => {
                            lemma_run_pair(last, s, items, j, p);
                            lemma_run_single(last, items, j, p);
                            lemma_run_single(merged, items, j, p);
                            lemma_run_single(s, items, j, p);
                        },
                        Err(_) => {},
                    }
                },
                _ => {
                    assert(list_push(out, s) == Some(out.push(s)));
                },
            }
        }
    }
}

/// Merging a stream left to right keeps every successful run.
pub proof fn lemma_fold_run(steps: Seq<ListStep>, items: Seq<Content>, index: nat, p: Seq<SegView>)
    requires
        list_fold(steps) is Some,
        run_steps(steps, items, index, p) is Ok,
        index <= items.len(),
    ensures
        run_steps(list_fold(steps)->Some_0, items, index, p) == run_steps(steps, items, index, p),
    decreases steps.len(),
{
    if steps.len() == 0 {
    } else {
        let init = steps.drop_last();
        let last = steps.last();
        assert(steps =~= init + seq![last]);
        lemma_run_concat(init, seq![last], items, index, p);
        let o_init = list_fold(init)->Some_0;
        assert(run_steps(init, items, index, p) is Ok);
        lemma_fold_run(init, items, index, p);
        lemma_apply_list_run(init, items, index, p);
        let (x, j) = run_steps(init, items, index, p)->Ok_0;
        lemma_run_single(last, items, j, p);
        match normal_step(last) {
            None => {
                assert(list_fold(steps) == Some(o_init));
                match last {
                    ListStep::Retain(n) => {
                        assert(items.subrange(j as int, j as int) =~= Seq::<Content>::empty());
                    },
                    _ => {},
                }
                assert(x + Seq::<Content>::empty() =~= x);
            },
            Some(ns) => {
                lemma_push_run(o_init, ns, items, index, p);
                assert(o_init.push(ns) =~= o_init + seq![ns]);
                lemma_run_concat(o_init, seq![ns], items, index, p);
                lemma_run_single(ns, items, j, p);
                match last {
                    ListStep::Modify(c) => {
                        if c is Noop {
                            if j < items.len() {
                                assert(items.subrange(j as int, (j + 1) as int) =~= seq![items[j as int]]);
                            }
                        }
                    },
                    _ => {},
                }
            },
        }
    }
}

/// Dropping trailing retains keeps every successful application.
pub proof fn lemma_trim_apply(o: Seq<ListStep>, items: Seq<Content>, index: nat, p: Seq<SegView>)
    requires
        run_steps(o, items, index, p) is Ok,
        index <= items.len(),
    ensures
        apply_list(trim_list_retains(o), items, index, p) == apply_list(o, items, index, p),
    decreases o.len(),
{
    if o.len() > 0 && o.last() is Retain {
        let t = o.drop_last();
        let n = o.last()->Retain_0;
        assert(o =~= t + seq![o.last()]);
        lemma_run_concat(t, seq![o.last()], items, index, p);
        assert(run_steps(t, items, index, p) is Ok);
        lemma_apply_list_run(t, items, index, p);
        lemma_apply_list_run(o, items, index, p);
        let (x, j) = run_steps(t, items, index, p)->Ok_0;
        lemma_run_single(o.last(), items, j, p);
        assert(x + items.subrange(j as int, (j + n) as int) + items.subrange(
            (j + n) as int,
            items.len() as int,
        ) =~= x + items.subrange(j as int, items.len() as int));
        lemma_trim_apply(t, items, index, p);
    }
}

/// A normalized stream applies like the stream it came from wherever that
/// stream runs.
pub proof fn lemma_normalize_apply(raw: Seq<ListStep>, items: Seq<Content>, index: nat, p: Seq<SegView>)
    requires
        list_normalize(raw) is Some,
        run_steps(raw, items, index, p) is Ok,
        index <= items.len(),
    ensures
        apply_list(list_normalize(raw)->Some_0, items, index, p) == apply_list(raw, items, index, p),
{
    let folded = list_fold(raw)->Some_0;
    lemma_fold_run(raw, items, index, p);
    lemma_trim_apply(folded, items, index, p);
    lemma_apply_list_run(folded, items, index, p);
    lemma_apply_list_run(raw, items, index, p);
}

/// Every Map Change in `e` has its keys in strictly increasing order and
/// every List Change in it has no empty step, as every Change the library
/// builds does.
pub open spec fn formed(e: Edit) -> bool
    decreases e,
{
    match e {
        Edit::KeyMap(es) => keys_sorted(es) && forall|i: int|
            0 <= i < es.len() ==> (#[trigger] es[i]).1 is Modify ==> formed(es[i].1->Modify_0),
        Edit::List(steps) => crate::structure::steps_nonempty(steps) && forall|i: int|
            0 <= i < steps.len() ==> #[trigger] steps[i] is Modify ==> formed(steps[i]->Modify_0),
        _ => true,
    }
}

/// `m` and `n` agree at `k`.
pub open spec fn agree_at(m: Map<Seq<char>, Content>, n: Map<Seq<char>, Content>, k: Seq<char>) -> bool {
    &&& m.contains_key(k) == n.contains_key(k)
    &&& m.contains_key(k) ==> m[k] == n[k]
}

/// Some entry change has key `k`.
pub open spec fn has_key(es: Seq<(Seq<char>, EntryEdit)>, k: Seq<char>) -> bool {
    exists|i: int| 0 <= i < es.len() && #[trigger] es[i].0 == k
}

/// The entry change `e` at key `k` turns the Map `m` into `n` at that key.
pub open spec fn entry_step(
    e: EntryEdit,
    k: Seq<char>,
    m: Map<Seq<char>, Content>,
    n: Map<Seq<char>, Content>,
    p: Seq<SegView>,
) -> bool {
    match e {
        EntryEdit::Insert(v) => !m.contains_key(k) && n.contains_key(k) && n[k] == v,
        EntryEdit::Delete => m.contains_key(k) && !n.contains_key(k),
        EntryEdit::Modify(c) => m.contains_key(k) && n.contains_key(k) && apply_edit(
            c,
            m[k],
            p.push(SegView::Key(k)),
        ) == Ok::<Content, Fault>(n[k]),
    }
}

/// Entry changes turn `m` into `n` key by key, leaving other keys alone.
pub open spec fn entries_relate(
    es: Seq<(Seq<char>, EntryEdit)>,
    m: Map<Seq<char>, Content>,
    n: Map<Seq<char>, Content>,
    p: Seq<SegView>,
) -> bool {
    &&& forall|i: int| 0 <= i < es.len() ==> entry_step(#[trigger] es[i].1, es[i].0, m, n, p)
    &&& forall|k: Seq<char>| !has_key(es, k) ==> #[trigger] agree_at(m, n, k)
}

proof fn lemma_sorted_rest(es: Seq<(Seq<char>, EntryEdit)>)
    requires
        keys_sorted(es),
        es.len() > 0,
    ensures
        keys_sorted(es.subrange(1, es.len() as int)),
        forall|i: int| 1 <= i < es.len() ==> #[trigger] es[i].0 != es[0].0,
{
    let rest = es.subrange(1, es.len() as int);
    assert forall|a: int, b: int| 0 <= a < b < rest.len() implies key_lt(
        #[trigger] rest[a].0,
        #[trigger] rest[b].0,
    ) by {
        assert(rest[a] == es[a + 1] && rest[b] == es[b + 1]);
    }
    assert forall|i: int| 1 <= i < es.len() implies #[trigger] es[i].0 != es[0].0 by {
        assert(key_lt(es[0].0, es[i].0));
        lemma_key_lt_asymmetric(es[i].0, es[i].0);
    }
}

/// The Map one entry change leaves behind.
pub open spec fn entry_apply(e: EntryEdit, k: Seq<char>, m: Map<Seq<char>, Content>, p: Seq<SegView>) -> Map<
    Seq<char>,
    Content,
> {
    match e {
        EntryEdit::Insert(v) => m.insert(k, v),
        EntryEdit::Delete => m.remove(k),
        EntryEdit::Modify(c) => m.insert(k, apply_edit(c, m[k], p.push(SegView::Key(k)))->Ok_0),
    }
}

/// Entry changes with distinct keys that relate `m` to `n` apply to give `n`.
pub proof fn lemma_relate_apply(
    es: Seq<(Seq<char>, EntryEdit)>,
    m: Map<Seq<char>, Content>,
    n: Map<Seq<char>, Content>,
    p: Seq<SegView>,
)
    requires
        keys_sorted(es),
        entries_relate(es, m, n, p),
    ensures
        apply_entries(es, m, p) == Ok::<Map<Seq<char>, Content>, Fault>(n),
    decreases es.len(),
{
    if es.len() == 0 {
        assert forall|k: Seq<char>| #[trigger] m.contains_key(k) == n.contains_key(k) by {
            assert(agree_at(m, n, k));
        }
        assert forall|k: Seq<char>| m.contains_key(k) implies #[trigger] m[k] == n[k] by {
            assert(agree_at(m, n, k));
        }
        assert(m =~= n);
    } else {
        let k0 = es[0].0;
        let rest = es.subrange(1, es.len() as int);
        lemma_sorted_rest(es);
        assert(entry_step(es[0].1, k0, m, n, p));
        let m1 = entry_apply(es[0].1, k0, m, p);
        assert forall|i: int| 0 <= i < rest.len() implies entry_step(
            #[trigger] rest[i].1,
            rest[i].0,
            m1,
            n,
            p,
        ) by {
            assert(rest[i] == es[i + 1]);
            assert(entry_step(es[i + 1].1, es[i + 1].0, m, n, p));
            assert(es[i + 1].0 != k0);
        }
        assert forall|k: Seq<char>| !has_key(rest, k) implies #[trigger] agree_at(m1, n, k) by {
            if k != k0 {
                if has_key(es, k) {
                    let i = choose|i: int| 0 <= i < es.len() && #[trigger] es[i].0 == k;
                    assert(rest[i - 1] == es[i]);
                }
                assert(agree_at(m, n, k));
            }
        }
        lemma_relate_apply(rest, m1, n, p);
    }
}

/// Entry changes with distinct keys that apply to give `n` relate `m` to `n`.
pub proof fn lemma_apply_relate(
    es: Seq<(Seq<char>, EntryEdit)>,
    m: Map<Seq<char>, Content>,
    n: Map<Seq<char>, Content>,
    p: Seq<SegView>,
)
    requires
        keys_sorted(es),
        apply_entries(es, m, p) == Ok::<Map<Seq<char>, Content>, Fault>(n),
    ensures
        entries_relate(es, m, n, p),
    decreases es.len(),
{
    if es.len() == 0 {
        assert forall|k: Seq<char>| !has_key(es, k) implies #[trigger] agree_at(m, n, k) by {}
    } else {
        let k0 = es[0].0;
        let rest = es.subrange(1, es.len() as int);
        lemma_sorted_rest(es);
        let m1 = entry_apply(es[0].1, k0, m, p);
        assert(apply_entries(rest, m1, p) == Ok::<Map<Seq<char>, Content>, Fault>(n));
        lemma_apply_relate(rest, m1, n, p);
        assert(!has_key(rest, k0)) by {
            if has_key(rest, k0) {
                let i = choose|i: int| 0 <= i < rest.len() && #[trigger] rest[i].0 == k0;
                assert(rest[i] == es[i + 1]);
            }
        }
        assert(agree_at(m1, n, k0));
        assert forall|i: int| 0 <= i < es.len() implies entry_step(#[trigger] es[i].1, es[i].0, m, n, p) by {
            if i > 0 {
                assert(rest[i - 1] == es[i]);
                assert(entry_step(rest[i - 1].1, rest[i - 1].0, m1, n, p));
                assert(es[i].0 != k0);
            }
        }
        assert forall|k: Seq<char>| !has_key(es, k) implies #[trigger] agree_at(m, n, k) by {
            assert(es[0].0 == k0);
            if k != k0 {
                if has_key(rest, k) {
                    let i = choose|i: int| 0 <= i < rest.len() && #[trigger] rest[i].0 == k;
                    assert(rest[i] == es[i + 1]);
                }
                assert(agree_at(m1, n, k));
            }
        }
    }
}

/// The inverse of one entry change, given the value at its key before it.
pub open spec fn inverse_entry(e: EntryEdit, before: Content) -> EntryEdit {
    match e {
        EntryEdit::Insert(_) => EntryEdit::Delete,
        EntryEdit::Delete => EntryEdit::Insert(before),
        EntryEdit::Modify(c) => EntryEdit::Modify(invert_edit(c, before)->Some_0),
    }
}

/// Inverse entry changes keep the keys and invert each entry.
pub proof fn lemma_invert_entries_shape(es: Seq<(Seq<char>, EntryEdit)>, m: Map<Seq<char>, Content>)
    requires
        invert_entries(es, m) is Some,
    ensures
        invert_entries(es, m)->Some_0.len() == es.len(),
        forall|i: int|
            0 <= i < es.len() ==> #[trigger] invert_entries(es, m)->Some_0[i] == (
                es[i].0,
                inverse_entry(es[i].1, m[es[i].0]),
            ),
        forall|i: int|
            0 <= i < es.len() ==> (#[trigger] es[i]).1 is Modify ==> invert_edit(
                es[i].1->Modify_0,
                m[es[i].0],
            ) is Some,
    decreases es.len(),
{
    if es.len() > 0 {
        let rest = es.subrange(1, es.len() as int);
        lemma_invert_entries_shape(rest, m);
        let inv = invert_entries(es, m)->Some_0;
        let t = invert_entries(rest, m)->Some_0;
        assert forall|i: int| 0 <= i < es.len() implies #[trigger] inv[i] == (
            es[i].0,
            inverse_entry(es[i].1, m[es[i].0]),
        ) by {
            if i > 0 {
                assert(inv[i] == t[i - 1]);
                assert(rest[i - 1] == es[i]);
            }
        }
        assert forall|i: int| 0 <= i < es.len() implies (#[trigger] es[i]).1 is Modify ==> invert_edit(
            es[i].1->Modify_0,
            m[es[i].0],
        ) is Some by {
            if i > 0 {
                assert(rest[i - 1] == es[i]);
            }
        }
    }
}

/// Raw inverse steps, run over a List that holds what the steps produced,
/// give back what the steps consumed.
#[verifier::rlimit(80)]
proof fn lemma_invert_steps_run(
    steps: Seq<ListStep>,
    b: Seq<Content>,
    i: nat,
    p: Seq<SegView>,
    a: Seq<Content>,
    qi: nat,
    q: Seq<SegView>,
)
    requires
        run_steps(steps, b, i, p) is Ok,
        invert_steps(steps, b, i) is Some,
        forall|k: int| 0 <= k < steps.len() ==> #[trigger] steps[k] is Modify ==> formed(steps[k]->Modify_0),
        forall|k: int| 0 <= k < b.len() ==> sized(#[trigger] b[k]),
        i <= b.len(),
        qi + run_steps(steps, b, i, p)->Ok_0.0.len() <= a.len(),
        a.subrange(qi as int, (qi + run_steps(steps, b, i, p)->Ok_0.0.len()) as int) == run_steps(steps, b, i, p)->Ok_0.0,
    ensures
        run_steps(invert_steps(steps, b, i)->Some_0, a, qi, q) == Ok::<(Seq<Content>, nat), Fault>((
            b.subrange(i as int, run_steps(steps, b, i, p)->Ok_0.1 as int),
            qi + run_steps(steps, b, i, p)->Ok_0.0.len(),
        )),
    decreases steps,
{
    let (o, j) = run_steps(steps, b, i, p)->Ok_0;
    lemma_apply_list_run(steps, b, i, p);
    if steps.len() == 0 {
        assert(b.subrange(i as int, i as int) =~= Seq::<Content>::empty());
    } else {
        let rest = steps.subrange(1, steps.len() as int);
        let inv = invert_steps(steps, b, i)->Some_0;
        assert forall|k: int| 0 <= k < rest.len() implies #[trigger] rest[k] is Modify ==> formed(
            rest[k]->Modify_0,
        ) by {
            assert(rest[k] == steps[k + 1]);
        }
        match steps[0] {
            ListStep::Retain(n) => {
                let (o1, j1) = run_steps(rest, b, i + n, p)->Ok_0;
                assert(o == b.subrange(i as int, (i + n) as int) + o1);
                assert(a.subrange((qi + n) as int, (qi + n + o1.len()) as int) =~= o1) by {
                    assert forall|k: int| 0 <= k < o1.len() implies a.subrange((qi + n) as int, (qi + n + o1.len()) as int)[k] == o1[k] by {
                        assert(a.subrange(qi as int, (qi + o.len()) as int)[n + k] == o[n + k]);
                    }
                }
                lemma_apply_list_run(rest, b, i + n, p);
                lemma_invert_steps_run(rest, b, i + n, p, a, qi + n, q);
                let t = invert_steps(rest, b, i + n)->Some_0;
                assert(inv == seq![ListStep::Retain(n)] + t);
                lemma_run_concat(seq![ListStep::Retain(n)], t, a, qi, q);
                lemma_run_single(ListStep::Retain(n), a, qi, q);
                assert(a.subrange(qi as int, (qi + n) as int) =~= b.subrange(i as int, (i + n) as int)) by {
                    assert forall|k: int| 0 <= k < n implies #[trigger] a.subrange(qi as int, (qi + n) as int)[k] == b.subrange(i as int, (i + n) as int)[k] by {
                        assert(a.subrange(qi as int, (qi + o.len()) as int)[k] == o[k]);
                    }
                }
                lemma_run_lengths(rest, b, i + n, p);
                assert(b.subrange(i as int, (i + n) as int) + b.subrange((i + n) as int, j1 as int) =~= b.subrange(
                    i as int,
                    j1 as int,
                ));
            },
            ListStep::Insert(vs) => {
                let (o1, j1) = run_steps(rest, b, i, p)->Ok_0;
                assert(o == vs + o1);
                assert(a.subrange((qi + vs.len()) as int, (qi + vs.len() + o1.len()) as int) =~= o1) by {
                    assert forall|k: int| 0 <= k < o1.len() implies a.subrange((qi + vs.len()) as int, (qi + vs.len() + o1.len()) as int)[k] == o1[k] by {
                        assert(a.subrange(qi as int, (qi + o.len()) as int)[vs.len() + k] == o[vs.len() + k]);
                    }
                }
                lemma_invert_steps_run(rest, b, i, p, a, qi + vs.len(), q);
                let t = invert_steps(rest, b, i)->Some_0;
                assert(inv == seq![ListStep::Delete(vs.len())] + t);
                lemma_run_concat(seq![ListStep::Delete(vs.len())], t, a, qi, q);
                lemma_run_single(ListStep::Delete(vs.len()), a, qi, q);
                assert(Seq::<Content>::empty() + b.subrange(i as int, j1 as int) =~= b.subrange(i as int, j1 as int));
            },
            ListStep::Delete(n) => {
                let (o1, j1) = run_steps(rest, b, i + n, p)->Ok_0;
                lemma_apply_list_run(rest, b, i + n, p);
                lemma_invert_steps_run(rest, b, i + n, p, a, qi, q);
                let t = invert_steps(rest, b, i + n)->Some_0;
                let ins = ListStep::Insert(b.subrange(i as int, (i + n) as int));
                assert(inv == seq![ins] + t);
                lemma_run_concat(seq![ins], t, a, qi, q);
                lemma_run_single(ins, a, qi, q);
                lemma_run_lengths(rest, b, i + n, p);
                assert(b.subrange(i as int, (i + n) as int) + b.subrange((i + n) as int, j1 as int) =~= b.subrange(
                    i as int,
                    j1 as int,
                ));
            },
            ListStep::Modify(c) => {
                let v = apply_edit(c, b[i as int], p.push(SegView::Index(i)))->Ok_0;
                let (o1, j1) = run_steps(rest, b, i + 1, p)->Ok_0;
                assert(o == seq![v] + o1);
                assert(formed(c)) by {
                    assert(steps[0] is Modify);
                }
                let ic = invert_edit(c, b[i as int])->Some_0;
                assert(a[qi as int] == v) by {
                    assert(a.subrange(qi as int, (qi + o.len()) as int)[0] == o[0]);
                }
                law_invert_restores_base(c, b[i as int], v, p.push(SegView::Index(i)), q.push(SegView::Index(qi)));
                assert(a.subrange((qi + 1) as int, (qi + 1 + o1.len()) as int) =~= o1) by {
                    assert forall|k: int| 0 <= k < o1.len() implies a.subrange((qi + 1) as int, (qi + 1 + o1.len()) as int)[k] == o1[k] by {
                        assert(a.subrange(qi as int, (qi + o.len()) as int)[1 + k] == o[1 + k]);
                    }
                }
                lemma_apply_list_run(rest, b, i + 1, p);
                lemma_invert_steps_run(rest, b, i + 1, p, a, qi + 1, q);
                let t = invert_steps(rest, b, i + 1)->Some_0;
                assert(inv == seq![ListStep::Modify(ic)] + t);
                lemma_run_concat(seq![ListStep::Modify(ic)], t, a, qi, q);
                lemma_run_single(ListStep::Modify(ic), a, qi, q);
                lemma_run_lengths(rest, b, i + 1, p);
                assert(seq![b[i as int]] + b.subrange((i + 1) as int, j1 as int) =~= b.subrange(i as int, j1 as int));
            },
        }
    }
}

/// Applying the inverse of a Change to the Change's result restores the
/// Snapshot the Change was applied to, at any location.
///
/// `formed` holds of every Change value (`Change::kind` states it) and
/// `sized` of the content of every Value that fits in memory.
pub proof fn law_invert_restores_base(
    e: Edit,
    base: Content,
    after: Content,
    p: Seq<SegView>,
    q: Seq<SegView>,
)
    requires
        formed(e),
        sized(base),
        apply_edit(e, base, p) == Ok::<Content, Fault>(after),
        invert_edit(e, base) is Some,
    ensures
        apply_edit(invert_edit(e, base)->Some_0, after, q) == Ok::<Content, Fault>(base),
    decreases e,
{
    match e {
        Edit::Noop => {},
        Edit::Replace(_) => {},
        Edit::Int(d) => {},
        Edit::Text(ops) => {
            let s = base->Text_0;
            let t = after->Text_0;
            let x = expand(ops);
            let v = text_inverse(ops, s);
            assert(text_inverse_exists(ops, s));
            lemma_invert_run(x, s);
            lemma_normal_run(invert_units(x, s), t);
            assert(expand(v) == normal_units(invert_units(x, s)));
            assert(apply_ops(v, t) == Some(s));
            if v.len() == 0 {
                assert(expand(v) =~= Seq::<crate::model::Unit<char>>::empty());
            }
        },
        Edit::KeyMap(es) => {
            let m = base->KeyMap_0;
            let m2 = after->KeyMap_0;
            assert(apply_entries(es, m, p) == Ok::<Map<Seq<char>, Content>, Fault>(m2));
            lemma_apply_relate(es, m, m2, p);
            let inv = invert_entries(es, m)->Some_0;
            lemma_invert_entries_shape(es, m);
            assert forall|a: int, b: int| 0 <= a < b < inv.len() implies key_lt(
                #[trigger] inv[a].0,
                #[trigger] inv[b].0,
            ) by {
                assert(inv[a].0 == es[a].0 && inv[b].0 == es[b].0);
            }
            assert forall|i: int| 0 <= i < inv.len() implies entry_step(#[trigger] inv[i].1, inv[i].0, m2, m, q) by {
                assert(inv[i] == (es[i].0, inverse_entry(es[i].1, m[es[i].0])));
                assert(entry_step(es[i].1, es[i].0, m, m2, p));
                let k = es[i].0;
                match es[i].1 {
                    EntryEdit::Modify(c) => {
                        assert(formed(c));
                        assert(sized(m[k]));
                        law_invert_restores_base(c, m[k], m2[k], p.push(SegView::Key(k)), q.push(SegView::Key(k)));
                    },
                    _ => {},
                }
            }
            assert forall|k: Seq<char>| !has_key(inv, k) implies #[trigger] agree_at(m2, m, k) by {
                if has_key(es, k) {
                    let i = choose|i: int| 0 <= i < es.len() && #[trigger] es[i].0 == k;
                    assert(inv[i].0 == k);
                }
                assert(agree_at(m, m2, k));
            }
            lemma_relate_apply(inv, m2, m, q);
            if inv.len() == 0 {
                assert(es.len() == 0);
                assert(m2 == m);
            }
        },
        Edit::List(steps) => {
            let b = base->List_0;
            let a = after->List_0;
            lemma_apply_list_run(steps, b, 0, p);
            assert(apply_list(steps, b, 0, p) == Ok::<Seq<Content>, Fault>(a));
            let (o, j) = run_steps(steps, b, 0, p)->Ok_0;
            assert(a == o + b.subrange(j as int, b.len() as int));
            let raw = invert_steps(steps, b, 0)->Some_0;
            assert(a.subrange(0, o.len() as int) =~= o);
            lemma_invert_steps_run(steps, b, 0, p, a, 0, q);
            lemma_apply_list_run(raw, a, 0, q);
            assert(a.subrange(o.len() as int, a.len() as int) =~= b.subrange(j as int, b.len() as int));
            assert(b.subrange(0, j as int) + b.subrange(j as int, b.len() as int) =~= b);
            assert(apply_list(raw, a, 0, q) == Ok::<Seq<Content>, Fault>(b));
            let n = list_normalize(raw)->Some_0;
            lemma_normalize_apply(raw, a, 0, q);
            lemma_apply_list_run(n, a, 0, q);
            let (o2, j2) = run_steps(n, a, 0, q)->Ok_0;
            lemma_run_lengths(n, a, 0, q);
            assert(o2 + a.subrange(j2 as int, a.len() as int) == b);
            if n.len() == 0 {
                assert(a.subrange(0, a.len() as int) =~= a);
            }
        },
    }
}

/// Every modification among List steps is formed.
pub open spec fn modifies_formed(s: Seq<ListStep>) -> bool {
    forall|i: int| 0 <= i < s.len() ==> #[trigger] s[i] is Modify ==> formed(s[i]->Modify_0)
}

/// Every modification among Map entry changes is formed.
pub open spec fn entries_formed(es: Seq<(Seq<char>, EntryEdit)>) -> bool {
    forall|i: int| 0 <= i < es.len() ==> (#[trigger] es[i]).1 is Modify ==> formed(es[i].1->Modify_0)
}

/// Merging or reordering a step keeps modifications formed.
pub proof fn lemma_push_formed(out: Seq<ListStep>, s: ListStep)
    requires
        modifies_formed(out),
        s is Modify ==> formed(s->Modify_0),
        list_push(out, s) is Some,
    ensures
        modifies_formed(list_push(out, s)->Some_0),
    decreases out.len(),
{
    let r = list_push(out, s)->Some_0;
    if out.len() > 0 {
        let init = out.drop_last();
        assert forall|i: int| 0 <= i < init.len() implies #[trigger] init[i] is Modify ==> formed(
            init[i]->Modify_0,
        ) by {
            assert(init[i] == out[i]);
        }
        if s is Insert && out.last() is Delete {
            lemma_push_formed(init, s);
            let o1 = list_push(init, s)->Some_0;
            assert forall|i: int| 0 <= i < r.len() implies #[trigger] r[i] is Modify ==> formed(
                r[i]->Modify_0,
            ) by {
                if i < o1.len() {
                    assert(r[i] == o1[i]);
                }
            }
        } else {
            assert forall|i: int| 0 <= i < r.len() implies #[trigger] r[i] is Modify ==> formed(
                r[i]->Modify_0,
            ) by {
                if i < out.len() - 1 {
                    assert(r[i] == out[i]);
                } else if i == out.len() - 1 && r.len() == out.len() + 1 {
                    assert(r[i] == out[i]);
                }
            }
        }
    }
}

/// Dropping trailing retains keeps modifications formed.
pub proof fn lemma_trim_formed(s: Seq<ListStep>)
    requires
        modifies_formed(s),
    ensures
        modifies_formed(trim_list_retains(s)),
    decreases s.len(),
{
    if s.len() > 0 && s.last() is Retain {
        let init = s.drop_last();
        assert forall|i: int| 0 <= i < init.len() implies #[trigger] init[i] is Modify ==> formed(
            init[i]->Modify_0,
        ) by {
            assert(init[i] == s[i]);
        }
        lemma_trim_formed(init);
    }
}

} // verus!
