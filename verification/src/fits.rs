//! When a built operation stream normalizes without overflow.
//!
//! Normalization merges neighbouring operations; a merged run can only
//! overflow when the whole stream's input length, output length or inserted
//! bytes do. These facts give the conditions under which the algebra owes a
//! result.
use crate::apply::{insert_bytes, lemma_consumed_expand};
use crate::change::{byte_len, fold_view, in_len, lemma_encode_utf8_concat, lengths_fit, normalize_view, op_units, out_len, push_view, trim_retains};
use crate::model::{consumed, drops, expand, invert_units, keeps, lemma_consumed_concat, lemma_expand_push, lemma_puts_concat, op_steps, produced, puts, OpView, Unit};
use vstd::prelude::*;
use vstd::utf8::encode_utf8;

verus! {

/// UTF-8 bytes of the scalars a step stream puts.
pub open spec fn put_bytes(x: Seq<Unit<char>>) -> nat
    decreases x.len(),
{
    if x.len() == 0 {
        0
    } else {
        put_bytes(x.drop_first()) + match x[0] {
            Unit::Put(c) => byte_len(seq![c]),
            _ => 0nat,
        }
    }
}

/// A step stream's consumed and produced lengths fit in `usize` and its
/// inserted text fits in one allocation.
pub open spec fn steps_fit(x: Seq<Unit<char>>) -> bool {
    consumed(x) <= usize::MAX && produced(x) <= usize::MAX && put_bytes(x) <= isize::MAX
}

proof fn lemma_measures_concat(x: Seq<Unit<char>>, y: Seq<Unit<char>>)
    ensures
        consumed(x + y) == consumed(x) + consumed(y),
        produced(x + y) == produced(x) + produced(y),
        put_bytes(x + y) == put_bytes(x) + put_bytes(y),
    decreases x.len(),
{
    lemma_consumed_concat(x, y);
    if x.len() == 0 {
        assert(x + y =~= y);
    } else {
        assert((x + y).drop_first() =~= x.drop_first() + y);
        lemma_measures_concat(x.drop_first(), y);
    }
}

proof fn lemma_measures_keeps(n: nat)
    ensures
        produced(keeps(n)) == n,
        put_bytes(keeps(n)) == 0,
        produced(drops(n)) == 0,
        put_bytes(drops(n)) == 0,
    decreases n,
{
    if n > 0 {
        assert(keeps(n).drop_first() =~= keeps((n - 1) as nat));
        assert(drops(n).drop_first() =~= drops((n - 1) as nat));
        lemma_measures_keeps((n - 1) as nat);
    }
}

proof fn lemma_measures_puts(s: Seq<char>)
    ensures
        produced(puts(s)) == s.len(),
        put_bytes(puts(s)) == byte_len(s),
    decreases s.len(),
{
    if s.len() == 0 {
        assert(puts(s) =~= Seq::<Unit<char>>::empty());
        assert(encode_utf8(s) =~= Seq::<u8>::empty());
    } else {
        let rest = s.drop_first();
        lemma_puts_concat(seq![s[0]], rest);
        assert(seq![s[0]] + rest =~= s);
        assert(seq![s[0]].drop_last() =~= Seq::<char>::empty());
        assert(puts(Seq::<char>::empty()) =~= Seq::<Unit<char>>::empty());
        assert(puts(seq![s[0]]) =~= seq![Unit::Put(s[0])]);
        assert(puts(s).drop_first() =~= puts(rest));
        lemma_measures_puts(rest);
        lemma_encode_utf8_concat(seq![s[0]], rest);
    }
}

/// The unit measures of a stream are its chunked lengths.
pub proof fn lemma_expand_measures(ops: Seq<OpView>)
    ensures
        consumed(expand(ops)) == in_len(ops),
        produced(expand(ops)) == out_len(ops),
        put_bytes(expand(ops)) == insert_bytes(ops),
    decreases ops.len(),
{
    lemma_consumed_expand(ops);
    if ops.len() > 0 {
        let p = ops.drop_last();
        lemma_expand_measures(p);
        lemma_expand_push(p, ops.last());
        assert(p.push(ops.last()) =~= ops);
        lemma_measures_concat(expand(p), op_steps(ops.last()));
        match ops.last() {
            OpView::Retain(n) => lemma_measures_keeps(n),
            OpView::Delete(n) => lemma_measures_keeps(n),
            OpView::Insert(s) => lemma_measures_puts(s),
        }
    }
}

/// The lengths one operation adds to a stream's running totals.
pub open spec fn op_in(op: OpView) -> nat {
    match op {
        OpView::Insert(_) => 0nat,
        _ => op_units(op),
    }
}

pub open spec fn op_out(op: OpView) -> nat {
    match op {
        OpView::Delete(_) => 0nat,
        _ => op_units(op),
    }
}

pub open spec fn op_bytes(op: OpView) -> nat {
    match op {
        OpView::Insert(s) => byte_len(s),
        _ => 0nat,
    }
}

proof fn lemma_totals_push(s: Seq<OpView>, op: OpView)
    ensures
        in_len(s.push(op)) == in_len(s) + op_in(op),
        out_len(s.push(op)) == out_len(s) + op_out(op),
        insert_bytes(s.push(op)) == insert_bytes(s) + op_bytes(op),
{
    assert(s.push(op).drop_last() =~= s);
}

proof fn lemma_totals_last(s: Seq<OpView>)
    requires
        s.len() > 0,
    ensures
        in_len(s) == in_len(s.drop_last()) + op_in(s.last()),
        out_len(s) == out_len(s.drop_last()) + op_out(s.last()),
        insert_bytes(s) == insert_bytes(s.drop_last()) + op_bytes(s.last()),
{
}

/// Appending an operation merges without overflow when the totals fit.
proof fn lemma_push_totals(o: Seq<OpView>, op: OpView)
    requires
        in_len(o) + op_in(op) <= usize::MAX,
        out_len(o) + op_out(op) <= usize::MAX,
        insert_bytes(o) + op_bytes(op) <= isize::MAX,
    ensures
        push_view(o, op) is Some,
        in_len(push_view(o, op)->Some_0) == in_len(o) + op_in(op),
        out_len(push_view(o, op)->Some_0) == out_len(o) + op_out(op),
        insert_bytes(push_view(o, op)->Some_0) == insert_bytes(o) + op_bytes(op),
    decreases o.len(),
{
    if o.len() == 0 {
        assert(seq![op] =~= o.push(op));
        lemma_totals_push(o, op);
    } else {
        let o1 = o.drop_last();
        let last = o.last();
        lemma_totals_last(o);
        if op is Insert && last is Delete {
            lemma_push_totals(o1, op);
            let q = push_view(o1, op)->Some_0;
            lemma_totals_push(q, last);
        } else {
            match (last, op) {
                (OpView::Retain(a), OpView::Retain(b)) => {
                    lemma_totals_push(o1, OpView::Retain(a + b));
                },
                (OpView::Delete(a), OpView::Delete(b)) => {
                    lemma_totals_push(o1, OpView::Delete(a + b));
                },
                (OpView::Insert(a), OpView::Insert(b)) => {
                    lemma_encode_utf8_concat(a, b);
                    lemma_totals_push(o1, OpView::Insert(a + b));
                },
                _ => {
                    lemma_totals_push(o, op);
                },
            }
        }
    }
}

/// Folding a stream whose totals fit never overflows and keeps the totals.
proof fn lemma_fold_totals(ops: Seq<OpView>)
    requires
        in_len(ops) <= usize::MAX,
        out_len(ops) <= usize::MAX,
        insert_bytes(ops) <= isize::MAX,
    ensures
        fold_view(ops) is Some,
        in_len(fold_view(ops)->Some_0) == in_len(ops),
        out_len(fold_view(ops)->Some_0) == out_len(ops),
        insert_bytes(fold_view(ops)->Some_0) == insert_bytes(ops),
    decreases ops.len(),
{
    if ops.len() == 0 {
        assert(fold_view(ops)->Some_0 =~= ops);
    } else {
        let p = ops.drop_last();
        let op = ops.last();
        lemma_totals_last(ops);
        lemma_fold_totals(p);
        if op_units(op) == 0 {
            match op {
                OpView::Insert(s) => {
                    assert(s =~= Seq::<char>::empty());
                    assert(encode_utf8(s) =~= Seq::<u8>::empty());
                },
                _ => {},
            }
        } else {
            lemma_push_totals(fold_view(p)->Some_0, op);
        }
    }
}

proof fn lemma_trim_totals(o: Seq<OpView>)
    ensures
        in_len(trim_retains(o)) <= in_len(o),
        out_len(trim_retains(o)) <= out_len(o),
    decreases o.len(),
{
    if o.len() > 0 && o.last() is Retain {
        lemma_totals_last(o);
        lemma_trim_totals(o.drop_last());
    }
}

/// A stream whose input length, output length and inserted bytes fit
/// normalizes without overflow to a stream whose lengths fit.
pub proof fn lemma_normalize_fits(ops: Seq<OpView>)
    requires
        in_len(ops) <= usize::MAX,
        out_len(ops) <= usize::MAX,
        insert_bytes(ops) <= isize::MAX,
    ensures
        normalize_view(ops) is Some,
        lengths_fit(normalize_view(ops)->Some_0),
{
    lemma_fold_totals(ops);
    lemma_trim_totals(fold_view(ops)->Some_0);
}

/// An inverse produces at most the base and puts at most its bytes.
pub proof fn lemma_invert_measures(x: Seq<Unit<char>>, base: Seq<char>)
    ensures
        produced(invert_units(x, base)) <= base.len(),
        put_bytes(invert_units(x, base)) <= byte_len(base),
    decreases x.len(),
{
    if x.len() > 0 {
        let x1 = x.drop_first();
        if base.len() > 0 {
            let rest = base.drop_first();
            assert(seq![base[0]] + rest =~= base);
            lemma_encode_utf8_concat(seq![base[0]], rest);
            lemma_invert_measures(x1, rest);
        }
        lemma_invert_measures(x1, base);
        match x[0] {
            Unit::Put(_) => {
                let r = invert_units(x1, base);
                assert((seq![Unit::Drop] + r).drop_first() =~= r);
            },
            Unit::Keep => if base.len() > 0 {
                let r = invert_units(x1, base.drop_first());
                assert((seq![Unit::Keep] + r).drop_first() =~= r);
            },
            Unit::Drop => if base.len() > 0 {
                let r = invert_units(x1, base.drop_first());
                assert((seq![Unit::Put(base[0])] + r).drop_first() =~= r);
            },
        }
    }
}

} // verus!
