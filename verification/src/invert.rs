//! Inverse Text Changes.
use crate::apply::{apply_text, lemma_byte_len_prefix, lemma_consumed_expand, push_chars};
use crate::change::{byte_len, in_len, inserts_fit, TextChange, TextOp};
use crate::compose::{lemma_push_insert_fits, lemma_push_other_fits};
use crate::error::{InvertError, out_of_bounds_at_root, overflow_at_root};
use crate::model::{OpView, Unit, apply_ops, expand, invert_units, lemma_expand_push, lemma_invert_run, lemma_normal_run, normal_units, op_steps, run};
use crate::text_buf::str_byte_len;
use crate::value::{chars_of, scalar_count, Text};
use crate::fits::{lemma_expand_measures, lemma_invert_measures, lemma_normalize_fits};
use crate::richtext::lemma_utf16_len_le_bytes;
use vstd::prelude::*;

verus! {

/// Inverse units of a stream split at an operation boundary.
proof fn lemma_invert_concat(x: Seq<Unit<char>>, y: Seq<Unit<char>>, base: Seq<char>)
    requires
        crate::model::consumed(x) <= base.len(),
    ensures
        invert_units(x + y, base) =~= invert_units(x, base) + invert_units(
            y,
            base.skip(crate::model::consumed(x) as int),
        ),
    decreases x.len(),
{
    if x.len() == 0 {
        assert(x + y =~= y);
        assert(base.skip(0) =~= base);
    } else {
        assert((x + y).drop_first() =~= x.drop_first() + y);
        match x[0] {
            Unit::Put(_) => lemma_invert_concat(x.drop_first(), y, base),
            _ => {
                lemma_invert_concat(x.drop_first(), y, base.drop_first());
                assert(base.drop_first().skip(crate::model::consumed(x.drop_first()) as int)
                    =~= base.skip(crate::model::consumed(x) as int));
            },
        }
    }
}

/// The inverse units of one operation, given the base from its position on.
pub open spec fn op_inverse(op: OpView, rest: Seq<char>) -> Seq<Unit<char>> {
    invert_units(op_steps(op), rest)
}

proof fn lemma_op_inverse(op: OpView, rest: Seq<char>)
    requires
        crate::change::op_units(op) > 0,
        op is Retain || op is Delete ==> crate::change::op_units(op) <= rest.len(),
    ensures
        op matches OpView::Retain(n) ==> op_inverse(op, rest) == crate::model::keeps(n),
        op matches OpView::Insert(s) ==> op_inverse(op, rest) == crate::model::drops(s.len()),
        op matches OpView::Delete(n) ==> op_inverse(op, rest) == crate::model::puts(
            rest.take(n as int),
        ),
{
    match op {
        OpView::Retain(n) => lemma_inv_keeps(n, rest),
        OpView::Delete(n) => lemma_inv_drops(n, rest),
        OpView::Insert(s) => lemma_inv_puts(s, rest),
    }
}

proof fn lemma_inv_keeps(n: nat, rest: Seq<char>)
    requires
        n <= rest.len(),
    ensures
        invert_units(crate::model::keeps(n), rest) == crate::model::keeps(n),
    decreases n,
{
    if n > 0 {
        let k = crate::model::keeps(n);
        assert(k.drop_first() =~= crate::model::keeps((n - 1) as nat));
        lemma_inv_keeps((n - 1) as nat, rest.drop_first());
        assert(seq![Unit::Keep] + crate::model::keeps((n - 1) as nat) =~= k);
    } else {
        assert(crate::model::keeps(0) =~= Seq::<Unit<char>>::empty());
    }
}

proof fn lemma_inv_puts(s: Seq<char>, rest: Seq<char>)
    ensures
        invert_units(crate::model::puts(s), rest) == crate::model::drops(s.len()),
    decreases s.len(),
{
    if s.len() > 0 {
        crate::model::lemma_puts_len(s);
        crate::reader::lemma_puts_skip(s, 1);
        assert(s.skip(1) =~= s.drop_first());
        lemma_inv_puts(s.drop_first(), rest);
        assert(seq![Unit::Drop] + crate::model::drops(s.drop_first().len())
            =~= crate::model::drops(s.len()));
    } else {
        crate::model::lemma_puts_len(s);
        assert(crate::model::puts(s) =~= Seq::<Unit<char>>::empty());
        assert(crate::model::drops(0) =~= Seq::<Unit<char>>::empty());
    }
}

proof fn lemma_inv_drops(n: nat, rest: Seq<char>)
    requires
        n <= rest.len(),
    ensures
        invert_units(crate::model::drops(n), rest) == crate::model::puts(rest.take(n as int)),
    decreases n,
{
    if n > 0 {
        let d = crate::model::drops(n);
        assert(d.drop_first() =~= crate::model::drops((n - 1) as nat));
        lemma_inv_drops((n - 1) as nat, rest.drop_first());
        let t = rest.take(n as int);
        crate::model::lemma_puts_len(t);
        crate::reader::lemma_puts_skip(t, 1);
        assert(t.skip(1) =~= rest.drop_first().take(n - 1));
        assert(seq![Unit::Put(rest[0])] + crate::model::puts(rest.drop_first().take(n - 1))
            =~= crate::model::puts(t));
    } else {
        assert(rest.take(0) =~= Seq::<char>::empty());
        assert(crate::model::puts(Seq::<char>::empty()) =~= Seq::<Unit<char>>::empty());
    }
}

/// Builds the inverse of a Text Change relative to the Text it was applied
/// to: applying the inverse after the change restores that Text.
pub fn invert_text(change: &TextChange, base: &Text) -> (r: Result<TextChange, InvertError>)
    ensures
        match apply_ops(change@, base@) {
            None => r is Err && r->Err_0 is Apply && out_of_bounds_at_root(r->Err_0->Apply_0),
            Some(t) => if byte_len(t) <= isize::MAX {
                &&& r is Ok
                &&& crate::change::canonical(r->Ok_0@)
                &&& expand(r->Ok_0@) == normal_units(invert_units(expand(change@), base@))
                &&& apply_ops(r->Ok_0@, t) == Some(base@)
            } else {
                r is Err && r->Err_0 is Apply && overflow_at_root(r->Err_0->Apply_0)
            },
        },
{
    match apply_text(base, change) {
        Ok(_) => {},
        Err(e) => {
            return Err(InvertError::Apply(e));
        },
    }
    proof {
        assert(apply_ops(change@, base@) is Some);
        assert(byte_len(apply_ops(change@, base@)->Some_0) <= isize::MAX);
    }
    let ghost v = change@;
    let ghost b = base@;
    let _ = str_byte_len(base.as_str());
    let chars = chars_of(base.as_str());
    let ops = change.ops();
    let ghost target = invert_units(expand(v), b);
    let mut out: Vec<TextOp> = Vec::new();
    let mut index: usize = 0;
    let mut i: usize = 0;
    proof {
        lemma_consumed_expand(v);
        assert(v.take(0) =~= Seq::<OpView>::empty());
        assert(expand(Seq::<OpView>::empty()) =~= Seq::<Unit<char>>::empty());
        assert(out.deep_view() =~= Seq::<OpView>::empty());
        assert(invert_units(Seq::<Unit<char>>::empty(), b) =~= Seq::<Unit<char>>::empty());
    }
    while i < ops.len()
        invariant
            ops.deep_view() == v,
            v == change@,
            chars@ == b,
            byte_len(b) <= isize::MAX,
            in_len(v) <= b.len(),
            crate::change::canonical(v),
            i <= v.len(),
            index == in_len(v.take(i as int)),
            expand(out.deep_view()) == invert_units(expand(v.take(i as int)), b),
            inserts_fit(out.deep_view()),
        decreases v.len() - i,
    {
        let ghost p = v.take(i as int);
        let ghost op = v[i as int];
        let ghost before = out.deep_view();
        proof {
            assert(v.take(i + 1) =~= p.push(op));
            assert(v.take(i + 1).drop_last() =~= p);
            crate::change::lemma_lengths_prefix(v, i + 1);
            crate::inspect::lemma_in_len_prefix(v, i + 1);
            crate::richtext::lemma_utf16_len_le_bytes(b);
            assert(op == ops@[i as int].deep_view());
            lemma_expand_push(p, op);
            lemma_consumed_expand(p);
            lemma_invert_concat(expand(p), op_steps(op), b);
            assert(crate::change::op_units(v[i as int]) > 0);
            lemma_op_inverse(op, b.skip(index as int));
            lemma_expand_push(before, op);
        }
        match &ops[i] {
            TextOp::Retain(len) => {
                proof {
                    lemma_push_other_fits(before, OpView::Retain(*len as nat));
                    assert(in_len(v.take(i + 1)) == index + *len);
                    assert(in_len(v.take(i + 1)) <= in_len(v));
                    assert(b.len() == chars@.len());
                    assert(index + *len <= usize::MAX);
                }
                out.push(TextOp::Retain(*len));
                index = index + *len;
                proof {
                    assert(out.deep_view() =~= before.push(OpView::Retain(*len as nat)));
                    lemma_expand_push(before, OpView::Retain(*len as nat));
                }
            },
            TextOp::Insert(value) => {
                let count = scalar_count(value.as_str());
                proof {
                    lemma_push_other_fits(before, OpView::Delete(count as nat));
                }
                out.push(TextOp::Delete(count));
                proof {
                    assert(out.deep_view() =~= before.push(OpView::Delete(count as nat)));
                    lemma_expand_push(before, OpView::Delete(count as nat));
                }
            },
            TextOp::Delete(len) => {
                proof {
                    assert(in_len(v.take(i + 1)) == index + *len);
                    assert(in_len(v.take(i + 1)) <= in_len(v));
                    assert(b.len() == chars@.len());
                    assert(index + *len <= usize::MAX);
                }
                let end = index + *len;
                let mut removed = String::new();
                push_chars(&mut removed, &chars, index, end);
                proof {
                    assert(removed@ =~= b.skip(index as int).take(*len as int));
                    assert(b.subrange(index as int, end as int) =~= removed@);
                    assert(b.take(end as int).skip(index as int) =~= removed@);
                    lemma_byte_len_prefix(b, end as int);
                    lemma_byte_len_prefix(b.take(end as int), index as int);
                    lemma_push_insert_fits(before, removed@);
                }
                out.push(TextOp::Insert(removed));
                index = end;
                proof {
                    assert(out.deep_view() =~= before.push(OpView::Insert(removed@)));
                    lemma_expand_push(before, OpView::Insert(removed@));
                }
            },
        }
        i = i + 1;
    }
    proof {
        assert(v.take(i as int) =~= v);
        let x = expand(v);
        lemma_expand_measures(out.deep_view());
        lemma_invert_run(x, b);
        lemma_invert_measures(x, b);
        lemma_utf16_len_le_bytes(run(x, b));
        lemma_utf16_len_le_bytes(b);
        lemma_normalize_fits(out.deep_view());
    }
    match TextChange::from_ops(out) {
        Ok(inv) => {
            proof {
                lemma_invert_run(expand(v), b);
                lemma_normal_run(target, run(expand(v), b));
            }
            Ok(inv)
        },
        Err(_) => Err(InvertError::LengthOverflow),
    }
}

} // verus!
