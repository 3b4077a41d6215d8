//! Unit streams that apply within one allocation have a canonical form.
use crate::apply::lemma_byte_len_prefix;
use crate::change::{byte_len, canonical, lemma_encode_utf8_concat};
use crate::laws::{op_kind, unit_kind};
use crate::model::{consumed, expand, normal_units, produced, reorder, run, OpView, Unit};
use crate::runs::{add_unit, grow, normalizes, op_fits, runs, runs_fit, unit_op};
use vstd::prelude::*;

verus! {

/// What `x` outputs over `base`, without the untouched rest of `base`.
pub open spec fn out(x: Seq<Unit<char>>, base: Seq<char>) -> Seq<char>
    decreases x.len(),
{
    if x.len() == 0 {
        Seq::empty()
    } else {
        match x[0] {
            Unit::Keep => if base.len() > 0 {
                seq![base[0]] + out(x.drop_first(), base.drop_first())
            } else {
                out(x.drop_first(), base)
            },
            Unit::Put(c) => seq![c] + out(x.drop_first(), base),
            Unit::Drop => if base.len() > 0 {
                out(x.drop_first(), base.drop_first())
            } else {
                out(x.drop_first(), base)
            },
        }
    }
}

/// The output of one more unit.
pub open spec fn unit_out(u: Unit<char>, base: Seq<char>, at: nat) -> Seq<char> {
    match u {
        Unit::Keep => seq![base[at as int]],
        Unit::Put(c) => seq![c],
        Unit::Drop => Seq::empty(),
    }
}

proof fn lemma_run_out(x: Seq<Unit<char>>, base: Seq<char>)
    requires
        consumed(x) <= base.len(),
    ensures
        run(x, base) == out(x, base) + base.skip(consumed(x) as int),
    decreases x.len(),
{
    if x.len() == 0 {
        assert(base.skip(0) =~= base);
        assert(Seq::<char>::empty() + base =~= base);
    } else {
        let r = x.drop_first();
        match x[0] {
            Unit::Put(c) => {
                lemma_run_out(r, base);
                assert(seq![c] + (out(r, base) + base.skip(consumed(r) as int)) =~= (seq![c] + out(r, base)) + base.skip(consumed(x) as int));
            },
            _ => {
                let b = base.drop_first();
                lemma_run_out(r, b);
                assert(b.skip(consumed(r) as int) =~= base.skip(consumed(x) as int));
                if x[0] is Keep {
                    assert(seq![base[0]] + (out(r, b) + b.skip(consumed(r) as int)) =~= (seq![base[0]] + out(r, b)) + base.skip(consumed(x) as int));
                }
            },
        }
    }
}

proof fn lemma_out_push(x: Seq<Unit<char>>, u: Unit<char>, base: Seq<char>)
    requires
        consumed(x.push(u)) <= base.len(),
    ensures
        consumed(x.push(u)) == consumed(x) + if u is Put { 0nat } else { 1nat },
        out(x.push(u), base) == out(x, base) + unit_out(u, base, consumed(x)),
    decreases x.len(),
{
    if x.len() == 0 {
        let e = Seq::<Unit<char>>::empty();
        assert(x.push(u) =~= seq![u]);
        assert(seq![u].drop_first() =~= e);
        assert(x =~= e);
        assert(consumed(seq![u]) == consumed(e) + if u is Put { 0nat } else { 1nat });
        match u {
            Unit::Keep => {
                assert(out(seq![u], base) == seq![base[0]] + out(e, base.drop_first()));
            },
            Unit::Put(c) => {
                assert(out(seq![u], base) == seq![c] + out(e, base));
            },
            Unit::Drop => {
                assert(out(seq![u], base) == out(e, base.drop_first()));
            },
        }
        assert(out(seq![u], base) =~= unit_out(u, base, 0));
        assert(Seq::<char>::empty() + unit_out(u, base, 0) =~= unit_out(u, base, 0));
    } else {
        let r = x.drop_first();
        assert(x.push(u).drop_first() =~= r.push(u));
        assert(x.push(u)[0] == x[0]);
        match x[0] {
            Unit::Put(c) => {
                lemma_out_push(r, u, base);
                assert(seq![c] + (out(r, base) + unit_out(u, base, consumed(r))) =~= (seq![c] + out(r, base)) + unit_out(u, base, consumed(x)));
            },
            _ => {
                let b = base.drop_first();
                lemma_out_push(r, u, b);
                assert(unit_out(u, b, consumed(r)) =~= unit_out(u, base, consumed(x)));
                if x[0] is Keep {
                    assert(seq![base[0]] + (out(r, b) + unit_out(u, b, consumed(r))) =~= (seq![base[0]] + out(r, b)) + unit_out(u, base, consumed(x)));
                }
            },
        }
    }
}

/// An operation bounded by an output and a consumed length: inserted text no
/// longer in UTF-8 than the output, counts no larger than the consumed length.
pub open spec fn bounded_op(op: OpView, o: Seq<char>, k: nat) -> bool {
    match op {
        OpView::Insert(s) => byte_len(s) <= byte_len(o),
        OpView::Retain(n) => n <= k,
        OpView::Delete(n) => n <= k,
    }
}

/// Every operation of the runs of `y` is bounded by what `y` consumes and
/// outputs over `base`.
pub open spec fn runs_bounded(y: Seq<Unit<char>>, base: Seq<char>) -> bool {
    forall|i: int| 0 <= i < runs(y).len() ==> bounded_op(#[trigger] runs(y)[i], out(y, base), consumed(y))
}

proof fn lemma_runs_bounded(y: Seq<Unit<char>>, base: Seq<char>)
    requires
        consumed(y) <= base.len(),
    ensures
        runs_bounded(y, base),
    decreases y.len(),
{
    if y.len() > 0 {
        let y0 = y.drop_last();
        let u = y.last();
        assert(y0.push(u) =~= y);
        lemma_out_push(y0, u, base);
        lemma_runs_bounded(y0, base);
        let c = runs(y0);
        let o0 = out(y0, base);
        let w = unit_out(u, base, consumed(y0));
        let o = out(y, base);
        assert(o == o0 + w);
        lemma_encode_utf8_concat(o0, w);
        let grows = c.len() > 0 && op_kind(c.last()) == unit_kind(u);
        let r = runs(y);
        assert(r == add_unit(c, u));
        assert forall|i: int| 0 <= i < r.len() implies bounded_op(#[trigger] r[i], o, consumed(y)) by {
            if i < c.len() && !(grows && i == c.len() - 1) {
                assert(r[i] == c[i]);
                assert(bounded_op(c[i], o0, consumed(y0)));
            } else if grows {
                assert(r[i] == grow(c.last(), u));
                assert(c.last() == c[c.len() - 1]);
                assert(bounded_op(c[i], o0, consumed(y0)));
                if !(c.last() is Insert) {
                    assert(!(u is Put));
                } else {
                    assert(u is Put);
                    lemma_encode_utf8_concat(c.last()->Insert_0, seq![u->Put_0]);
                    assert(c.last()->Insert_0.push(u->Put_0) =~= c.last()->Insert_0 + seq![u->Put_0]);
                }
            } else {
                assert(r[i] == unit_op(u));
                if u is Put {
                    assert(w == seq![u->Put_0]);
                }
            }
        }
    }
}

/// A unit stream that consumes within a base of `usize` length and outputs
/// within one allocation normalizes.
pub proof fn lemma_normalizes_within(u: Seq<Unit<char>>, base: Seq<char>)
    requires
        consumed(u) <= base.len(),
        base.len() <= usize::MAX,
        byte_len(run(u, base)) <= isize::MAX,
    ensures
        normalizes(u),
{
    let y = reorder(u, 0);
    crate::model::lemma_reorder_run(u, 0, base);
    assert(base.skip(0) =~= base);
    lemma_runs_bounded(y, base);
    lemma_run_out(y, base);
    lemma_byte_len_prefix(run(y, base), out(y, base).len() as int);
    assert(run(y, base).take(out(y, base).len() as int) =~= out(y, base));
    assert forall|i: int| 0 <= i < runs(y).len() implies op_fits(#[trigger] runs(y)[i]) by {
        assert(bounded_op(runs(y)[i], out(y, base), consumed(y)));
    }
    crate::model::lemma_normal_run(u, base);
    crate::model::lemma_run_len(normal_units(u), base);
    crate::richtext::lemma_utf16_len_le_bytes(run(u, base));
}

/// A stream that normalizes has a canonical form.
pub proof fn lemma_canonical_exists(u: Seq<Unit<char>>)
    requires
        normalizes(u),
    ensures
        exists|v: Seq<OpView>| canonical(v) && expand(v) == normal_units(u),
{
    crate::compose_law::lemma_canonical_of(u);
}

} // verus!
