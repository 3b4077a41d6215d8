//! Canonical Text operation streams.
use crate::error::ValueError;
use crate::value::scalar_count;
use crate::model::{
    OpView, Unit, drops, emit, expand, keeps, lemma_emit_concat, lemma_emit_drops,
    lemma_emit_keeps, lemma_emit_puts, lemma_expand_push, lemma_keeps_add, lemma_puts_concat,
    lemma_reorder_split, lemma_trim_keeps_suffix, normal_units, op_steps, pend, puts, reorder,
    trim_keeps,
};
use vstd::prelude::*;
use vstd::utf8::encode_utf8;

verus! {

/// Which side's insertion goes first when two concurrent insertions meet at
/// one position.
#[derive(Debug, Clone, Copy, PartialEq, Eq, Structural)]
pub enum TieBreak {
    /// The left Change's insertion is placed first.
    LeftFirst,
    /// The right Change's insertion is placed first.
    RightFirst,
}

/// An operation in a Text Change stream.
///
/// Retain and Delete lengths count Unicode scalar values.
#[derive(Debug, Clone, PartialEq, Eq, Hash)]
pub enum TextOp {
    /// Retains this many Unicode scalars unchanged.
    Retain(usize),
    /// Inserts UTF-8 text at the current position.
    Insert(String),
    /// Deletes this many Unicode scalars from the base Text.
    Delete(usize),
}

impl DeepView for TextOp {
    type V = OpView;

    open spec fn deep_view(&self) -> OpView {
        match *self {
            TextOp::Retain(n) => OpView::Retain(n as nat),
            TextOp::Insert(s) => OpView::Insert(s@),
            TextOp::Delete(n) => OpView::Delete(n as nat),
        }
    }
}

/// UTF-8 byte length of a scalar sequence.
pub open spec fn byte_len(s: Seq<char>) -> nat {
    encode_utf8(s).len()
}

/// UTF-8 encoding distributes over concatenation.
pub proof fn lemma_encode_utf8_concat(a: Seq<char>, b: Seq<char>)
    ensures
        encode_utf8(a + b) =~= encode_utf8(a) + encode_utf8(b),
        byte_len(a + b) == byte_len(a) + byte_len(b),
    decreases a.len(),
{
    if a.len() > 0 {
        assert((a + b).drop_first() =~= a.drop_first() + b);
        assert((a + b)[0] == a[0]);
        lemma_encode_utf8_concat(a.drop_first(), b);
    } else {
        assert(a + b =~= b);
    }
}

/// Number of scalars an operation retains, inserts or deletes.
pub open spec fn op_units(op: OpView) -> nat {
    match op {
        OpView::Retain(n) => n,
        OpView::Insert(s) => s.len(),
        OpView::Delete(n) => n,
    }
}

/// An inserted text fits in one allocation.
pub open spec fn insert_fits(op: OpView) -> bool {
    op matches OpView::Insert(s) ==> byte_len(s) <= isize::MAX
}

/// Every inserted text of `ops` fits in one allocation.
pub open spec fn inserts_fit(ops: Seq<OpView>) -> bool {
    forall|i: int| 0 <= i < ops.len() ==> insert_fits(#[trigger] ops[i])
}

/// Two neighbouring operations that canonical form merges or reorders.
pub open spec fn joinable(a: OpView, b: OpView) -> bool {
    ||| (a is Retain && b is Retain)
    ||| (a is Insert && b is Insert)
    ||| (a is Delete && b is Delete)
    ||| (a is Delete && b is Insert)
}

/// Nonzero operations, no mergeable neighbours, fitting inserts.
pub open spec fn settled_form(ops: Seq<OpView>) -> bool {
    &&& forall|i: int| 0 <= i < ops.len() ==> op_units(#[trigger] ops[i]) > 0
    &&& inserts_fit(ops)
    &&& forall|i: int| 0 <= i < ops.len() - 1 ==> !joinable(#[trigger] ops[i], ops[i + 1])
}

/// The canonical form of a Text operation stream: nonzero operations,
/// merged neighbours, insertions before deletions, no trailing retain.
pub open spec fn canonical(ops: Seq<OpView>) -> bool {
    &&& settled_form(ops)
    &&& ops.len() > 0 ==> !(ops.last() is Retain)
}

/// Scalars consumed from the base.
pub open spec fn in_len(ops: Seq<OpView>) -> nat
    decreases ops.len(),
{
    if ops.len() == 0 {
        0
    } else {
        in_len(ops.drop_last()) + match ops.last() {
            OpView::Insert(_) => 0nat,
            _ => op_units(ops.last()),
        }
    }
}

/// Scalars produced from the consumed prefix of the base.
pub open spec fn out_len(ops: Seq<OpView>) -> nat
    decreases ops.len(),
{
    if ops.len() == 0 {
        0
    } else {
        out_len(ops.drop_last()) + match ops.last() {
            OpView::Delete(_) => 0nat,
            _ => op_units(ops.last()),
        }
    }
}

/// Both logical lengths of a stream fit in `usize`.
pub open spec fn lengths_fit(ops: Seq<OpView>) -> bool {
    in_len(ops) <= usize::MAX && out_len(ops) <= usize::MAX
}

/// Appends one nonzero operation to a partially normalized stream.
pub open spec fn push_view(out: Seq<OpView>, op: OpView) -> Option<Seq<OpView>>
    decreases out.len(),
{
    if out.len() == 0 {
        Some(seq![op])
    } else if op is Insert && out.last() is Delete {
        match push_view(out.drop_last(), op) {
            Some(o) => Some(o.push(out.last())),
            None => None,
        }
    } else {
        match (out.last(), op) {
            (OpView::Retain(a), OpView::Retain(b)) => if a + b <= usize::MAX {
                Some(out.drop_last().push(OpView::Retain(a + b)))
            } else {
                None
            },
            (OpView::Delete(a), OpView::Delete(b)) => if a + b <= usize::MAX {
                Some(out.drop_last().push(OpView::Delete(a + b)))
            } else {
                None
            },
            (OpView::Insert(a), OpView::Insert(b)) => if byte_len(a) + byte_len(b) <= isize::MAX {
                Some(out.drop_last().push(OpView::Insert(a + b)))
            } else {
                None
            },
            _ => Some(out.push(op)),
        }
    }
}

/// Merges a whole stream left to right, skipping empty operations.
pub open spec fn fold_view(ops: Seq<OpView>) -> Option<Seq<OpView>>
    decreases ops.len(),
{
    if ops.len() == 0 {
        Some(seq![])
    } else {
        match fold_view(ops.drop_last()) {
            None => None,
            Some(o) => if op_units(ops.last()) == 0 {
                Some(o)
            } else {
                push_view(o, ops.last())
            },
        }
    }
}

/// Removes a trailing retain.
pub open spec fn trim_retains(ops: Seq<OpView>) -> Seq<OpView>
    decreases ops.len(),
{
    if ops.len() > 0 && ops.last() is Retain {
        trim_retains(ops.drop_last())
    } else {
        ops
    }
}

/// The canonical form of a stream, or `None` when a merged run overflows.
pub open spec fn normalize_view(ops: Seq<OpView>) -> Option<Seq<OpView>> {
    match fold_view(ops) {
        Some(o) => Some(trim_retains(o)),
        None => None,
    }
}

/// Held-back deletions at the end of a partially normalized stream.
pub open spec fn pending(o: Seq<OpView>) -> nat {
    if o.len() > 0 && o.last() is Delete {
        op_units(o.last())
    } else {
        0
    }
}

/// A partially normalized stream without its held-back deletions.
pub open spec fn settled(o: Seq<OpView>) -> Seq<OpView> {
    if o.len() > 0 && o.last() is Delete {
        o.drop_last()
    } else {
        o
    }
}

proof fn lemma_push_insert_ends(out: Seq<OpView>, op: OpView)
    requires
        op is Insert,
        !(out.len() > 0 && out.last() is Delete),
        push_view(out, op) is Some,
    ensures
        push_view(out, op)->Some_0.len() > 0,
        push_view(out, op)->Some_0.last() is Insert,
{
}

proof fn lemma_expand_settled(o: Seq<OpView>)
    ensures
        expand(o) =~= expand(settled(o)) + drops(pending(o)),
{
    if o.len() > 0 && o.last() is Delete {
        assert(o.drop_last().push(o.last()) =~= o);
        lemma_expand_push(o.drop_last(), o.last());
    } else {
        assert(drops(0) =~= Seq::<Unit<char>>::empty());
    }
}

/// One merge step keeps the settled part and held-back deletions in step
/// with the unit-level reordering.
proof fn lemma_push_view(o: Seq<OpView>, op: OpView)
    requires
        settled_form(o),
        op_units(op) > 0,
        insert_fits(op),
        push_view(o, op) is Some,
    ensures
        settled_form(push_view(o, op)->Some_0),
        expand(settled(push_view(o, op)->Some_0)) =~= expand(settled(o)) + emit(
            op_steps(op),
            pending(o),
        ),
        pending(push_view(o, op)->Some_0) == pend(op_steps(op), pending(o)),
    decreases o.len(),
{
    match op {
        OpView::Retain(b) => lemma_emit_keeps(b, pending(o)),
        OpView::Delete(b) => lemma_emit_drops(b, pending(o)),
        OpView::Insert(s) => lemma_emit_puts(s, pending(o)),
    }
    assert(drops(0) =~= Seq::<Unit<char>>::empty());
    if o.len() > 0 && op is Insert && o.last() is Delete {
        let o1 = o.drop_last();
        lemma_settled_form_prefix(o);
        assert(o1.len() > 0 ==> o1.last() == o[o.len() - 2]);
        assert(pending(o1) == 0);
        assert(settled(o1) == o1);
        lemma_push_view(o1, op);
        lemma_push_insert_ends(o1, op);
        lemma_push_reorder_form(o, op);
        let q = push_view(o1, op)->Some_0;
        assert(settled(q) == q);
        match op {
            OpView::Insert(s) => lemma_emit_puts(s, 0),
            _ => {},
        }
    } else {
        lemma_push_view_direct(o, op);
    }
}

proof fn lemma_settled_form_prefix(o: Seq<OpView>)
    requires
        settled_form(o),
        o.len() > 0,
    ensures
        settled_form(o.drop_last()),
        o.len() >= 2 ==> !joinable(o[o.len() - 2], o[o.len() - 1]),
{
    let o1 = o.drop_last();
    assert forall|i: int| 0 <= i < o1.len() - 1 implies !joinable(#[trigger] o1[i], o1[i + 1]) by {
        assert(o1[i] == o[i] && o1[i + 1] == o[i + 1]);
    }
    assert forall|i: int| 0 <= i < o1.len() implies op_units(#[trigger] o1[i]) > 0 && insert_fits(o1[i]) by {
        assert(o1[i] == o[i]);
    }
}

proof fn lemma_push_reorder_form(o: Seq<OpView>, op: OpView)
    requires
        settled_form(o),
        o.len() > 0,
        op is Insert,
        o.last() is Delete,
        push_view(o.drop_last(), op) is Some,
        settled_form(push_view(o.drop_last(), op)->Some_0),
        push_view(o.drop_last(), op)->Some_0.len() > 0,
        push_view(o.drop_last(), op)->Some_0.last() is Insert,
    ensures
        push_view(o, op) is Some,
        push_view(o, op)->Some_0 == push_view(o.drop_last(), op)->Some_0.push(o.last()),
        settled_form(push_view(o, op)->Some_0),
        settled(push_view(o, op)->Some_0) == push_view(o.drop_last(), op)->Some_0,
        pending(push_view(o, op)->Some_0) == pending(o),
{
    let q = push_view(o.drop_last(), op)->Some_0;
    let r = q.push(o.last());
    assert(r.drop_last() =~= q);
    assert forall|i: int| 0 <= i < r.len() - 1 implies !joinable(#[trigger] r[i], r[i + 1]) by {
        if i < q.len() - 1 {
            assert(r[i] == q[i] && r[i + 1] == q[i + 1]);
        }
    }
    assert forall|i: int| 0 <= i < r.len() implies op_units(#[trigger] r[i]) > 0 && insert_fits(r[i]) by {
        if i < q.len() {
            assert(r[i] == q[i]);
        }
    }
}

proof fn lemma_push_view_direct(o: Seq<OpView>, op: OpView)
    requires
        settled_form(o),
        op_units(op) > 0,
        insert_fits(op),
        push_view(o, op) is Some,
        !(o.len() > 0 && op is Insert && o.last() is Delete),
        emit(op_steps(op), pending(o)) =~= match op {
            OpView::Retain(b) => drops(pending(o)) + keeps(b),
            OpView::Delete(b) => Seq::<Unit<char>>::empty(),
            OpView::Insert(s) => puts(s),
        },
        pend(op_steps(op), pending(o)) == match op {
            OpView::Retain(b) => 0,
            OpView::Delete(b) => pending(o) + b,
            OpView::Insert(s) => pending(o),
        },
    ensures
        settled_form(push_view(o, op)->Some_0),
        expand(settled(push_view(o, op)->Some_0)) =~= expand(settled(o)) + emit(
            op_steps(op),
            pending(o),
        ),
        pending(push_view(o, op)->Some_0) == pend(op_steps(op), pending(o)),
{
    let r = push_view(o, op)->Some_0;
    let n = o.len();
    assert(drops(0) =~= Seq::<Unit<char>>::empty());
    if n == 0 {
        assert(seq![op].drop_last() =~= Seq::<OpView>::empty());
        lemma_expand_push(Seq::<OpView>::empty(), op);
        assert(Seq::<OpView>::empty().push(op) =~= seq![op]);
    } else {
        let last = o.last();
        let o1 = o.drop_last();
        assert(o1.push(last) =~= o);
        lemma_expand_push(o1, last);
        match (last, op) {
            (OpView::Retain(a), OpView::Retain(b)) => {
                lemma_keeps_add(a, b);
                lemma_expand_push(o1, OpView::Retain(a + b));
                assert forall|i: int| 0 <= i < r.len() - 1 implies !joinable(#[trigger] r[i], r[i + 1]) by {
                    assert(r[i] == o[i]);
                }
                assert forall|i: int| 0 <= i < r.len() - 1 implies op_units(#[trigger] r[i]) > 0 && insert_fits(r[i]) by {
                    assert(r[i] == o[i]);
                }
                assert(r.len() == n);
                assert(r[n - 1] == r.last());
                assert(op_units(r[n - 1]) > 0 && insert_fits(r[n - 1]));
                assert(n >= 2 ==> !joinable(o[n - 2], o[n - 1]));
                assert(settled_form(r));
            },
            (OpView::Delete(a), OpView::Delete(b)) => {
                assert forall|i: int| 0 <= i < r.len() - 1 implies !joinable(#[trigger] r[i], r[i + 1]) by {
                    assert(r[i] == o[i]);
                }
                assert forall|i: int| 0 <= i < r.len() - 1 implies op_units(#[trigger] r[i]) > 0 && insert_fits(r[i]) by {
                    assert(r[i] == o[i]);
                }
                assert(r.len() == n);
                assert(r[n - 1] == r.last());
                assert(op_units(r[n - 1]) > 0 && insert_fits(r[n - 1]));
                assert(n >= 2 ==> !joinable(o[n - 2], o[n - 1]));
                assert(settled_form(r));
                assert(r.drop_last() =~= o1);
            },
            (OpView::Insert(a), OpView::Insert(b)) => {
                lemma_puts_concat(a, b);
                lemma_encode_utf8_concat(a, b);
                lemma_expand_push(o1, OpView::Insert(a + b));
                assert forall|i: int| 0 <= i < r.len() - 1 implies !joinable(#[trigger] r[i], r[i + 1]) by {
                    assert(r[i] == o[i]);
                }
                assert forall|i: int| 0 <= i < r.len() - 1 implies op_units(#[trigger] r[i]) > 0 && insert_fits(r[i]) by {
                    assert(r[i] == o[i]);
                }
                assert(r.len() == n);
                assert(r[n - 1] == r.last());
                assert(op_units(r[n - 1]) > 0 && insert_fits(r[n - 1]));
                assert(n >= 2 ==> !joinable(o[n - 2], o[n - 1]));
                assert(settled_form(r));
            },
            _ => {
                lemma_expand_push(o, op);
                assert(r.drop_last() =~= o);
                lemma_expand_settled(o);
                assert forall|i: int| 0 <= i < r.len() - 1 implies !joinable(#[trigger] r[i], r[i + 1]) by {
                    if i < n - 1 {
                        assert(r[i] == o[i]);
                    }
                }
                assert forall|i: int| 0 <= i < r.len() implies op_units(#[trigger] r[i]) > 0 && insert_fits(r[i]) by {
                    if i < n {
                        assert(r[i] == o[i]);
                    }
                }
                assert(r[n as int] == op);
                assert(!joinable(o[n - 1], op));
                assert(settled_form(r));
            },
        }
    }
}

/// The merge fold tracks the unit-level reordering of the processed input.
proof fn lemma_fold_view(ops: Seq<OpView>)
    requires
        inserts_fit(ops),
        fold_view(ops) is Some,
    ensures
        settled_form(fold_view(ops)->Some_0),
        expand(settled(fold_view(ops)->Some_0)) =~= emit(expand(ops), 0),
        pending(fold_view(ops)->Some_0) == pend(expand(ops), 0),
    decreases ops.len(),
{
    let e = Seq::<Unit<char>>::empty();
    if ops.len() == 0 {
        assert(expand(Seq::<OpView>::empty()) =~= e);
    } else {
        let p = ops.drop_last();
        let op = ops.last();
        assert forall|i: int| 0 <= i < p.len() implies insert_fits(#[trigger] p[i]) by {
            assert(p[i] == ops[i]);
        }
        lemma_fold_view(p);
        let o = fold_view(p)->Some_0;
        lemma_expand_push(p, op);
        assert(p.push(op) =~= ops);
        lemma_emit_concat(expand(p), op_steps(op), 0);
        assert(insert_fits(ops[ops.len() - 1]));
        if op_units(op) == 0 {
            match op {
                OpView::Retain(b) => assert(keeps(0) =~= e),
                OpView::Delete(b) => lemma_emit_drops(0, pend(expand(p), 0)),
                OpView::Insert(s) => {
                    assert(s =~= Seq::<char>::empty());
                    assert(puts(s) =~= e);
                },
            }
            assert(emit(e, pend(expand(p), 0)) =~= e);
        } else {
            lemma_push_view(o, op);
        }
    }
}

/// A normalized stream is canonical and expands to the canonical unit stream.
pub proof fn lemma_normalize_view(ops: Seq<OpView>)
    requires
        inserts_fit(ops),
        normalize_view(ops) is Some,
    ensures
        canonical(normalize_view(ops)->Some_0),
        expand(normalize_view(ops)->Some_0) =~= normal_units(expand(ops)),
{
    lemma_fold_view(ops);
    let o = fold_view(ops)->Some_0;
    let x = expand(ops);
    lemma_reorder_split(x, 0);
    lemma_expand_settled(o);
    assert(reorder(x, 0) =~= expand(o));
    let t = trim_retains(o);
    if o.len() > 0 && o.last() is Retain {
        let o2 = o.drop_last();
        assert(o2.len() > 0 ==> !joinable(o[o.len() - 2], o[o.len() - 1]));
        assert(o2.len() > 0 ==> o2.last() == o[o.len() - 2]);
        assert(trim_retains(o2) == o2);
        lemma_expand_push(o2, o.last());
        assert(o2.push(o.last()) =~= o);
        lemma_trim_keeps_suffix(expand(o2), op_units(o.last()));
        lemma_trim_keeps_settled(o2);
        assert forall|i: int| 0 <= i < o2.len() - 1 implies !joinable(#[trigger] o2[i], o2[i + 1]) by {
            assert(o2[i] == o[i] && o2[i + 1] == o[i + 1]);
        }
        assert forall|i: int| 0 <= i < o2.len() implies op_units(#[trigger] o2[i]) > 0 && insert_fits(o2[i]) by {
            assert(o2[i] == o[i]);
        }
    } else {
        lemma_trim_keeps_settled(o);
    }
}

/// A settled stream that does not end with a retain has no trailing keeps.
proof fn lemma_trim_keeps_settled(o: Seq<OpView>)
    requires
        forall|i: int| 0 <= i < o.len() ==> op_units(#[trigger] o[i]) > 0,
        o.len() > 0 ==> !(o.last() is Retain),
    ensures
        trim_keeps(expand(o)) == expand(o),
{
    if o.len() > 0 {
        let o1 = o.drop_last();
        assert(o1.push(o.last()) =~= o);
        lemma_expand_push(o1, o.last());
        let last = o.last();
        assert(op_units(o[o.len() - 1]) > 0);
        match last {
            OpView::Insert(s) => {
                lemma_puts_concat(s.drop_last(), seq![s.last()]);
                assert(s.drop_last() + seq![s.last()] =~= s);
                assert(seq![s.last()].drop_last() =~= Seq::<char>::empty());
                assert(puts(Seq::<char>::empty()) =~= Seq::<Unit<char>>::empty());
                assert(puts(seq![s.last()]) =~= seq![Unit::Put(s.last())]);
            },
            _ => {},
        }
    }
}

} // verus!

verus! {

/// The merge fold stays failed once a prefix overflows.
proof fn lemma_fold_view_none(all: Seq<OpView>, k: int)
    requires
        0 <= k <= all.len(),
        fold_view(all.take(k)) is None,
    ensures
        fold_view(all) is None,
    decreases all.len() - k,
{
    if k == all.len() {
        assert(all.take(k) =~= all);
    } else {
        assert(all.take(k + 1).drop_last() =~= all.take(k));
        lemma_fold_view_none(all, k + 1);
    }
}

pub(crate) fn checked_sequence_add(left: usize, right: usize) -> (r: Result<usize, ValueError>)
    ensures
        left + right <= usize::MAX ==> r == Ok::<usize, ValueError>((left + right) as usize),
        left + right > usize::MAX ==> r == Err::<usize, ValueError>(ValueError::LengthOverflow),
{
    match left.checked_add(right) {
        Some(sum) => Ok(sum),
        None => Err(ValueError::LengthOverflow),
    }
}

/// Appends one operation, merging or reordering it with the last one.
fn push_text(out: &mut Vec<TextOp>, op: TextOp) -> (r: Result<(), ValueError>)
    requires
        inserts_fit(old(out).deep_view()),
        insert_fits(op.deep_view()),
    ensures
        match push_view(old(out).deep_view(), op.deep_view()) {
            Some(o) => r is Ok && final(out).deep_view() == o,
            None => r == Err::<(), ValueError>(ValueError::LengthOverflow),
        },
    decreases old(out).len(),
{
    let ghost old_view = out.deep_view();
    let n = out.len();
    if n == 0 {
        out.push(op);
        proof {
            assert(out.deep_view() =~= seq![op.deep_view()]);
        }
        return Ok(());
    }
    let last_is_delete = match &out[n - 1] {
        TextOp::Delete(_) => true,
        _ => false,
    };
    let op_is_insert = match &op {
        TextOp::Insert(_) => true,
        _ => false,
    };
    assert(old_view[n - 1] == out@[n - 1].deep_view());
    if op_is_insert && last_is_delete {
        let delete = out.pop().unwrap();
        proof {
            assert(out.deep_view() =~= old_view.drop_last());
            assert forall|i: int| 0 <= i < out.deep_view().len() implies insert_fits(#[trigger] out.deep_view()[i]) by {
                assert(out.deep_view()[i] == old_view[i]);
            }
        }
        let pushed = push_text(out, op);
        if pushed.is_err() {
            return pushed;
        }
        let ghost q = out.deep_view();
        out.push(delete);
        proof {
            assert(out.deep_view() =~= q.push(delete.deep_view()));
        }
        return Ok(());
    }
    let last = out.pop().unwrap();
    let ghost rest = out.deep_view();
    proof {
        assert(rest =~= old_view.drop_last());
        assert(last.deep_view() == old_view.last());
    }
    match (last, op) {
        (TextOp::Retain(a), TextOp::Retain(b)) => {
            let sum = checked_sequence_add(a, b);
            match sum {
                Ok(sum) => {
                    out.push(TextOp::Retain(sum));
                    proof {
                        assert(out.deep_view() =~= rest.push(OpView::Retain((a + b) as nat)));
                    }
                },
                Err(e) => {
                    return Err(e);
                },
            }
        },
        (TextOp::Delete(a), TextOp::Delete(b)) => {
            let sum = checked_sequence_add(a, b);
            match sum {
                Ok(sum) => {
                    out.push(TextOp::Delete(sum));
                    proof {
                        assert(out.deep_view() =~= rest.push(OpView::Delete((a + b) as nat)));
                    }
                },
                Err(e) => {
                    return Err(e);
                },
            }
        },
        (TextOp::Insert(a), TextOp::Insert(b)) => {
            let a_len = a.as_str().len();
            let b_len = b.as_str().len();
            let len = checked_sequence_add(a_len, b_len);
            match len {
                Ok(len) => {
                    if len > isize::MAX as usize {
                        return Err(ValueError::LengthOverflow);
                    }
                    let mut merged = a;
                    merged.append(b.as_str());
                    out.push(TextOp::Insert(merged));
                    proof {
                        assert(out.deep_view() =~= rest.push(OpView::Insert(a@ + b@)));
                    }
                },
                Err(e) => {
                    return Err(e);
                },
            }
        },
        (last, op) => {
            out.push(last);
            out.push(op);
            proof {
                assert(out.deep_view() =~= old_view.push(op.deep_view()));
            }
        },
    }
    Ok(())
}

fn ends_with_retain(ops: &Vec<TextOp>) -> (b: bool)
    ensures
        b == (ops.deep_view().len() > 0 && ops.deep_view().last() is Retain),
{
    let n = ops.len();
    if n == 0 {
        return false;
    }
    match &ops[n - 1] {
        TextOp::Retain(_) => true,
        _ => false,
    }
}

/// Normalizes a stream: drops empty operations, merges neighbours, moves
/// insertions before deletions and removes trailing retains.
fn normalize_text(ops: Vec<TextOp>) -> (r: Result<Vec<TextOp>, ValueError>)
    requires
        inserts_fit(ops.deep_view()),
    ensures
        match normalize_view(ops.deep_view()) {
            Some(n) => r is Ok && r->Ok_0.deep_view() == n,
            None => r == Err::<Vec<TextOp>, ValueError>(ValueError::LengthOverflow),
        },
{
    let ghost all = ops.deep_view();
    let mut out: Vec<TextOp> = Vec::new();
    proof {
        assert(all.take(0) =~= Seq::<OpView>::empty());
        assert(out.deep_view() =~= Seq::<OpView>::empty());
    }
    for op in it: ops.into_iter()
        invariant
            it.seq() == ops@,
            all == ops.deep_view(),
            inserts_fit(all),
            fold_view(all.take(it.index() as int)) == Some(out.deep_view()),
    {
        let ghost k = it.index() as int;
        proof {
            assert(all[k] == op.deep_view());
            assert(all.take(k + 1).drop_last() =~= all.take(k));
            assert(all.take(k + 1).last() == all[k]);
            lemma_fold_view(all.take(k));
            assert(insert_fits(all[k]));
        }
        let empty = match &op {
            TextOp::Retain(n) => *n == 0,
            TextOp::Delete(n) => *n == 0,
            TextOp::Insert(value) => value.as_str().is_empty(),
        };
        if !empty {
            let pushed = push_text(&mut out, op);
            if pushed.is_err() {
                proof {
                    lemma_fold_view_none(all, k + 1);
                }
                return Err(ValueError::LengthOverflow);
            }
        }
    }
    proof {
        assert(all.take(all.len() as int) =~= all);
        lemma_fold_view(all);
    }
    let ghost folded = out.deep_view();
    while ends_with_retain(&out)
        invariant
            trim_retains(out.deep_view()) == trim_retains(folded),
        decreases out.len(),
    {
        let ghost before = out.deep_view();
        out.pop();
        proof {
            assert(out.deep_view() =~= before.drop_last());
        }
    }
    Ok(out)
}

} // verus!

verus! {

pub proof fn lemma_lengths_prefix(ops: Seq<OpView>, k: int)
    requires
        0 <= k <= ops.len(),
    ensures
        in_len(ops.take(k)) <= in_len(ops),
        out_len(ops.take(k)) <= out_len(ops),
    decreases ops.len() - k,
{
    if k < ops.len() {
        assert(ops.take(k + 1).drop_last() =~= ops.take(k));
        lemma_lengths_prefix(ops, k + 1);
    } else {
        assert(ops.take(k) =~= ops);
    }
}

/// Running input and output lengths of a stream.
pub(crate) struct ChangeLengths {
    pub(crate) input: usize,
    pub(crate) output: usize,
}

impl ChangeLengths {
    pub(crate) fn retain(&mut self, len: usize) -> (r: Result<(), ValueError>)
        ensures
            r is Ok <==> (old(self).input + len <= usize::MAX && old(self).output + len
                <= usize::MAX),
            r is Ok ==> final(self).input == old(self).input + len && final(self).output == old(
                self,
            ).output + len,
            r is Err ==> r == Err::<(), ValueError>(ValueError::LengthOverflow),
    {
        let input = checked_sequence_add(self.input, len)?;
        let output = checked_sequence_add(self.output, len)?;
        self.input = input;
        self.output = output;
        Ok(())
    }

    pub(crate) fn insert(&mut self, len: usize) -> (r: Result<(), ValueError>)
        ensures
            r is Ok <==> old(self).output + len <= usize::MAX,
            r is Ok ==> final(self).input == old(self).input && final(self).output == old(
                self,
            ).output + len,
            r is Err ==> r == Err::<(), ValueError>(ValueError::LengthOverflow),
    {
        self.output = checked_sequence_add(self.output, len)?;
        Ok(())
    }

    pub(crate) fn delete(&mut self, len: usize) -> (r: Result<(), ValueError>)
        ensures
            r is Ok <==> old(self).input + len <= usize::MAX,
            r is Ok ==> final(self).input == old(self).input + len && final(self).output == old(
                self,
            ).output,
            r is Err ==> r == Err::<(), ValueError>(ValueError::LengthOverflow),
    {
        self.input = checked_sequence_add(self.input, len)?;
        Ok(())
    }
}

/// Checks that both logical lengths of a stream fit in `usize`.
fn validate_text_lengths(ops: &Vec<TextOp>) -> (r: Result<(), ValueError>)
    ensures
        r is Ok <==> lengths_fit(ops.deep_view()),
        r is Err ==> r == Err::<(), ValueError>(ValueError::LengthOverflow),
{
    let ghost all = ops.deep_view();
    let mut lengths = ChangeLengths { input: 0, output: 0 };
    let mut i: usize = 0;
    proof {
        assert(all.take(0) =~= Seq::<OpView>::empty());
    }
    while i < ops.len()
        invariant
            all == ops.deep_view(),
            i <= all.len(),
            lengths.input == in_len(all.take(i as int)),
            lengths.output == out_len(all.take(i as int)),
        decreases all.len() - i,
    {
        proof {
            assert(all.take(i + 1).drop_last() =~= all.take(i as int));
            assert(all.take(i + 1).last() == all[i as int]);
        }
        let step = match &ops[i] {
            TextOp::Retain(len) => lengths.retain(*len),
            TextOp::Insert(value) => lengths.insert(scalar_count(value.as_str())),
            TextOp::Delete(len) => lengths.delete(*len),
        };
        if step.is_err() {
            proof {
                lemma_lengths_prefix(all, i + 1);
            }
            return Err(ValueError::LengthOverflow);
        }
        i = i + 1;
    }
    proof {
        assert(all.take(i as int) =~= all);
    }
    Ok(())
}

/// A checked integer addition Change.
#[derive(Debug, Clone, Copy, PartialEq, Eq, Hash, Structural)]
pub enum IntChange {
    /// Adds the signed delta to an Int Snapshot.
    Add(i64),
}

/// Every inserted text is a `String`, so it fits in one allocation.
fn inserted_texts_fit(ops: &Vec<TextOp>)
    ensures
        inserts_fit(ops.deep_view()),
{
    let mut i: usize = 0;
    while i < ops.len()
        invariant
            i <= ops.len(),
            forall|j: int| 0 <= j < i ==> insert_fits(#[trigger] ops.deep_view()[j]),
        decreases ops.len() - i,
    {
        match &ops[i] {
            TextOp::Insert(text) => {
                let _ = crate::text_buf::str_byte_len(text.as_str());
            },
            _ => {},
        }
        i = i + 1;
    }
}

/// A canonical Text operation stream.
#[derive(Debug, PartialEq, Eq, Hash)]
pub struct TextChange {
    ops: Vec<TextOp>,
}

impl View for TextChange {
    type V = Seq<OpView>;

    closed spec fn view(&self) -> Seq<OpView> {
        self.ops.deep_view()
    }
}

impl TextChange {
    #[verifier::type_invariant]
    closed spec fn well_formed(self) -> bool {
        canonical(self.ops.deep_view()) && lengths_fit(self.ops.deep_view())
    }

    /// Creates and normalizes a Text operation stream.
    ///
    /// Zero operations and empty inserts are removed, compatible operations
    /// are merged, and trailing retains are omitted.
    pub fn from_ops(ops: Vec<TextOp>) -> (r: Result<TextChange, ValueError>)
        ensures
            match normalize_view(ops.deep_view()) {
                Some(n) => if lengths_fit(n) {
                    r is Ok && r->Ok_0@ == n
                } else {
                    r == Err::<TextChange, ValueError>(ValueError::LengthOverflow)
                },
                None => r == Err::<TextChange, ValueError>(ValueError::LengthOverflow),
            },
            r is Ok ==> canonical(r->Ok_0@) && expand(r->Ok_0@) == normal_units(
                expand(ops.deep_view()),
            ),
    {
        let ghost input = ops.deep_view();
        inserted_texts_fit(&ops);
        let ops = normalize_text(ops)?;
        proof {
            lemma_normalize_view(input);
        }
        validate_text_lengths(&ops)?;
        Ok(TextChange { ops })
    }

    /// Wraps an already canonical stream.
    pub(crate) fn from_canonical(ops: Vec<TextOp>) -> (c: TextChange)
        requires
            canonical(ops.deep_view()),
            lengths_fit(ops.deep_view()),
        ensures
            c@ == ops.deep_view(),
    {
        TextChange { ops }
    }

    /// Returns the canonical operations.
    pub fn ops(&self) -> (ops: &[TextOp])
        ensures
            ops.deep_view() == self@,
            canonical(self@),
            lengths_fit(self@),
    {
        proof {
            use_type_invariant(self);
        }
        self.ops.as_slice()
    }

    /// Returns whether the canonical stream contains no operations.
    pub fn is_empty(&self) -> (b: bool)
        ensures
            b == (self@.len() == 0),
            canonical(self@),
            lengths_fit(self@),
    {
        proof {
            use_type_invariant(self);
        }
        self.ops.len() == 0
    }
}

impl TextOp {
    /// Returns an equal operation.
    pub fn copy(&self) -> (c: TextOp)
        ensures
            c.deep_view() == self.deep_view(),
    {
        match self {
            TextOp::Retain(n) => TextOp::Retain(*n),
            TextOp::Insert(s) => TextOp::Insert(s.clone()),
            TextOp::Delete(n) => TextOp::Delete(*n),
        }
    }
}

impl Clone for TextChange {
    fn clone(&self) -> (c: TextChange)
        ensures
            c@ == self@,
    {
        proof {
            use_type_invariant(self);
        }
        let mut ops: Vec<TextOp> = Vec::new();
        let mut i: usize = 0;
        proof {
            assert(ops.deep_view() =~= self@.take(0));
        }
        while i < self.ops.len()
            invariant
                i <= self@.len(),
                self.ops.deep_view() == self@,
                ops.deep_view() == self@.take(i as int),
            decreases self@.len() - i,
        {
            ops.push(self.ops[i].copy());
            proof {
                assert(self@.take(i + 1) =~= self@.take(i as int).push(self@[i as int]));
                assert(ops.deep_view() =~= self@.take(i + 1));
            }
            i = i + 1;
        }
        proof {
            assert(self@.take(i as int) =~= self@);
        }
        TextChange { ops }
    }
}

} // verus!
