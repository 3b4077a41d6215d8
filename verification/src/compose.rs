//! Sequential composition of Text Changes.
use crate::apply::lemma_byte_len_prefix;
use crate::change::{byte_len, inserts_fit, TextChange, TextOp};
use crate::error::ComposeError;
use crate::model::{OpView, Unit, apply_ops, compose_units, drops, expand, keeps, lemma_compose_run, lemma_cons, lemma_expand_push, lemma_normal_run, lemma_puts_len, normal_units, puts};
use crate::reader::{lemma_puts_skip, TextOpReader, TextOpRef};
use crate::fits::{lemma_expand_measures, lemma_normalize_fits, steps_fit};
use crate::runs::{lemma_normalizes, lemma_text_ops_fit, normalizes};
use vstd::prelude::*;

verus! {

proof fn lemma_puts_head(t: Seq<char>)
    requires
        t.len() > 0,
    ensures
        puts(t).len() == t.len(),
        puts(t)[0] == Unit::Put(t[0]),
        puts(t).drop_first() =~= puts(t.drop_first()),
{
    lemma_puts_len(t);
    lemma_puts_skip(t, 1);
    assert(t.skip(1) =~= t.drop_first());
}

/// Composing against an empty second stream keeps the first one.
pub proof fn lemma_compose_right_empty(a: Seq<Unit<char>>)
    ensures
        compose_units(a, seq![]) == a,
    decreases a.len(),
{
    if a.len() > 0 && a[0] is Drop {
        lemma_compose_right_empty(a.drop_first());
        lemma_cons(Unit::Drop, a.drop_first());
        assert(seq![Unit::Drop] + a.drop_first() =~= a);
    }
}

/// Composing an empty first stream yields the second one.
pub proof fn lemma_compose_left_empty(b: Seq<Unit<char>>)
    ensures
        compose_units(seq![], b) == b,
    decreases b.len(),
{
    if b.len() > 0 && b[0] is Put {
        lemma_compose_left_empty(b.drop_first());
        lemma_cons(b[0], b.drop_first());
        assert(seq![b[0]] + b.drop_first() =~= b);
    }
}

/// Insertions of the second stream come first.
proof fn lemma_compose_right_puts(a: Seq<Unit<char>>, t: Seq<char>, b: Seq<Unit<char>>)
    ensures
        compose_units(a, puts(t) + b) == puts(t) + compose_units(a, b),
    decreases t.len(),
{
    if t.len() == 0 {
        lemma_puts_len(t);
        assert(puts(t) + b =~= b);
        assert(puts(t) + compose_units(a, b) =~= compose_units(a, b));
    } else {
        lemma_puts_head(t);
        let y = puts(t) + b;
        assert(y.drop_first() =~= puts(t.drop_first()) + b);
        lemma_compose_right_puts(a, t.drop_first(), b);
        assert(seq![Unit::Put(t[0])] + (puts(t.drop_first()) + compose_units(a, b)) =~= puts(t)
            + compose_units(a, b));
    }
}

/// Deletions of the first stream come next, unless the second stream inserts.
proof fn lemma_compose_left_drops(n: nat, a: Seq<Unit<char>>, b: Seq<Unit<char>>)
    requires
        !(b.len() > 0 && b[0] is Put),
    ensures
        compose_units(drops(n) + a, b) == drops(n) + compose_units(a, b),
    decreases n,
{
    if n == 0 {
        assert(drops(0) + a =~= a);
        assert(drops(0) + compose_units(a, b) =~= compose_units(a, b));
    } else {
        let x = drops(n) + a;
        assert(x[0] == Unit::<char>::Drop);
        assert(x.drop_first() =~= drops((n - 1) as nat) + a);
        lemma_compose_left_drops((n - 1) as nat, a, b);
        assert(seq![Unit::Drop] + (drops((n - 1) as nat) + compose_units(a, b)) =~= drops(n)
            + compose_units(a, b));
    }
}

/// An insertion of the first stream meets retained units of the second.
proof fn lemma_compose_puts_keeps(t: Seq<char>, a: Seq<Unit<char>>, b: Seq<Unit<char>>)
    ensures
        compose_units(puts(t) + a, keeps(t.len()) + b) == puts(t) + compose_units(a, b),
    decreases t.len(),
{
    if t.len() == 0 {
        lemma_puts_len(t);
        assert(puts(t) + a =~= a);
        assert(keeps(0) + b =~= b);
        assert(puts(t) + compose_units(a, b) =~= compose_units(a, b));
    } else {
        lemma_puts_head(t);
        let x = puts(t) + a;
        let y = keeps(t.len()) + b;
        assert(x.drop_first() =~= puts(t.drop_first()) + a);
        assert(y.drop_first() =~= keeps(t.drop_first().len()) + b);
        assert(y[0] == Unit::<char>::Keep);
        lemma_compose_puts_keeps(t.drop_first(), a, b);
        assert(seq![Unit::Put(t[0])] + (puts(t.drop_first()) + compose_units(a, b)) =~= puts(t)
            + compose_units(a, b));
    }
}

/// An insertion of the first stream deleted by the second vanishes.
proof fn lemma_compose_puts_drops(t: Seq<char>, a: Seq<Unit<char>>, b: Seq<Unit<char>>)
    ensures
        compose_units(puts(t) + a, drops(t.len()) + b) == compose_units(a, b),
    decreases t.len(),
{
    if t.len() == 0 {
        lemma_puts_len(t);
        assert(puts(t) + a =~= a);
        assert(drops(0) + b =~= b);
    } else {
        lemma_puts_head(t);
        let x = puts(t) + a;
        let y = drops(t.len()) + b;
        assert(x.drop_first() =~= puts(t.drop_first()) + a);
        assert(y.drop_first() =~= drops(t.drop_first().len()) + b);
        assert(y[0] == Unit::<char>::Drop);
        lemma_compose_puts_drops(t.drop_first(), a, b);
    }
}

/// Retained units of the first stream meet retained or deleted units.
proof fn lemma_compose_keeps(n: nat, a: Seq<Unit<char>>, b: Seq<Unit<char>>, deleting: bool)
    ensures
        deleting ==> compose_units(keeps(n) + a, drops(n) + b) == drops(n) + compose_units(a, b),
        !deleting ==> compose_units(keeps(n) + a, keeps(n) + b) == keeps(n) + compose_units(a, b),
    decreases n,
{
    if n == 0 {
        assert(keeps(0) + a =~= a);
        assert(keeps(0) + b =~= b);
        assert(drops(0) + b =~= b);
        assert(drops(0) + compose_units(a, b) =~= compose_units(a, b));
        assert(keeps(0) + compose_units(a, b) =~= compose_units(a, b));
    } else {
        let m = (n - 1) as nat;
        lemma_compose_keeps(m, a, b, deleting);
        let x = keeps(n) + a;
        assert(x[0] == Unit::<char>::Keep);
        assert(x.drop_first() =~= keeps(m) + a);
        if deleting {
            let y = drops(n) + b;
            assert(y[0] == Unit::<char>::Drop);
            assert(y.drop_first() =~= drops(m) + b);
            assert(seq![Unit::Drop] + (drops(m) + compose_units(a, b)) =~= drops(n)
                + compose_units(a, b));
        } else {
            let y = keeps(n) + b;
            assert(y[0] == Unit::<char>::Keep);
            assert(y.drop_first() =~= keeps(m) + b);
            assert(seq![Unit::Keep] + (keeps(m) + compose_units(a, b)) =~= keeps(n)
                + compose_units(a, b));
        }
    }
}

/// One emitted chunk moves a piece of the composition into the output.
pub proof fn lemma_emit_step(
    before: Seq<OpView>,
    op: OpView,
    rest: Seq<Unit<char>>,
    now: Seq<Unit<char>>,
    target: Seq<Unit<char>>,
)
    requires
        expand(before) + now == target,
        now == crate::model::op_steps(op) + rest,
    ensures
        expand(before.push(op)) + rest == target,
{
    lemma_expand_push(before, op);
    assert(expand(before.push(op)) + rest =~= expand(before) + now);
}

pub proof fn lemma_split(x: Seq<Unit<char>>, n: int)
    requires
        0 <= n <= x.len(),
    ensures
        x =~= x.take(n) + x.skip(n),
{
}

/// Byte length of a prefix of a pending insertion.
pub proof fn lemma_prefix_fits(s: Seq<char>, n: int)
    requires
        0 <= n <= s.len(),
        byte_len(s) <= isize::MAX,
    ensures
        byte_len(s.take(n)) <= isize::MAX,
{
    lemma_byte_len_prefix(s, n);
}

pub proof fn lemma_push_insert_fits(out: Seq<OpView>, s: Seq<char>)
    requires
        inserts_fit(out),
        byte_len(s) <= isize::MAX,
    ensures
        inserts_fit(out.push(OpView::Insert(s))),
{
    let o = out.push(OpView::Insert(s));
    assert forall|i: int| 0 <= i < o.len() implies crate::change::insert_fits(#[trigger] o[i]) by {
        if i < out.len() {
            assert(o[i] == out[i]);
        }
    }
}

pub proof fn lemma_push_other_fits(out: Seq<OpView>, op: OpView)
    requires
        inserts_fit(out),
        !(op is Insert),
    ensures
        inserts_fit(out.push(op)),
{
    let o = out.push(op);
    assert forall|i: int| 0 <= i < o.len() implies crate::change::insert_fits(#[trigger] o[i]) by {
        if i < out.len() {
            assert(o[i] == out[i]);
        }
    }
}

proof fn lemma_case_b_insert(ra: Seq<Unit<char>>, rb: Seq<Unit<char>>, t: Seq<char>)
    requires
        t.len() <= rb.len(),
        rb.take(t.len() as int) == puts(t),
    ensures
        compose_units(ra, rb) == puts(t) + compose_units(ra, rb.skip(t.len() as int)),
{
    lemma_split(rb, t.len() as int);
    lemma_compose_right_puts(ra, t, rb.skip(t.len() as int));
}

proof fn lemma_case_a_delete(ra: Seq<Unit<char>>, rb: Seq<Unit<char>>, n: nat)
    requires
        n <= ra.len(),
        ra.take(n as int) == drops(n),
        !(rb.len() > 0 && rb[0] is Put),
    ensures
        compose_units(ra, rb) == drops(n) + compose_units(ra.skip(n as int), rb),
{
    lemma_split(ra, n as int);
    lemma_compose_left_drops(n, ra.skip(n as int), rb);
}

proof fn lemma_case_a_empty(ra: Seq<Unit<char>>, rb: Seq<Unit<char>>, n: nat)
    requires
        ra.len() == 0,
        n <= rb.len(),
    ensures
        compose_units(ra, rb) == rb.take(n as int) + compose_units(ra, rb.skip(n as int)),
{
    assert(ra =~= Seq::<Unit<char>>::empty());
    lemma_compose_left_empty(rb);
    lemma_compose_left_empty(rb.skip(n as int));
    lemma_split(rb, n as int);
}

proof fn lemma_case_b_empty(ra: Seq<Unit<char>>, rb: Seq<Unit<char>>, n: nat)
    requires
        rb.len() == 0,
        n <= ra.len(),
    ensures
        compose_units(ra, rb) == ra.take(n as int) + compose_units(ra.skip(n as int), rb),
{
    assert(rb =~= Seq::<Unit<char>>::empty());
    lemma_compose_right_empty(ra);
    lemma_compose_right_empty(ra.skip(n as int));
    lemma_split(ra, n as int);
}

proof fn lemma_case_insert_meets(
    ra: Seq<Unit<char>>,
    rb: Seq<Unit<char>>,
    t: Seq<char>,
    deleting: bool,
)
    requires
        t.len() <= ra.len(),
        t.len() <= rb.len(),
        ra.take(t.len() as int) == puts(t),
        deleting ==> rb.take(t.len() as int) == drops(t.len()),
        !deleting ==> rb.take(t.len() as int) == keeps(t.len()),
    ensures
        deleting ==> compose_units(ra, rb) == compose_units(
            ra.skip(t.len() as int),
            rb.skip(t.len() as int),
        ),
        !deleting ==> compose_units(ra, rb) == puts(t) + compose_units(
            ra.skip(t.len() as int),
            rb.skip(t.len() as int),
        ),
{
    lemma_split(ra, t.len() as int);
    lemma_split(rb, t.len() as int);
    if deleting {
        lemma_compose_puts_drops(t, ra.skip(t.len() as int), rb.skip(t.len() as int));
    } else {
        lemma_compose_puts_keeps(t, ra.skip(t.len() as int), rb.skip(t.len() as int));
    }
}

proof fn lemma_case_keep_meets(ra: Seq<Unit<char>>, rb: Seq<Unit<char>>, n: nat, deleting: bool)
    requires
        n <= ra.len(),
        n <= rb.len(),
        ra.take(n as int) == keeps(n),
        deleting ==> rb.take(n as int) == drops(n),
        !deleting ==> rb.take(n as int) == keeps(n),
    ensures
        deleting ==> compose_units(ra, rb) == drops(n) + compose_units(
            ra.skip(n as int),
            rb.skip(n as int),
        ),
        !deleting ==> compose_units(ra, rb) == keeps(n) + compose_units(
            ra.skip(n as int),
            rb.skip(n as int),
        ),
{
    lemma_split(ra, n as int);
    lemma_split(rb, n as int);
    lemma_compose_keeps(n, ra.skip(n as int), rb.skip(n as int), deleting);
}

/// Sequentially composes two Text Changes: the result has the effect of
/// applying `left` and then `right`.
#[verifier::rlimit(50)]
pub fn compose_text(left: &TextChange, right: &TextChange) -> (r: Result<TextChange, ComposeError>)
    ensures
        r matches Ok(c) ==> expand(c@) == normal_units(
            compose_units(expand(left@), expand(right@)),
        ),
        r matches Ok(c) ==> crate::change::canonical(c@),
        r matches Ok(c) ==> forall|base: Seq<char>|
            apply_ops(left@, base) is Some && apply_ops(right@, #[trigger] apply_ops(
                left@,
                base,
            )->Some_0) is Some ==> apply_ops(c@, base) == apply_ops(
                right@,
                apply_ops(left@, base)->Some_0,
            ),
        r is Err ==> r == Err::<TextChange, ComposeError>(ComposeError::LengthOverflow),
        r is Ok <==> normalizes(compose_units(expand(left@), expand(right@))),
        steps_fit(compose_units(expand(left@), expand(right@))) ==> r is Ok,
{
    let mut a = TextOpReader::new(left.ops());
    let mut b = TextOpReader::new(right.ops());
    let ghost target = compose_units(expand(left@), expand(right@));
    let mut out: Vec<TextOp> = Vec::new();
    proof {
        assert(expand(out.deep_view()) =~= Seq::<Unit<char>>::empty());
        assert(Seq::<Unit<char>>::empty() + target =~= target);
    }
    loop
        invariant
            a.wf(),
            b.wf(),
            expand(out.deep_view()) + compose_units(a.rest(), b.rest()) == target,
            inserts_fit(out.deep_view()),
        ensures
            expand(out.deep_view()) == target,
            inserts_fit(out.deep_view()),
        decreases a.rest().len() + b.rest().len(),
    {
        let ghost before = out.deep_view();
        let ghost ra = a.rest();
        let ghost rb = b.rest();
        let pa = a.peek();
        let pb = b.peek();
        if let Some(TextOpRef::Insert(n)) = pb {
            let t = b.take_text(n);
            proof {
                b.lemma_pending_fits();
                assert(b.pending_text().take(n as int) =~= b.pending_text());
                lemma_case_b_insert(ra, rb, t@);
                lemma_emit_step(before, OpView::Insert(t@), compose_units(ra, rb.skip(n as int)), compose_units(ra, rb), target);
                lemma_push_insert_fits(before, t@);
            }
            out.push(TextOp::Insert(t));
            b.consume(n);
            proof {
                assert(out.deep_view() =~= before.push(OpView::Insert(t@)));
            }
            continue;
        }
        if let Some(TextOpRef::Delete(n)) = pa {
            proof {
                match pb {
                    Some(TextOpRef::Retain(m)) => assert(rb[0] == rb.take(m as int)[0]),
                    Some(TextOpRef::Delete(m)) => assert(rb[0] == rb.take(m as int)[0]),
                    _ => {},
                }
                lemma_case_a_delete(ra, rb, n as nat);
                lemma_emit_step(before, OpView::Delete(n as nat), compose_units(ra.skip(n as int), rb), compose_units(ra, rb), target);
                lemma_push_other_fits(before, OpView::Delete(n as nat));
            }
            out.push(TextOp::Delete(n));
            a.consume(n);
            proof {
                assert(out.deep_view() =~= before.push(OpView::Delete(n as nat)));
            }
            continue;
        }
        match (pa, pb) {
            (None, None) => {
                proof {
                    assert(ra =~= Seq::<Unit<char>>::empty());
                    assert(rb =~= Seq::<Unit<char>>::empty());
                    assert(expand(before) + Seq::<Unit<char>>::empty() =~= expand(before));
                }
                break;
            },
            (None, Some(TextOpRef::Retain(n))) => {
                proof {
                    lemma_case_a_empty(ra, rb, n as nat);
                    lemma_emit_step(before, OpView::Retain(n as nat), compose_units(ra, rb.skip(n as int)), compose_units(ra, rb), target);
                    lemma_push_other_fits(before, OpView::Retain(n as nat));
                }
                out.push(TextOp::Retain(n));
                b.consume(n);
                proof {
                    assert(out.deep_view() =~= before.push(OpView::Retain(n as nat)));
                }
            },
            (None, Some(TextOpRef::Delete(n))) => {
                proof {
                    lemma_case_a_empty(ra, rb, n as nat);
                    lemma_emit_step(before, OpView::Delete(n as nat), compose_units(ra, rb.skip(n as int)), compose_units(ra, rb), target);
                    lemma_push_other_fits(before, OpView::Delete(n as nat));
                }
                out.push(TextOp::Delete(n));
                b.consume(n);
                proof {
                    assert(out.deep_view() =~= before.push(OpView::Delete(n as nat)));
                }
            },
            (Some(TextOpRef::Retain(n)), None) => {
                proof {
                    lemma_case_b_empty(ra, rb, n as nat);
                    lemma_emit_step(before, OpView::Retain(n as nat), compose_units(ra.skip(n as int), rb), compose_units(ra, rb), target);
                    lemma_push_other_fits(before, OpView::Retain(n as nat));
                }
                out.push(TextOp::Retain(n));
                a.consume(n);
                proof {
                    assert(out.deep_view() =~= before.push(OpView::Retain(n as nat)));
                }
            },
            (Some(TextOpRef::Insert(n)), None) => {
                let t = a.take_text(n);
                proof {
                    a.lemma_pending_fits();
                    assert(a.pending_text().take(n as int) =~= a.pending_text());
                    lemma_case_b_empty(ra, rb, n as nat);
                    lemma_emit_step(before, OpView::Insert(t@), compose_units(ra.skip(n as int), rb), compose_units(ra, rb), target);
                    lemma_push_insert_fits(before, t@);
                }
                out.push(TextOp::Insert(t));
                a.consume(n);
                proof {
                    assert(out.deep_view() =~= before.push(OpView::Insert(t@)));
                }
            },
            (Some(TextOpRef::Insert(la)), Some(TextOpRef::Retain(lb))) => {
                let len = if la < lb {
                    la
                } else {
                    lb
                };
                let t = a.take_text(len);
                proof {
                    a.lemma_pending_fits();
                    lemma_prefix_fits(a.pending_text(), len as int);
                    lemma_puts_take(a.pending_text(), len as int);
                    assert(ra.take(len as int) =~= ra.take(la as int).take(len as int));
                    assert(rb.take(len as int) =~= keeps(len as nat));
                    lemma_case_insert_meets(ra, rb, t@, false);
                    lemma_emit_step(before, OpView::Insert(t@), compose_units(ra.skip(len as int), rb.skip(len as int)), compose_units(ra, rb), target);
                    lemma_push_insert_fits(before, t@);
                }
                out.push(TextOp::Insert(t));
                a.consume(len);
                b.consume(len);
                proof {
                    assert(out.deep_view() =~= before.push(OpView::Insert(t@)));
                }
            },
            (Some(TextOpRef::Insert(la)), Some(TextOpRef::Delete(lb))) => {
                let len = if la < lb {
                    la
                } else {
                    lb
                };
                proof {
                    let t = a.pending_text().take(len as int);
                    lemma_puts_take(a.pending_text(), len as int);
                    assert(ra.take(len as int) =~= ra.take(la as int).take(len as int));
                    assert(rb.take(len as int) =~= drops(len as nat));
                    lemma_case_insert_meets(ra, rb, t, true);
                }
                a.consume(len);
                b.consume(len);
            },
            (Some(TextOpRef::Retain(la)), Some(TextOpRef::Retain(lb))) => {
                let len = if la < lb {
                    la
                } else {
                    lb
                };
                proof {
                    assert(ra.take(len as int) =~= keeps(len as nat));
                    assert(rb.take(len as int) =~= keeps(len as nat));
                    lemma_case_keep_meets(ra, rb, len as nat, false);
                    lemma_emit_step(before, OpView::Retain(len as nat), compose_units(ra.skip(len as int), rb.skip(len as int)), compose_units(ra, rb), target);
                    lemma_push_other_fits(before, OpView::Retain(len as nat));
                }
                out.push(TextOp::Retain(len));
                a.consume(len);
                b.consume(len);
                proof {
                    assert(out.deep_view() =~= before.push(OpView::Retain(len as nat)));
                }
            },
            (Some(TextOpRef::Retain(la)), Some(TextOpRef::Delete(lb))) => {
                let len = if la < lb {
                    la
                } else {
                    lb
                };
                proof {
                    assert(ra.take(len as int) =~= keeps(len as nat));
                    assert(rb.take(len as int) =~= drops(len as nat));
                    lemma_case_keep_meets(ra, rb, len as nat, true);
                    lemma_emit_step(before, OpView::Delete(len as nat), compose_units(ra.skip(len as int), rb.skip(len as int)), compose_units(ra, rb), target);
                    lemma_push_other_fits(before, OpView::Delete(len as nat));
                }
                out.push(TextOp::Delete(len));
                a.consume(len);
                b.consume(len);
                proof {
                    assert(out.deep_view() =~= before.push(OpView::Delete(len as nat)));
                }
            },
            _ => {
                proof {
                    assert(false);
                }
            },
        }
    }
    proof {
        lemma_expand_measures(out.deep_view());
        if steps_fit(target) {
            lemma_normalize_fits(out.deep_view());
        }
        lemma_text_ops_fit(out);
        lemma_normalizes(out.deep_view());
    }
    let composed = TextChange::from_ops(out);
    match composed {
        Ok(c) => {
            proof {
                assert forall|base: Seq<char>|
                    apply_ops(left@, base) is Some && apply_ops(right@, #[trigger] apply_ops(
                        left@,
                        base,
                    )->Some_0) is Some implies apply_ops(c@, base) == apply_ops(
                    right@,
                    apply_ops(left@, base)->Some_0,
                ) by {
                    lemma_compose_run(expand(left@), expand(right@), base);
                    lemma_normal_run(target, base);
                }
            }
            Ok(c)
        },
        Err(_) => Err(ComposeError::LengthOverflow),
    }
}

pub proof fn lemma_puts_take(s: Seq<char>, n: int)
    requires
        0 <= n <= s.len(),
    ensures
        puts(s).take(n) =~= puts(s.take(n)),
{
    lemma_puts_len(s);
    lemma_puts_len(s.take(n));
}

} // verus!
