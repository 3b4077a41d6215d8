//! Transformation of concurrent Text Changes.
use crate::change::{inserts_fit, TextChange, TextOp, TieBreak};
use crate::compose::{lemma_push_insert_fits, lemma_push_other_fits, lemma_split};
use crate::error::TransformError;
use crate::model::{OpView, Unit, apply_ops, drops, expand, keeps, lemma_normal_run, lemma_puts_len, lemma_transform_run, normal_units, puts, run, transform_units};
use crate::reader::{TextOpReader, TextOpRef};
use crate::fits::{lemma_expand_measures, lemma_normalize_fits, steps_fit};
use crate::runs::{lemma_normalizes, lemma_text_ops_fit, normalizes};
use vstd::prelude::*;

verus! {

pub open spec fn run_of(u: Unit<char>, n: nat) -> Seq<Unit<char>> {
    if u is Keep {
        keeps(n)
    } else {
        drops(n)
    }
}

proof fn lemma_puts_head(t: Seq<char>)
    requires
        t.len() > 0,
    ensures
        puts(t).len() == t.len(),
        puts(t)[0] == Unit::Put(t[0]),
        puts(t).drop_first() =~= puts(t.drop_first()),
{
    lemma_puts_len(t);
    crate::reader::lemma_puts_skip(t, 1);
    assert(t.skip(1) =~= t.drop_first());
}

/// Left insertions placed first become retains on the right.
proof fn lemma_tr_left_puts(t: Seq<char>, a: Seq<Unit<char>>, b: Seq<Unit<char>>, tie: TieBreak)
    requires
        !(b.len() > 0 && b[0] is Put && tie == TieBreak::RightFirst),
    ensures
        transform_units(puts(t) + a, b, tie) == (
            puts(t) + transform_units(a, b, tie).0,
            keeps(t.len()) + transform_units(a, b, tie).1,
        ),
    decreases t.len(),
{
    let (x, y) = transform_units(a, b, tie);
    if t.len() == 0 {
        lemma_puts_len(t);
        assert(puts(t) + a =~= a);
        assert(puts(t) + x =~= x);
        assert(keeps(0) + y =~= y);
    } else {
        lemma_puts_head(t);
        let s = puts(t) + a;
        assert(s[0] == Unit::Put(t[0]));
        assert(s.drop_first() =~= puts(t.drop_first()) + a);
        lemma_tr_left_puts(t.drop_first(), a, b, tie);
        assert(seq![Unit::Put(t[0])] + (puts(t.drop_first()) + x) =~= puts(t) + x);
        assert(seq![Unit::Keep] + (keeps(t.drop_first().len()) + y) =~= keeps(t.len()) + y);
    }
}

/// Right insertions placed first become retains on the left.
proof fn lemma_tr_right_puts(t: Seq<char>, a: Seq<Unit<char>>, b: Seq<Unit<char>>, tie: TieBreak)
    requires
        !(a.len() > 0 && a[0] is Put && tie == TieBreak::LeftFirst),
    ensures
        transform_units(a, puts(t) + b, tie) == (
            keeps(t.len()) + transform_units(a, b, tie).0,
            puts(t) + transform_units(a, b, tie).1,
        ),
    decreases t.len(),
{
    let (x, y) = transform_units(a, b, tie);
    if t.len() == 0 {
        lemma_puts_len(t);
        assert(puts(t) + b =~= b);
        assert(puts(t) + y =~= y);
        assert(keeps(0) + x =~= x);
    } else {
        lemma_puts_head(t);
        let s = puts(t) + b;
        assert(s[0] == Unit::Put(t[0]));
        assert(s.drop_first() =~= puts(t.drop_first()) + b);
        lemma_tr_right_puts(t.drop_first(), a, b, tie);
        assert(seq![Unit::Put(t[0])] + (puts(t.drop_first()) + y) =~= puts(t) + y);
        assert(seq![Unit::Keep] + (keeps(t.drop_first().len()) + x) =~= keeps(t.len()) + x);
    }
}

/// Left retains or deletes with nothing left on the right pass through.
proof fn lemma_tr_left_only(u: Unit<char>, n: nat, a: Seq<Unit<char>>, tie: TieBreak)
    requires
        !(u is Put),
    ensures
        transform_units(run_of(u, n) + a, seq![], tie) == (
            run_of(u, n) + transform_units(a, seq![], tie).0,
            transform_units(a, seq![], tie).1,
        ),
    decreases n,
{
    let (x, y) = transform_units(a, seq![], tie);
    if n == 0 {
        assert(run_of(u, 0) + a =~= a);
        assert(run_of(u, 0) + x =~= x);
    } else {
        let m = (n - 1) as nat;
        let s = run_of(u, n) + a;
        assert(s[0] == (if u is Keep { Unit::<char>::Keep } else { Unit::<char>::Drop }));
        assert(s.drop_first() =~= run_of(u, m) + a);
        lemma_tr_left_only(u, m, a, tie);
        assert(seq![s[0]] + (run_of(u, m) + x) =~= run_of(u, n) + x);
    }
}

/// Right retains or deletes with nothing left on the left pass through.
proof fn lemma_tr_right_only(u: Unit<char>, n: nat, b: Seq<Unit<char>>, tie: TieBreak)
    requires
        !(u is Put),
    ensures
        transform_units(seq![], run_of(u, n) + b, tie) == (
            transform_units(seq![], b, tie).0,
            run_of(u, n) + transform_units(seq![], b, tie).1,
        ),
    decreases n,
{
    let (x, y) = transform_units(seq![], b, tie);
    if n == 0 {
        assert(run_of(u, 0) + b =~= b);
        assert(run_of(u, 0) + y =~= y);
    } else {
        let m = (n - 1) as nat;
        let s = run_of(u, n) + b;
        assert(s[0] == (if u is Keep { Unit::<char>::Keep } else { Unit::<char>::Drop }));
        assert(s.drop_first() =~= run_of(u, m) + b);
        lemma_tr_right_only(u, m, b, tie);
        assert(seq![s[0]] + (run_of(u, m) + y) =~= run_of(u, n) + y);
    }
}

/// What a pair of retains or deletes on both sides produces.
pub open spec fn pair_out(ua: Unit<char>, ub: Unit<char>, n: nat) -> (
    Seq<Unit<char>>,
    Seq<Unit<char>>,
) {
    if ua is Drop && ub is Drop {
        (seq![], seq![])
    } else if ua is Drop {
        (drops(n), seq![])
    } else if ub is Drop {
        (seq![], drops(n))
    } else {
        (keeps(n), keeps(n))
    }
}

proof fn lemma_tr_pair(
    ua: Unit<char>,
    ub: Unit<char>,
    n: nat,
    a: Seq<Unit<char>>,
    b: Seq<Unit<char>>,
    tie: TieBreak,
)
    requires
        !(ua is Put),
        !(ub is Put),
    ensures
        transform_units(run_of(ua, n) + a, run_of(ub, n) + b, tie) == (
            pair_out(ua, ub, n).0 + transform_units(a, b, tie).0,
            pair_out(ua, ub, n).1 + transform_units(a, b, tie).1,
        ),
    decreases n,
{
    let (x, y) = transform_units(a, b, tie);
    if n == 0 {
        assert(run_of(ua, 0) + a =~= a);
        assert(run_of(ub, 0) + b =~= b);
        assert(pair_out(ua, ub, 0).0 + x =~= x);
        assert(pair_out(ua, ub, 0).1 + y =~= y);
    } else {
        let m = (n - 1) as nat;
        let sa = run_of(ua, n) + a;
        let sb = run_of(ub, n) + b;
        assert(sa[0] == (if ua is Keep { Unit::<char>::Keep } else { Unit::<char>::Drop }));
        assert(sb[0] == (if ub is Keep { Unit::<char>::Keep } else { Unit::<char>::Drop }));
        assert(sa.drop_first() =~= run_of(ua, m) + a);
        assert(sb.drop_first() =~= run_of(ub, m) + b);
        lemma_tr_pair(ua, ub, m, a, b, tie);
        let (p0, p1) = pair_out(ua, ub, m);
        if ua is Drop && ub is Drop {
        } else if ua is Drop {
            assert(seq![Unit::Drop] + (p0 + x) =~= pair_out(ua, ub, n).0 + x);
        } else if ub is Drop {
            assert(seq![Unit::Drop] + (p1 + y) =~= pair_out(ua, ub, n).1 + y);
        } else {
            assert(seq![Unit::Keep] + (p0 + x) =~= pair_out(ua, ub, n).0 + x);
            assert(seq![Unit::Keep] + (p1 + y) =~= pair_out(ua, ub, n).1 + y);
        }
    }
}

proof fn lemma_emit_both(
    ao: Seq<OpView>,
    bo: Seq<OpView>,
    pa: Seq<Unit<char>>,
    pb: Seq<Unit<char>>,
    rest: (Seq<Unit<char>>, Seq<Unit<char>>),
    now: (Seq<Unit<char>>, Seq<Unit<char>>),
    target: (Seq<Unit<char>>, Seq<Unit<char>>),
)
    requires
        expand(ao) + now.0 == target.0,
        expand(bo) + now.1 == target.1,
        now.0 == pa + rest.0,
        now.1 == pb + rest.1,
    ensures
        (expand(ao) + pa) + rest.0 == target.0,
        (expand(bo) + pb) + rest.1 == target.1,
{
    assert((expand(ao) + pa) + rest.0 =~= expand(ao) + now.0);
    assert((expand(bo) + pb) + rest.1 =~= expand(bo) + now.1);
}

} // verus!

verus! {

proof fn lemma_head_not_put(r: Seq<Unit<char>>, p: Option<TextOpRef>, n: nat)
    requires
        p matches Some(TextOpRef::Retain(m)) ==> m > 0 && m <= r.len() && r.take(m as int) == keeps(
            m as nat,
        ),
        p matches Some(TextOpRef::Delete(m)) ==> m > 0 && m <= r.len() && r.take(m as int) == drops(
            m as nat,
        ),
        p is None ==> r.len() == 0,
        !(p matches Some(TextOpRef::Insert(_))),
    ensures
        !(r.len() > 0 && r[0] is Put),
{
    match p {
        Some(TextOpRef::Retain(m)) => assert(r[0] == r.take(m as int)[0]),
        Some(TextOpRef::Delete(m)) => assert(r[0] == r.take(m as int)[0]),
        _ => {},
    }
}

/// Transforms two concurrent Text Changes over one base into
/// `(left after right, right after left)`.
///
/// Concurrent insertions at one position are ordered by `tie`. Both
/// transformed paths converge (TP1).
#[verifier::rlimit(60)]
pub fn transform_text(left: &TextChange, right: &TextChange, tie: TieBreak) -> (r: Result<
    (TextChange, TextChange),
    TransformError,
>)
    ensures
        r matches Ok((x, y)) ==> expand(x@) == normal_units(
            transform_units(expand(left@), expand(right@), tie).0,
        ) && expand(y@) == normal_units(transform_units(expand(left@), expand(right@), tie).1),
        r matches Ok((x, y)) ==> crate::change::canonical(x@) && crate::change::canonical(y@),
        r matches Ok((x, y)) ==> forall|base: Seq<char>|
            #![trigger apply_ops(left@, base), apply_ops(right@, base)]
            apply_ops(left@, base) is Some && apply_ops(right@, base) is Some ==> {
                &&& apply_ops(y@, apply_ops(left@, base)->Some_0) is Some
                &&& apply_ops(y@, apply_ops(left@, base)->Some_0) == apply_ops(
                    x@,
                    apply_ops(right@, base)->Some_0,
                )
            },
        r is Err ==> r == Err::<(TextChange, TextChange), TransformError>(
            TransformError::LengthOverflow,
        ),
        r is Ok <==> normalizes(transform_units(expand(left@), expand(right@), tie).0) && normalizes(
            transform_units(expand(left@), expand(right@), tie).1,
        ),
        steps_fit(transform_units(expand(left@), expand(right@), tie).0) && steps_fit(
            transform_units(expand(left@), expand(right@), tie).1,
        ) ==> r is Ok,
{
    let mut a = TextOpReader::new(left.ops());
    let mut b = TextOpReader::new(right.ops());
    let ghost target = transform_units(expand(left@), expand(right@), tie);
    let mut ao: Vec<TextOp> = Vec::new();
    let mut bo: Vec<TextOp> = Vec::new();
    proof {
        assert(expand(ao.deep_view()) =~= Seq::<Unit<char>>::empty());
        assert(expand(bo.deep_view()) =~= Seq::<Unit<char>>::empty());
        assert(Seq::<Unit<char>>::empty() + target.0 =~= target.0);
        assert(Seq::<Unit<char>>::empty() + target.1 =~= target.1);
    }
    loop
        invariant
            a.wf(),
            b.wf(),
            expand(ao.deep_view()) + transform_units(a.rest(), b.rest(), tie).0 == target.0,
            expand(bo.deep_view()) + transform_units(a.rest(), b.rest(), tie).1 == target.1,
            inserts_fit(ao.deep_view()),
            inserts_fit(bo.deep_view()),
        ensures
            expand(ao.deep_view()) == target.0,
            expand(bo.deep_view()) == target.1,
            inserts_fit(ao.deep_view()),
            inserts_fit(bo.deep_view()),
        decreases a.rest().len() + b.rest().len(),
    {
        let ghost ab = ao.deep_view();
        let ghost bb = bo.deep_view();
        let ghost ra = a.rest();
        let ghost rb = b.rest();
        let ghost now = transform_units(ra, rb, tie);
        let pa = a.peek();
        let pb = b.peek();
        let a_insert = match pa {
            Some(TextOpRef::Insert(_)) => true,
            _ => false,
        };
        let b_insert = match pb {
            Some(TextOpRef::Insert(_)) => true,
            _ => false,
        };
        if a_insert && (!b_insert || tie == TieBreak::LeftFirst) {
            if let Some(TextOpRef::Insert(n)) = pa {
                let t = a.take_text(n);
                proof {
                    a.lemma_pending_fits();
                    assert(a.pending_text().take(n as int) =~= a.pending_text());
                    if !b_insert {
                        lemma_head_not_put(rb, pb, 0);
                    }
                    lemma_split(ra, n as int);
                    lemma_tr_left_puts(t@, ra.skip(n as int), rb, tie);
                    let rest = transform_units(ra.skip(n as int), rb, tie);
                    lemma_puts_len(t@);
                    lemma_emit_both(ab, bb, puts(t@), keeps(n as nat), rest, now, target);
                    crate::model::lemma_expand_push(ab, OpView::Insert(t@));
                    crate::model::lemma_expand_push(bb, OpView::Retain(n as nat));
                    lemma_push_insert_fits(ab, t@);
                    lemma_push_other_fits(bb, OpView::Retain(n as nat));
                }
                ao.push(TextOp::Insert(t));
                bo.push(TextOp::Retain(n));
                a.consume(n);
                proof {
                    assert(ao.deep_view() =~= ab.push(OpView::Insert(t@)));
                    assert(bo.deep_view() =~= bb.push(OpView::Retain(n as nat)));
                }
            }
            continue;
        }
        if let Some(TextOpRef::Insert(n)) = pb {
            let t = b.take_text(n);
            proof {
                b.lemma_pending_fits();
                assert(b.pending_text().take(n as int) =~= b.pending_text());
                if !a_insert {
                    lemma_head_not_put(ra, pa, 0);
                }
                lemma_split(rb, n as int);
                lemma_tr_right_puts(t@, ra, rb.skip(n as int), tie);
                let rest = transform_units(ra, rb.skip(n as int), tie);
                lemma_puts_len(t@);
                lemma_emit_both(ab, bb, keeps(n as nat), puts(t@), rest, now, target);
                crate::model::lemma_expand_push(ab, OpView::Retain(n as nat));
                crate::model::lemma_expand_push(bb, OpView::Insert(t@));
                lemma_push_other_fits(ab, OpView::Retain(n as nat));
                lemma_push_insert_fits(bb, t@);
            }
            ao.push(TextOp::Retain(n));
            bo.push(TextOp::Insert(t));
            b.consume(n);
            proof {
                assert(ao.deep_view() =~= ab.push(OpView::Retain(n as nat)));
                assert(bo.deep_view() =~= bb.push(OpView::Insert(t@)));
            }
            continue;
        }
        match (pa, pb) {
            (None, None) => {
                proof {
                    assert(ra =~= Seq::<Unit<char>>::empty());
                    assert(rb =~= Seq::<Unit<char>>::empty());
                    assert(expand(ab) + Seq::<Unit<char>>::empty() =~= expand(ab));
                    assert(expand(bb) + Seq::<Unit<char>>::empty() =~= expand(bb));
                }
                break;
            },
            (Some(TextOpRef::Retain(n)), None) | (Some(TextOpRef::Delete(n)), None) => {
                let keep = match pa {
                    Some(TextOpRef::Retain(_)) => true,
                    _ => false,
                };
                let ghost u = if keep {
                    Unit::<char>::Keep
                } else {
                    Unit::<char>::Drop
                };
                let ghost op = if keep {
                    OpView::Retain(n as nat)
                } else {
                    OpView::Delete(n as nat)
                };
                proof {
                    assert(rb =~= Seq::<Unit<char>>::empty());
                    lemma_split(ra, n as int);
                    assert(ra.take(n as int) == run_of(u, n as nat));
                    lemma_tr_left_only(u, n as nat, ra.skip(n as int), tie);
                    let rest = transform_units(ra.skip(n as int), rb, tie);
                    lemma_emit_both(ab, bb, run_of(u, n as nat), seq![], rest, now, target);
                    assert(expand(bb) + Seq::<Unit<char>>::empty() =~= expand(bb));
                    crate::model::lemma_expand_push(ab, op);
                    lemma_push_other_fits(ab, op);
                }
                if keep {
                    ao.push(TextOp::Retain(n));
                } else {
                    ao.push(TextOp::Delete(n));
                }
                a.consume(n);
                proof {
                    assert(ao.deep_view() =~= ab.push(op));
                }
            },
            (None, Some(TextOpRef::Retain(n))) | (None, Some(TextOpRef::Delete(n))) => {
                let keep = match pb {
                    Some(TextOpRef::Retain(_)) => true,
                    _ => false,
                };
                let ghost u = if keep {
                    Unit::<char>::Keep
                } else {
                    Unit::<char>::Drop
                };
                let ghost op = if keep {
                    OpView::Retain(n as nat)
                } else {
                    OpView::Delete(n as nat)
                };
                proof {
                    assert(ra =~= Seq::<Unit<char>>::empty());
                    lemma_split(rb, n as int);
                    assert(rb.take(n as int) == run_of(u, n as nat));
                    lemma_tr_right_only(u, n as nat, rb.skip(n as int), tie);
                    let rest = transform_units(ra, rb.skip(n as int), tie);
                    lemma_emit_both(ab, bb, seq![], run_of(u, n as nat), rest, now, target);
                    assert(expand(ab) + Seq::<Unit<char>>::empty() =~= expand(ab));
                    crate::model::lemma_expand_push(bb, op);
                    lemma_push_other_fits(bb, op);
                }
                if keep {
                    bo.push(TextOp::Retain(n));
                } else {
                    bo.push(TextOp::Delete(n));
                }
                b.consume(n);
                proof {
                    assert(bo.deep_view() =~= bb.push(op));
                }
            },
            (Some(pa_ref), Some(pb_ref)) => {
                let (la, a_keep) = match pa_ref {
                    TextOpRef::Retain(l) => (l, true),
                    TextOpRef::Delete(l) => (l, false),
                    TextOpRef::Insert(l) => (l, false),
                };
                let (lb, b_keep) = match pb_ref {
                    TextOpRef::Retain(l) => (l, true),
                    TextOpRef::Delete(l) => (l, false),
                    TextOpRef::Insert(l) => (l, false),
                };
                let len = if la < lb {
                    la
                } else {
                    lb
                };
                let ghost ua = if a_keep {
                    Unit::<char>::Keep
                } else {
                    Unit::<char>::Drop
                };
                let ghost ub = if b_keep {
                    Unit::<char>::Keep
                } else {
                    Unit::<char>::Drop
                };
                proof {
                    lemma_split(ra, len as int);
                    lemma_split(rb, len as int);
                    assert(ra.take(len as int) =~= ra.take(la as int).take(len as int));
                    assert(rb.take(len as int) =~= rb.take(lb as int).take(len as int));
                    assert(ra.take(len as int) =~= run_of(ua, len as nat));
                    assert(rb.take(len as int) =~= run_of(ub, len as nat));
                    lemma_tr_pair(ua, ub, len as nat, ra.skip(len as int), rb.skip(len as int), tie);
                    let rest = transform_units(ra.skip(len as int), rb.skip(len as int), tie);
                    let (p0, p1) = pair_out(ua, ub, len as nat);
                    lemma_emit_both(ab, bb, p0, p1, rest, now, target);
                }
                if a_keep && b_keep {
                    proof {
                        crate::model::lemma_expand_push(ab, OpView::Retain(len as nat));
                        crate::model::lemma_expand_push(bb, OpView::Retain(len as nat));
                        lemma_push_other_fits(ab, OpView::Retain(len as nat));
                        lemma_push_other_fits(bb, OpView::Retain(len as nat));
                    }
                    ao.push(TextOp::Retain(len));
                    bo.push(TextOp::Retain(len));
                    proof {
                        assert(ao.deep_view() =~= ab.push(OpView::Retain(len as nat)));
                        assert(bo.deep_view() =~= bb.push(OpView::Retain(len as nat)));
                    }
                } else if a_keep {
                    proof {
                        crate::model::lemma_expand_push(bb, OpView::Delete(len as nat));
                        lemma_push_other_fits(bb, OpView::Delete(len as nat));
                        assert(expand(ab) + Seq::<Unit<char>>::empty() =~= expand(ab));
                    }
                    bo.push(TextOp::Delete(len));
                    proof {
                        assert(bo.deep_view() =~= bb.push(OpView::Delete(len as nat)));
                    }
                } else if b_keep {
                    proof {
                        crate::model::lemma_expand_push(ab, OpView::Delete(len as nat));
                        lemma_push_other_fits(ab, OpView::Delete(len as nat));
                        assert(expand(bb) + Seq::<Unit<char>>::empty() =~= expand(bb));
                    }
                    ao.push(TextOp::Delete(len));
                    proof {
                        assert(ao.deep_view() =~= ab.push(OpView::Delete(len as nat)));
                    }
                } else {
                    proof {
                        assert(expand(ab) + Seq::<Unit<char>>::empty() =~= expand(ab));
                        assert(expand(bb) + Seq::<Unit<char>>::empty() =~= expand(bb));
                    }
                }
                a.consume(len);
                b.consume(len);
            },
            _ => {
                proof {
                    assert(false);
                }
            },
        }
    }
    proof {
        lemma_expand_measures(ao.deep_view());
        lemma_expand_measures(bo.deep_view());
        if steps_fit(target.0) && steps_fit(target.1) {
            lemma_normalize_fits(ao.deep_view());
            lemma_normalize_fits(bo.deep_view());
        }
        lemma_text_ops_fit(ao);
        lemma_text_ops_fit(bo);
        lemma_normalizes(ao.deep_view());
        lemma_normalizes(bo.deep_view());
    }
    let left_out = TextChange::from_ops(ao);
    let right_out = TextChange::from_ops(bo);
    match (left_out, right_out) {
        (Ok(x), Ok(y)) => {
            proof {
                assert forall|base: Seq<char>|
                    #![trigger apply_ops(left@, base), apply_ops(right@, base)]
                    apply_ops(left@, base) is Some && apply_ops(right@, base) is Some implies {
                    &&& apply_ops(y@, apply_ops(left@, base)->Some_0) is Some
                    &&& apply_ops(y@, apply_ops(left@, base)->Some_0) == apply_ops(
                        x@,
                        apply_ops(right@, base)->Some_0,
                    )
                } by {
                    let ea = expand(left@);
                    let eb = expand(right@);
                    lemma_transform_run(ea, eb, tie, base);
                    lemma_normal_run(target.1, run(ea, base));
                    lemma_normal_run(target.0, run(eb, base));
                }
            }
            Ok((x, y))
        },
        _ => Err(TransformError::LengthOverflow),
    }
}

} // verus!
