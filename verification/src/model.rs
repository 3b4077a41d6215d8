//! The unit model of Text operation streams.
//!
//! A Text operation stream is read as a sequence of unit steps: keep one
//! scalar of the base, put one scalar into the output, or drop one scalar of
//! the base. The algebra (apply, compose, transform, invert) is specified on
//! these unit streams; chunked operations are related to them by `expand`.
use crate::change::TieBreak;
use vstd::prelude::*;

verus! {

/// One unit step of a Text operation stream.
pub enum Unit<C> {
    Keep,
    Put(C),
    Drop,
}

pub open spec fn keeps(n: nat) -> Seq<Unit<char>> {
    Seq::new(n, |i: int| Unit::Keep)
}

pub open spec fn drops(n: nat) -> Seq<Unit<char>> {
    Seq::new(n, |i: int| Unit::Drop)
}

pub open spec fn puts(s: Seq<char>) -> Seq<Unit<char>>
    decreases s.len(),
{
    if s.len() == 0 {
        seq![]
    } else {
        puts(s.drop_last()).push(Unit::Put(s.last()))
    }
}

pub proof fn lemma_puts_concat(a: Seq<char>, b: Seq<char>)
    ensures
        puts(a + b) =~= puts(a) + puts(b),
    decreases b.len(),
{
    if b.len() == 0 {
        assert(a + b =~= a);
    } else {
        assert((a + b).drop_last() =~= a + b.drop_last());
        lemma_puts_concat(a, b.drop_last());
    }
}

pub proof fn lemma_puts_len(s: Seq<char>)
    ensures
        puts(s).len() == s.len(),
        forall|i: int| 0 <= i < s.len() ==> puts(s)[i] == Unit::Put(s[i]),
    decreases s.len(),
{
    if s.len() > 0 {
        lemma_puts_len(s.drop_last());
    }
}

/// The mathematical value of one chunked Text operation.
pub enum OpView {
    Retain(nat),
    Insert(Seq<char>),
    Delete(nat),
}

/// The unit steps of one chunked operation.
pub open spec fn op_steps(op: OpView) -> Seq<Unit<char>> {
    match op {
        OpView::Retain(n) => keeps(n),
        OpView::Insert(s) => puts(s),
        OpView::Delete(n) => drops(n),
    }
}

/// The unit steps of a chunked operation stream.
pub open spec fn expand(ops: Seq<OpView>) -> Seq<Unit<char>>
    decreases ops.len(),
{
    if ops.len() == 0 {
        seq![]
    } else {
        expand(ops.drop_last()) + op_steps(ops.last())
    }
}

/// Number of base scalars a step stream consumes.
pub open spec fn consumed(x: Seq<Unit<char>>) -> nat
    decreases x.len(),
{
    if x.len() == 0 {
        0
    } else {
        consumed(x.drop_first()) + match x[0] {
            Unit::Put(_) => 0nat,
            _ => 1nat,
        }
    }
}

/// Runs a step stream over `base`; scalars past the consumed prefix are kept.
pub open spec fn run(x: Seq<Unit<char>>, base: Seq<char>) -> Seq<char>
    decreases x.len(),
{
    if x.len() == 0 {
        base
    } else {
        match x[0] {
            Unit::Keep => if base.len() > 0 {
                seq![base[0]] + run(x.drop_first(), base.drop_first())
            } else {
                run(x.drop_first(), base)
            },
            Unit::Put(c) => seq![c] + run(x.drop_first(), base),
            Unit::Drop => if base.len() > 0 {
                run(x.drop_first(), base.drop_first())
            } else {
                run(x.drop_first(), base)
            },
        }
    }
}

/// The result of applying a step stream, or `None` when it consumes past the base.
pub open spec fn apply_steps(x: Seq<Unit<char>>, base: Seq<char>) -> Option<Seq<char>> {
    if consumed(x) <= base.len() {
        Some(run(x, base))
    } else {
        None
    }
}

/// The result of applying a chunked Text operation stream to `base`.
pub open spec fn apply_ops(ops: Seq<OpView>, base: Seq<char>) -> Option<Seq<char>> {
    apply_steps(expand(ops), base)
}

pub proof fn lemma_expand_concat(a: Seq<OpView>, b: Seq<OpView>)
    ensures
        expand(a + b) =~= expand(a) + expand(b),
    decreases b.len(),
{
    if b.len() == 0 {
        assert(a + b =~= a);
    } else {
        assert((a + b).drop_last() =~= a + b.drop_last());
        lemma_expand_concat(a, b.drop_last());
    }
}

pub proof fn lemma_expand_push(a: Seq<OpView>, op: OpView)
    ensures
        expand(a.push(op)) =~= expand(a) + op_steps(op),
{
    assert(a.push(op).drop_last() =~= a);
}

pub proof fn lemma_expand_first(a: Seq<OpView>)
    requires
        a.len() > 0,
    ensures
        expand(a) =~= op_steps(a[0]) + expand(a.drop_first()),
{
    lemma_expand_concat(seq![a[0]], a.drop_first());
    assert(seq![a[0]] + a.drop_first() =~= a);
    assert(seq![a[0]].drop_last() =~= Seq::<OpView>::empty());
    assert(expand(Seq::<OpView>::empty()) =~= Seq::<Unit<char>>::empty());
    assert(expand(seq![a[0]]) =~= op_steps(a[0]));
}

pub proof fn lemma_consumed_concat(x: Seq<Unit<char>>, y: Seq<Unit<char>>)
    ensures
        consumed(x + y) == consumed(x) + consumed(y),
    decreases x.len(),
{
    if x.len() == 0 {
        assert(x + y =~= y);
    } else {
        assert((x + y).drop_first() =~= x.drop_first() + y);
        lemma_consumed_concat(x.drop_first(), y);
    }
}

pub proof fn lemma_consumed_keeps(n: nat)
    ensures
        consumed(keeps(n)) == n,
        consumed(drops(n)) == n,
    decreases n,
{
    if n > 0 {
        assert(keeps(n).drop_first() =~= keeps((n - 1) as nat));
        assert(drops(n).drop_first() =~= drops((n - 1) as nat));
        lemma_consumed_keeps((n - 1) as nat);
    }
}

pub proof fn lemma_consumed_puts(s: Seq<char>)
    ensures
        consumed(puts(s)) == 0,
    decreases s.len(),
{
    if s.len() > 0 {
        lemma_puts_concat(seq![s[0]], s.drop_first());
        assert(seq![s[0]] + s.drop_first() =~= s);
        assert(seq![s[0]].drop_last() =~= Seq::<char>::empty());
        assert(puts(Seq::<char>::empty()) =~= Seq::<Unit<char>>::empty());
        assert(puts(seq![s[0]]) =~= seq![Unit::Put(s[0])]);
        assert(puts(s).drop_first() =~= puts(s.drop_first()));
        lemma_consumed_puts(s.drop_first());
    }
}

/// Running a concatenation runs the parts one after another.
pub proof fn lemma_run_concat(x: Seq<Unit<char>>, y: Seq<Unit<char>>, base: Seq<char>)
    requires
        consumed(x) <= base.len(),
    ensures
        run(x + y, base) =~= run(x, base.take(consumed(x) as int)) + run(
            y,
            base.skip(consumed(x) as int),
        ),
    decreases x.len(),
{
    if x.len() == 0 {
        assert(x + y =~= y);
        assert(base.skip(0) =~= base);
    } else {
        let r = x.drop_first();
        assert((x + y).drop_first() =~= r + y);
        match x[0] {
            Unit::Put(c) => {
                lemma_run_concat(r, y, base);
            },
            _ => {
                let b1 = base.drop_first();
                lemma_run_concat(r, y, b1);
                assert(base.take(consumed(x) as int).drop_first() =~= b1.take(consumed(r) as int));
                assert(b1.skip(consumed(r) as int) =~= base.skip(consumed(x) as int));
            },
        }
    }
}

/// Running a stream that consumes all of `base` leaves nothing of it behind
/// beyond the produced output, and the output length is fixed by the stream.
pub proof fn lemma_run_len(x: Seq<Unit<char>>, base: Seq<char>)
    requires
        consumed(x) <= base.len(),
    ensures
        run(x, base).len() == produced(x) + base.len() - consumed(x),
    decreases x.len(),
{
    if x.len() > 0 {
        match x[0] {
            Unit::Put(c) => lemma_run_len(x.drop_first(), base),
            _ => lemma_run_len(x.drop_first(), base.drop_first()),
        }
    }
}

/// Number of output scalars a step stream produces from its consumed input.
pub open spec fn produced(x: Seq<Unit<char>>) -> nat
    decreases x.len(),
{
    if x.len() == 0 {
        0
    } else {
        produced(x.drop_first()) + match x[0] {
            Unit::Drop => 0nat,
            _ => 1nat,
        }
    }
}

} // verus!

verus! {

/// Sequential composition of unit streams: `b` runs on the output of `a`.
pub open spec fn compose_units(a: Seq<Unit<char>>, b: Seq<Unit<char>>) -> Seq<Unit<char>>
    decreases a.len() + b.len(),
{
    if b.len() > 0 && b[0] is Put {
        seq![b[0]] + compose_units(a, b.drop_first())
    } else if a.len() > 0 && a[0] is Drop {
        seq![Unit::Drop] + compose_units(a.drop_first(), b)
    } else if a.len() == 0 {
        b
    } else if b.len() == 0 {
        a
    } else {
        let r = compose_units(a.drop_first(), b.drop_first());
        match (a[0], b[0]) {
            (Unit::Put(c), Unit::Keep) => seq![Unit::Put(c)] + r,
            (Unit::Put(c), _) => r,
            (_, Unit::Keep) => seq![Unit::Keep] + r,
            (_, _) => seq![Unit::Drop] + r,
        }
    }
}

pub proof fn lemma_cons(u: Unit<char>, r: Seq<Unit<char>>)
    ensures
        (seq![u] + r).len() == r.len() + 1,
        (seq![u] + r)[0] == u,
        (seq![u] + r).drop_first() =~= r,
{
}

pub proof fn lemma_cons_char(c: char, r: Seq<char>)
    ensures
        (seq![c] + r).len() == r.len() + 1,
        (seq![c] + r)[0] == c,
        (seq![c] + r).drop_first() =~= r,
{
}

/// Running `compose_units(a, b)` equals running `a` and then `b`.
pub proof fn lemma_compose_run(a: Seq<Unit<char>>, b: Seq<Unit<char>>, base: Seq<char>)
    requires
        consumed(a) <= base.len(),
        consumed(b) <= run(a, base).len(),
    ensures
        consumed(compose_units(a, b)) <= base.len(),
        run(compose_units(a, b), base) == run(b, run(a, base)),
    decreases a.len() + b.len(),
{
    let c = compose_units(a, b);
    if b.len() > 0 && b[0] is Put {
        let b1 = b.drop_first();
        lemma_run_len(a, base);
        lemma_compose_run(a, b1, base);
        lemma_cons(b[0], compose_units(a, b1));
    } else if a.len() > 0 && a[0] is Drop {
        let a1 = a.drop_first();
        lemma_compose_run(a1, b, base.drop_first());
        lemma_cons(Unit::Drop, compose_units(a1, b));
    } else if a.len() == 0 {
    } else if b.len() == 0 {
    } else {
        let a1 = a.drop_first();
        let b1 = b.drop_first();
        let r = compose_units(a1, b1);
        match a[0] {
            Unit::Put(ch) => {
                lemma_cons_char(ch, run(a1, base));
                lemma_compose_run(a1, b1, base);
                lemma_cons(Unit::Put(ch), r);
            },
            _ => {
                let base1 = base.drop_first();
                lemma_cons_char(base[0], run(a1, base1));
                lemma_compose_run(a1, b1, base1);
                lemma_cons(Unit::Keep, r);
                lemma_cons(Unit::Drop, r);
            },
        }
    }
}

} // verus!

verus! {

pub open spec fn left_goes_first(a: Seq<Unit<char>>, b: Seq<Unit<char>>, tie: TieBreak) -> bool {
    a.len() > 0 && a[0] is Put && !(b.len() > 0 && b[0] is Put && tie == TieBreak::RightFirst)
}

/// Transforms two concurrent unit streams over one base into
/// `(a after b, b after a)`.
pub open spec fn transform_units(a: Seq<Unit<char>>, b: Seq<Unit<char>>, tie: TieBreak) -> (
    Seq<Unit<char>>,
    Seq<Unit<char>>,
)
    decreases a.len() + b.len(),
{
    if left_goes_first(a, b, tie) {
        let (x, y) = transform_units(a.drop_first(), b, tie);
        (seq![a[0]] + x, seq![Unit::Keep] + y)
    } else if b.len() > 0 && b[0] is Put {
        let (x, y) = transform_units(a, b.drop_first(), tie);
        (seq![Unit::Keep] + x, seq![b[0]] + y)
    } else if a.len() == 0 && b.len() == 0 {
        (seq![], seq![])
    } else if b.len() == 0 {
        let (x, y) = transform_units(a.drop_first(), b, tie);
        (seq![a[0]] + x, y)
    } else if a.len() == 0 {
        let (x, y) = transform_units(a, b.drop_first(), tie);
        (x, seq![b[0]] + y)
    } else {
        let (x, y) = transform_units(a.drop_first(), b.drop_first(), tie);
        match (a[0], b[0]) {
            (Unit::Drop, Unit::Drop) => (x, y),
            (Unit::Drop, _) => (seq![Unit::Drop] + x, y),
            (_, Unit::Drop) => (x, seq![Unit::Drop] + y),
            (_, _) => (seq![Unit::Keep] + x, seq![Unit::Keep] + y),
        }
    }
}

pub proof fn lemma_run_keeps(k: nat, s: Seq<char>)
    requires
        k <= s.len(),
    ensures
        run(keeps(k), s) == s,
    decreases k,
{
    if k > 0 {
        assert(keeps(k).drop_first() =~= keeps((k - 1) as nat));
        lemma_run_keeps((k - 1) as nat, s.drop_first());
        lemma_cons_char(s[0], s.drop_first());
        assert(seq![s[0]] + s.drop_first() =~= s);
    }
}

pub open spec fn put_count(x: Seq<Unit<char>>) -> nat
    decreases x.len(),
{
    if x.len() == 0 {
        0
    } else {
        put_count(x.drop_first()) + if x[0] is Put {
            1nat
        } else {
            0nat
        }
    }
}

pub proof fn lemma_put_count_le(x: Seq<Unit<char>>, base: Seq<char>)
    requires
        consumed(x) <= base.len(),
    ensures
        put_count(x) <= run(x, base).len(),
    decreases x.len(),
{
    lemma_run_len(x, base);
    lemma_put_count_produced(x);
}

pub proof fn lemma_put_count_produced(x: Seq<Unit<char>>)
    ensures
        put_count(x) <= produced(x),
    decreases x.len(),
{
    if x.len() > 0 {
        lemma_put_count_produced(x.drop_first());
    }
}

/// Against an empty stream, the left side is unchanged and the right side
/// keeps every inserted scalar.
pub proof fn lemma_transform_right_empty(a: Seq<Unit<char>>, tie: TieBreak)
    ensures
        transform_units(a, seq![], tie).0 == a,
        transform_units(a, seq![], tie).1 == keeps(put_count(a)),
    decreases a.len(),
{
    let e = Seq::<Unit<char>>::empty();
    if a.len() > 0 {
        let a1 = a.drop_first();
        lemma_transform_right_empty(a1, tie);
        lemma_cons(a[0], a1);
        assert(seq![a[0]] + a1 =~= a);
        if a[0] is Put {
            assert(seq![Unit::Keep] + keeps(put_count(a1)) =~= keeps(put_count(a)));
        }
    } else {
        assert(keeps(0) =~= e);
    }
}

pub proof fn lemma_transform_left_empty(b: Seq<Unit<char>>, tie: TieBreak)
    ensures
        transform_units(seq![], b, tie).1 == b,
        transform_units(seq![], b, tie).0 == keeps(put_count(b)),
    decreases b.len(),
{
    let e = Seq::<Unit<char>>::empty();
    if b.len() > 0 {
        let b1 = b.drop_first();
        lemma_transform_left_empty(b1, tie);
        lemma_cons(b[0], b1);
        assert(seq![b[0]] + b1 =~= b);
        if b[0] is Put {
            assert(seq![Unit::Keep] + keeps(put_count(b1)) =~= keeps(put_count(b)));
        }
    } else {
        assert(keeps(0) =~= e);
    }
}

/// TP1: both transformed execution paths are applicable and converge.
pub proof fn lemma_transform_run(
    a: Seq<Unit<char>>,
    b: Seq<Unit<char>>,
    tie: TieBreak,
    base: Seq<char>,
)
    requires
        consumed(a) <= base.len(),
        consumed(b) <= base.len(),
    ensures
        consumed(transform_units(a, b, tie).1) <= run(a, base).len(),
        consumed(transform_units(a, b, tie).0) <= run(b, base).len(),
        run(transform_units(a, b, tie).1, run(a, base)) == run(
            transform_units(a, b, tie).0,
            run(b, base),
        ),
    decreases a.len() + b.len(),
{
    let (a2, b2) = transform_units(a, b, tie);
    lemma_run_len(a, base);
    lemma_run_len(b, base);
    if left_goes_first(a, b, tie) {
        let a1 = a.drop_first();
        let (x, y) = transform_units(a1, b, tie);
        lemma_transform_run(a1, b, tie, base);
        lemma_cons(a[0], x);
        lemma_cons(Unit::Keep, y);
        let ch = a[0]->Put_0;
        lemma_cons_char(ch, run(a1, base));
        lemma_cons_char(ch, run(x, run(b, base)));
        lemma_cons_char(ch, run(y, run(a1, base)));
    } else if b.len() > 0 && b[0] is Put {
        let b1 = b.drop_first();
        let (x, y) = transform_units(a, b1, tie);
        lemma_transform_run(a, b1, tie, base);
        lemma_cons(b[0], y);
        lemma_cons(Unit::Keep, x);
        let ch = b[0]->Put_0;
        lemma_cons_char(ch, run(b1, base));
    } else if a.len() == 0 && b.len() == 0 {
    } else if b.len() == 0 {
        assert(b =~= Seq::<Unit<char>>::empty());
        lemma_transform_right_empty(a, tie);
        lemma_put_count_le(a, base);
        lemma_consumed_keeps(put_count(a));
        lemma_run_keeps(put_count(a), run(a, base));
    } else if a.len() == 0 {
        assert(a =~= Seq::<Unit<char>>::empty());
        lemma_transform_left_empty(b, tie);
        lemma_put_count_le(b, base);
        lemma_consumed_keeps(put_count(b));
        lemma_run_keeps(put_count(b), run(b, base));
    } else {
        let a1 = a.drop_first();
        let b1 = b.drop_first();
        let base1 = base.drop_first();
        let (x, y) = transform_units(a1, b1, tie);
        lemma_transform_run(a1, b1, tie, base1);
        lemma_cons(Unit::Drop, x);
        lemma_cons(Unit::Drop, y);
        lemma_cons(Unit::Keep, x);
        lemma_cons(Unit::Keep, y);
        lemma_cons_char(base[0], run(a1, base1));
        lemma_cons_char(base[0], run(b1, base1));
        lemma_run_len(a1, base1);
        lemma_run_len(b1, base1);
    }
}

} // verus!

verus! {

/// The inverse of a unit stream relative to the base it was applied to.
pub open spec fn invert_units(x: Seq<Unit<char>>, base: Seq<char>) -> Seq<Unit<char>>
    decreases x.len(),
{
    if x.len() == 0 {
        seq![]
    } else {
        match x[0] {
            Unit::Put(_) => seq![Unit::Drop] + invert_units(x.drop_first(), base),
            Unit::Keep => if base.len() > 0 {
                seq![Unit::Keep] + invert_units(x.drop_first(), base.drop_first())
            } else {
                seq![]
            },
            Unit::Drop => if base.len() > 0 {
                seq![Unit::Put(base[0])] + invert_units(x.drop_first(), base.drop_first())
            } else {
                seq![]
            },
        }
    }
}

/// Applying the inverse after the forward stream restores the base.
pub proof fn lemma_invert_run(x: Seq<Unit<char>>, base: Seq<char>)
    requires
        consumed(x) <= base.len(),
    ensures
        consumed(invert_units(x, base)) <= run(x, base).len(),
        run(invert_units(x, base), run(x, base)) == base,
    decreases x.len(),
{
    lemma_run_len(x, base);
    if x.len() > 0 {
        let x1 = x.drop_first();
        match x[0] {
            Unit::Put(ch) => {
                lemma_invert_run(x1, base);
                lemma_cons(Unit::Drop, invert_units(x1, base));
                lemma_cons_char(ch, run(x1, base));
            },
            Unit::Keep => {
                let b1 = base.drop_first();
                lemma_invert_run(x1, b1);
                lemma_cons(Unit::Keep, invert_units(x1, b1));
                lemma_cons_char(base[0], run(x1, b1));
                lemma_cons_char(base[0], b1);
                assert(seq![base[0]] + b1 =~= base);
            },
            Unit::Drop => {
                let b1 = base.drop_first();
                lemma_invert_run(x1, b1);
                lemma_cons(Unit::Put(base[0]), invert_units(x1, b1));
                lemma_cons_char(base[0], b1);
                assert(seq![base[0]] + b1 =~= base);
            },
        }
    }
}

/// Moves held-back deletions behind the insertions of the same gap.
pub open spec fn reorder(x: Seq<Unit<char>>, d: nat) -> Seq<Unit<char>>
    decreases x.len(),
{
    if x.len() == 0 {
        drops(d)
    } else {
        match x[0] {
            Unit::Put(c) => seq![Unit::Put(c)] + reorder(x.drop_first(), d),
            Unit::Drop => reorder(x.drop_first(), d + 1),
            Unit::Keep => drops(d) + seq![Unit::Keep] + reorder(x.drop_first(), 0),
        }
    }
}

/// Removes trailing keeps.
pub open spec fn trim_keeps(x: Seq<Unit<char>>) -> Seq<Unit<char>>
    decreases x.len(),
{
    if x.len() > 0 && x.last() is Keep {
        trim_keeps(x.drop_last())
    } else {
        x
    }
}

/// The canonical unit stream with the same effect as `x`.
pub open spec fn normal_units(x: Seq<Unit<char>>) -> Seq<Unit<char>> {
    trim_keeps(reorder(x, 0))
}

pub proof fn lemma_drops_split(d: nat)
    ensures
        d > 0 ==> drops(d) =~= seq![Unit::Drop] + drops((d - 1) as nat),
        drops(d + 1) =~= drops(d).push(Unit::Drop),
{
}

pub proof fn lemma_run_drops(d: nat, s: Seq<char>)
    requires
        d <= s.len(),
    ensures
        run(drops(d), s) == s.skip(d as int),
    decreases d,
{
    if d == 0 {
        assert(s.skip(0) =~= s);
    } else {
        lemma_drops_split(d);
        lemma_cons(Unit::Drop, drops((d - 1) as nat));
        lemma_run_drops((d - 1) as nat, s.drop_first());
        assert(s.drop_first().skip(d - 1) =~= s.skip(d as int));
    }
}

/// `reorder(x, d)` runs like `d` drops followed by `x`.
pub proof fn lemma_reorder_run(x: Seq<Unit<char>>, d: nat, base: Seq<char>)
    requires
        d + consumed(x) <= base.len(),
    ensures
        consumed(reorder(x, d)) == d + consumed(x),
        run(reorder(x, d), base) == run(x, base.skip(d as int)),
    decreases x.len(),
{
    lemma_consumed_keeps(d);
    if x.len() == 0 {
        lemma_run_drops(d, base);
    } else {
        let x1 = x.drop_first();
        match x[0] {
            Unit::Put(c) => {
                lemma_reorder_run(x1, d, base);
                lemma_cons(Unit::Put(c), reorder(x1, d));
            },
            Unit::Drop => {
                lemma_reorder_run(x1, d + 1, base);
                assert(base.skip(d as int).drop_first() =~= base.skip((d + 1) as int));
            },
            Unit::Keep => {
                let r = reorder(x1, 0);
                let b1 = base.skip(d as int);
                lemma_reorder_run(x1, 0, b1.drop_first());
                assert(b1.drop_first().skip(0) =~= b1.drop_first());
                lemma_consumed_concat(drops(d), seq![Unit::Keep] + r);
                lemma_cons(Unit::Keep, r);
                lemma_run_concat(drops(d), seq![Unit::Keep] + r, base);
                lemma_run_drops(d, base.take(d as int));
                assert(base.take(d as int).skip(d as int) =~= Seq::<char>::empty());
                assert(drops(d) + seq![Unit::Keep] + r =~= drops(d) + (seq![Unit::Keep] + r));
            },
        }
    }
}

pub proof fn lemma_run_one_keep(s: Seq<char>)
    requires
        s.len() > 0,
    ensures
        run(seq![Unit::Keep], s) == s,
{
    let e = Seq::<Unit<char>>::empty();
    assert(seq![Unit::Keep].drop_first() =~= e);
    assert(run(e, s.drop_first()) == s.drop_first());
    assert(seq![s[0]] + s.drop_first() =~= s);
}

/// Trailing keeps do not change the effect.
pub proof fn lemma_trim_keeps_run(x: Seq<Unit<char>>, base: Seq<char>)
    requires
        consumed(x) <= base.len(),
    ensures
        consumed(trim_keeps(x)) <= consumed(x),
        run(trim_keeps(x), base) == run(x, base),
    decreases x.len(),
{
    if x.len() > 0 && x.last() is Keep {
        let x1 = x.drop_last();
        assert(x1 + seq![Unit::Keep] =~= x);
        lemma_consumed_concat(x1, seq![Unit::Keep]);
        let e = Seq::<Unit<char>>::empty();
        assert(seq![Unit::Keep].drop_first() =~= e);
        lemma_trim_keeps_run(x1, base);
        lemma_run_concat(x1, seq![Unit::Keep], base);
        lemma_run_concat(x1, e, base);
        assert(x1 + e =~= x1);
        lemma_run_one_keep(base.skip(consumed(x1) as int));
    }
}

/// The canonical stream has the same effect wherever the raw stream applies.
pub proof fn lemma_normal_run(x: Seq<Unit<char>>, base: Seq<char>)
    requires
        consumed(x) <= base.len(),
    ensures
        consumed(normal_units(x)) <= consumed(x),
        run(normal_units(x), base) == run(x, base),
{
    lemma_reorder_run(x, 0, base);
    assert(base.skip(0) =~= base);
    lemma_trim_keeps_run(reorder(x, 0), base);
}

} // verus!

verus! {

/// The part of `reorder(x, d)` that is settled after reading `x`.
pub open spec fn emit(x: Seq<Unit<char>>, d: nat) -> Seq<Unit<char>>
    decreases x.len(),
{
    if x.len() == 0 {
        seq![]
    } else {
        match x[0] {
            Unit::Put(c) => seq![Unit::Put(c)] + emit(x.drop_first(), d),
            Unit::Drop => emit(x.drop_first(), d + 1),
            Unit::Keep => drops(d) + seq![Unit::Keep] + emit(x.drop_first(), 0),
        }
    }
}

/// The deletions still held back after reading `x`.
pub open spec fn pend(x: Seq<Unit<char>>, d: nat) -> nat
    decreases x.len(),
{
    if x.len() == 0 {
        d
    } else {
        match x[0] {
            Unit::Put(_) => pend(x.drop_first(), d),
            Unit::Drop => pend(x.drop_first(), d + 1),
            Unit::Keep => pend(x.drop_first(), 0),
        }
    }
}

pub proof fn lemma_reorder_split(x: Seq<Unit<char>>, d: nat)
    ensures
        reorder(x, d) =~= emit(x, d) + drops(pend(x, d)),
    decreases x.len(),
{
    if x.len() > 0 {
        lemma_reorder_split(x.drop_first(), match x[0] {
            Unit::Drop => d + 1,
            Unit::Keep => 0,
            _ => d,
        });
    }
}

pub proof fn lemma_emit_concat(x: Seq<Unit<char>>, y: Seq<Unit<char>>, d: nat)
    ensures
        emit(x + y, d) =~= emit(x, d) + emit(y, pend(x, d)),
        pend(x + y, d) == pend(y, pend(x, d)),
    decreases x.len(),
{
    if x.len() == 0 {
        assert(x + y =~= y);
    } else {
        assert((x + y).drop_first() =~= x.drop_first() + y);
        lemma_emit_concat(x.drop_first(), y, match x[0] {
            Unit::Drop => d + 1,
            Unit::Keep => 0,
            _ => d,
        });
    }
}

pub proof fn lemma_emit_keeps(n: nat, d: nat)
    requires
        n > 0,
    ensures
        emit(keeps(n), d) =~= drops(d) + keeps(n),
        pend(keeps(n), d) == 0,
    decreases n,
{
    assert(keeps(n).drop_first() =~= keeps((n - 1) as nat));
    if n > 1 {
        lemma_emit_keeps((n - 1) as nat, 0);
        assert(drops(0) =~= Seq::<Unit<char>>::empty());
    } else {
        let e = Seq::<Unit<char>>::empty();
        assert(keeps((n - 1) as nat) =~= e);
        assert(emit(e, 0) =~= e);
        assert(pend(e, 0) == 0);
        assert(keeps(n) =~= seq![Unit::Keep]);
    }
}

pub proof fn lemma_emit_drops(n: nat, d: nat)
    ensures
        emit(drops(n), d) =~= Seq::<Unit<char>>::empty(),
        pend(drops(n), d) == d + n,
    decreases n,
{
    if n > 0 {
        assert(drops(n).drop_first() =~= drops((n - 1) as nat));
        lemma_emit_drops((n - 1) as nat, d + 1);
    }
}

pub proof fn lemma_emit_puts(s: Seq<char>, d: nat)
    ensures
        emit(puts(s), d) =~= puts(s),
        pend(puts(s), d) == d,
    decreases s.len(),
{
    if s.len() > 0 {
        lemma_puts_concat(seq![s[0]], s.drop_first());
        assert(seq![s[0]] + s.drop_first() =~= s);
        assert(seq![s[0]].drop_last() =~= Seq::<char>::empty());
        assert(puts(Seq::<char>::empty()) =~= Seq::<Unit<char>>::empty());
        assert(puts(seq![s[0]]) =~= seq![Unit::Put(s[0])]);
        lemma_emit_puts(s.drop_first(), d);
        lemma_cons(Unit::Put(s[0]), puts(s.drop_first()));
    }
}

pub proof fn lemma_trim_keeps_suffix(x: Seq<Unit<char>>, n: nat)
    ensures
        trim_keeps(x + keeps(n)) == trim_keeps(x),
    decreases n,
{
    if n == 0 {
        assert(x + keeps(0) =~= x);
    } else {
        let y = x + keeps(n);
        assert(y.drop_last() =~= x + keeps((n - 1) as nat));
        lemma_trim_keeps_suffix(x, (n - 1) as nat);
    }
}

pub proof fn lemma_keeps_add(a: nat, b: nat)
    ensures
        keeps(a + b) =~= keeps(a) + keeps(b),
        drops(a + b) =~= drops(a) + drops(b),
{
}

} // verus!
