//! Convergence (TP1) of transformed recursive Changes.
use crate::apply_change::{apply_edit, apply_entries, Fault};
use crate::change::TieBreak;
use crate::content::Content;
use crate::invert_law::{agree_at, entries_relate, entry_step, formed, has_key, lemma_apply_relate};
use crate::keyed::keys_sorted;
use crate::keys::{key_lt, lemma_key_lt_asymmetric, lemma_key_lt_transitive};
use crate::model::{expand, normal_units, run, transform_units};
use crate::path::SegView;
use crate::structure::{Edit, EntryEdit};
use crate::transform_change::{entries_pair_then, map_edit, text_edit, text_of_units, transform_edit, transform_entries};
use vstd::prelude::*;

verus! {

/// No List Change occurs in `e`, at any depth.
pub open spec fn list_free(e: Edit) -> bool
    decreases e,
{
    match e {
        Edit::List(_) => false,
        Edit::KeyMap(es) => forall|i: int|
            0 <= i < es.len() ==> (#[trigger] es[i]).1 is Modify ==> list_free(es[i].1->Modify_0),
        _ => true,
    }
}

/// The first entry change of `s` at key `k`.
pub open spec fn opt_at(s: Seq<(Seq<char>, EntryEdit)>, k: Seq<char>) -> Option<EntryEdit>
    decreases s.len(),
{
    if s.len() == 0 {
        None
    } else if s[0].0 == k {
        Some(s[0].1)
    } else {
        opt_at(s.drop_first(), k)
    }
}

/// What the transformed entry changes hold at one key, from what the two
/// concurrent ones hold there; `None` where the two conflict.
pub open spec fn pair_at(a: Option<EntryEdit>, b: Option<EntryEdit>, tie: TieBreak) -> Option<
    (Option<EntryEdit>, Option<EntryEdit>),
> {
    match (a, b) {
        (None, None) => Some((None, None)),
        (Some(e), None) => Some((Some(e), None)),
        (None, Some(f)) => Some((None, Some(f))),
        (Some(EntryEdit::Insert(x)), Some(EntryEdit::Insert(y))) => if tie == TieBreak::LeftFirst {
            Some((Some(EntryEdit::Modify(Edit::Replace(x))), None))
        } else {
            Some((None, Some(EntryEdit::Modify(Edit::Replace(y)))))
        },
        (Some(EntryEdit::Delete), Some(EntryEdit::Delete)) => Some((None, None)),
        (Some(EntryEdit::Delete), Some(EntryEdit::Modify(_))) => Some((Some(EntryEdit::Delete), None)),
        (Some(EntryEdit::Modify(_)), Some(EntryEdit::Delete)) => Some((None, Some(EntryEdit::Delete))),
        (Some(EntryEdit::Modify(x)), Some(EntryEdit::Modify(y))) => match transform_edit(x, y, tie) {
            Ok((p, q)) => Some(
                (
                    if p is Noop {
                        None
                    } else {
                        Some(EntryEdit::Modify(p))
                    },
                    if q is Noop {
                        None
                    } else {
                        Some(EntryEdit::Modify(q))
                    },
                ),
            ),
            Err(_) => None,
        },
        _ => None,
    }
}

proof fn lemma_opt_head(s: Seq<(Seq<char>, EntryEdit)>, i: int, k: Seq<char>)
    requires
        0 <= i < s.len(),
    ensures
        opt_at(s.subrange(i, s.len() as int), k) == if s[i].0 == k {
            Some(s[i].1)
        } else {
            opt_at(s.subrange(i + 1, s.len() as int), k)
        },
{
    assert(s.subrange(i, s.len() as int).drop_first() =~= s.subrange(i + 1, s.len() as int));
}

/// In sorted entries, a key before the entry at `j` is absent from `j` on.
proof fn lemma_absent_after(s: Seq<(Seq<char>, EntryEdit)>, j: int, k: Seq<char>)
    requires
        keys_sorted(s),
        0 <= j <= s.len(),
        j < s.len() ==> key_lt(k, s[j].0),
    ensures
        opt_at(s.subrange(j, s.len() as int), k) is None,
    decreases s.len() - j,
{
    if j < s.len() {
        lemma_opt_head(s, j, k);
        lemma_key_lt_asymmetric(k, k);
        if j + 1 < s.len() {
            assert(key_lt(s[j].0, s[j + 1].0));
            lemma_key_lt_transitive(k, s[j].0, s[j + 1].0);
        }
        lemma_absent_after(s, j + 1, k);
    } else {
        assert(s.subrange(j, s.len() as int) =~= Seq::<(Seq<char>, EntryEdit)>::empty());
    }
}

/// Prepending an optional entry change.
proof fn lemma_opt_prepend(e: Option<(Seq<char>, EntryEdit)>, s: Seq<(Seq<char>, EntryEdit)>, k: Seq<char>)
    ensures
        opt_at(crate::transform_change::opt_entries(e) + s, k) == match e {
            Some(x) => if x.0 == k {
                Some(x.1)
            } else {
                opt_at(s, k)
            },
            None => opt_at(s, k),
        },
{
    if let Some(x) = e {
        assert((seq![x] + s).drop_first() =~= s);
    } else {
        assert(Seq::<(Seq<char>, EntryEdit)>::empty() + s =~= s);
    }
}

/// The transformed entry changes hold, at every key, what `pair_at` gives
/// for the two concurrent ones.
proof fn lemma_entries_by_key(
    a: Seq<(Seq<char>, EntryEdit)>,
    i: int,
    b: Seq<(Seq<char>, EntryEdit)>,
    j: int,
    tie: TieBreak,
    k: Seq<char>,
)
    requires
        keys_sorted(a),
        keys_sorted(b),
        0 <= i <= a.len(),
        0 <= j <= b.len(),
        transform_entries(a, i, b, j, tie) is Ok,
    ensures
        pair_at(opt_at(a.subrange(i, a.len() as int), k), opt_at(b.subrange(j, b.len() as int), k), tie)
            == Some((
            opt_at(transform_entries(a, i, b, j, tie)->Ok_0.0, k),
            opt_at(transform_entries(a, i, b, j, tie)->Ok_0.1, k),
        )),
    decreases a, crate::compose_change::entries_left(a.len(), i) + crate::compose_change::entries_left(
        b.len(),
        j,
    ),
{
    let a_has = 0 <= i < a.len();
    let b_has = 0 <= j < b.len();
    if !a_has && !b_has {
        assert(a.subrange(i, a.len() as int) =~= Seq::<(Seq<char>, EntryEdit)>::empty());
        assert(b.subrange(j, b.len() as int) =~= Seq::<(Seq<char>, EntryEdit)>::empty());
    } else if a_has && (!b_has || key_lt(a[i].0, b[j].0)) {
        lemma_entries_by_key(a, i + 1, b, j, tie, k);
        let rest = transform_entries(a, i + 1, b, j, tie)->Ok_0;
        lemma_opt_prepend(Some(a[i]), rest.0, k);
        lemma_opt_prepend(None, rest.1, k);
        lemma_opt_head(a, i, k);
        if a[i].0 == k {
            lemma_absent_after(b, j, k);
            if i + 1 < a.len() {
                assert(key_lt(a[i].0, a[i + 1].0));
            }
            lemma_absent_after(a, i + 1, k);
        }
    } else if b_has && (!a_has || key_lt(b[j].0, a[i].0)) {
        lemma_entries_by_key(a, i, b, j + 1, tie, k);
        let rest = transform_entries(a, i, b, j + 1, tie)->Ok_0;
        lemma_opt_prepend(None, rest.0, k);
        lemma_opt_prepend(Some(b[j]), rest.1, k);
        lemma_opt_head(b, j, k);
        if b[j].0 == k {
            lemma_absent_after(a, i, k);
            if j + 1 < b.len() {
                assert(key_lt(b[j].0, b[j + 1].0));
            }
            lemma_absent_after(b, j + 1, k);
        }
    } else {
        crate::keys::lemma_key_lt_total(a[i].0, b[j].0);
        assert(a[i].0 == b[j].0);
        lemma_entries_by_key(a, i + 1, b, j + 1, tie, k);
        let rest = transform_entries(a, i + 1, b, j + 1, tie)->Ok_0;
        lemma_opt_head(a, i, k);
        lemma_opt_head(b, j, k);
        let key = a[i].0;
        if key == k {
            if i + 1 < a.len() {
                assert(key_lt(a[i].0, a[i + 1].0));
            }
            lemma_absent_after(a, i + 1, k);
            if j + 1 < b.len() {
                assert(key_lt(b[j].0, b[j + 1].0));
            }
            lemma_absent_after(b, j + 1, k);
        }
        let out = transform_entries(a, i, b, j, tie)->Ok_0;
        match (a[i].1, b[j].1) {
            (EntryEdit::Insert(x), EntryEdit::Insert(y)) => {
                if tie == TieBreak::LeftFirst {
                    lemma_opt_prepend(Some((key, EntryEdit::Modify(Edit::Replace(x)))), rest.0, k);
                    lemma_opt_prepend(None, rest.1, k);
                } else {
                    lemma_opt_prepend(None, rest.0, k);
                    lemma_opt_prepend(Some((key, EntryEdit::Modify(Edit::Replace(y)))), rest.1, k);
                }
            },
            (EntryEdit::Delete, EntryEdit::Delete) => {},
            (EntryEdit::Delete, EntryEdit::Modify(_)) => {
                lemma_opt_prepend(Some((key, EntryEdit::Delete)), rest.0, k);
                lemma_opt_prepend(None, rest.1, k);
            },
            (EntryEdit::Modify(_), EntryEdit::Delete) => {
                lemma_opt_prepend(None, rest.0, k);
                lemma_opt_prepend(Some((key, EntryEdit::Delete)), rest.1, k);
            },
            (EntryEdit::Modify(x), EntryEdit::Modify(y)) => {
                let pq = transform_edit(x, y, tie)->Ok_0;
                let ea = if pq.0 is Noop {
                    None
                } else {
                    Some((key, EntryEdit::Modify(pq.0)))
                };
                let eb = if pq.1 is Noop {
                    None
                } else {
                    Some((key, EntryEdit::Modify(pq.1)))
                };
                lemma_opt_prepend(ea, rest.0, k);
                lemma_opt_prepend(eb, rest.1, k);
            },
            _ => {},
        }
    }
}

/// In sorted entries, the first change at a key is the one at its index.
proof fn lemma_opt_index(s: Seq<(Seq<char>, EntryEdit)>, k: Seq<char>)
    requires
        keys_sorted(s),
    ensures
        opt_at(s, k) is None <==> !has_key(s, k),
        forall|i: int| 0 <= i < s.len() && #[trigger] s[i].0 == k ==> opt_at(s, k) == Some(s[i].1),
    decreases s.len(),
{
    if s.len() > 0 {
        let t = s.drop_first();
        assert(keys_sorted(t)) by {
            assert forall|i: int, j: int| 0 <= i < j < t.len() implies key_lt(#[trigger] t[i].0, #[trigger] t[j].0) by {
                assert(t[i] == s[i + 1] && t[j] == s[j + 1]);
            }
        }
        lemma_opt_index(t, k);
        assert forall|i: int| 0 <= i < s.len() && #[trigger] s[i].0 == k implies opt_at(s, k) == Some(s[i].1) by {
            if i > 0 {
                assert(t[i - 1] == s[i]);
                if s[0].0 == k {
                    assert(key_lt(s[0].0, s[i].0));
                    lemma_key_lt_asymmetric(k, k);
                }
            }
        }
        if has_key(s, k) && s[0].0 != k {
            let i = choose|i: int| 0 <= i < s.len() && #[trigger] s[i].0 == k;
            assert(t[i - 1].0 == k);
        }
        if has_key(t, k) {
            let i = choose|i: int| 0 <= i < t.len() && #[trigger] t[i].0 == k;
            assert(s[i + 1].0 == k);
        }
    }
}

/// What entries relate at key `k`, by the first change at `k`.
proof fn lemma_relate_at(
    es: Seq<(Seq<char>, EntryEdit)>,
    m: Map<Seq<char>, Content>,
    n: Map<Seq<char>, Content>,
    p: Seq<SegView>,
    k: Seq<char>,
)
    requires
        keys_sorted(es),
        entries_relate(es, m, n, p),
    ensures
        match opt_at(es, k) {
            Some(e) => entry_step(e, k, m, n, p),
            None => agree_at(m, n, k),
        },
{
    lemma_opt_index(es, k);
    if has_key(es, k) {
        let i = choose|i: int| 0 <= i < es.len() && #[trigger] es[i].0 == k;
        assert(entry_step(es[i].1, es[i].0, m, n, p));
    }
}

/// The Map entries of a Map Change.
pub open spec fn entries_of(e: Edit) -> Seq<(Seq<char>, EntryEdit)> {
    match e {
        Edit::KeyMap(es) => es,
        _ => Seq::empty(),
    }
}

/// Convergence of transformed recursive Changes without List Changes: where
/// `left` and `right` transform into `(x, y)` and, on one base, `left`,
/// `right`, `y` after `left` and `x` after `right` all apply, both paths give
/// the same result.
pub proof fn law_transform_converges(
    left: Edit,
    right: Edit,
    tie: TieBreak,
    x: Edit,
    y: Edit,
    base: Content,
    p: Seq<SegView>,
)
    requires
        formed(left),
        formed(right),
        formed(x),
        formed(y),
        list_free(left),
        list_free(right),
        transform_edit(left, right, tie) == Ok::<(Edit, Edit), crate::transform_change::Conflict>((x, y)),
        apply_edit(left, base, p) is Ok,
        apply_edit(right, base, p) is Ok,
        apply_edit(y, apply_edit(left, base, p)->Ok_0, p) is Ok,
        apply_edit(x, apply_edit(right, base, p)->Ok_0, p) is Ok,
    ensures
        apply_edit(y, apply_edit(left, base, p)->Ok_0, p) == apply_edit(x, apply_edit(right, base, p)->Ok_0, p),
    decreases left,
{
    match (left, right) {
        (Edit::KeyMap(es), Edit::KeyMap(fs)) => {
            let m = base->KeyMap_0;
            let ma = apply_edit(left, base, p)->Ok_0->KeyMap_0;
            let mb = apply_edit(right, base, p)->Ok_0->KeyMap_0;
            let out = transform_entries(es, 0, fs, 0, tie)->Ok_0;
            let xs = out.0;
            let ys = out.1;
            assert(x == map_edit(xs) && y == map_edit(ys));
            if xs.len() == 0 {
                assert(apply_entries(xs, mb, p) == Ok::<Map<Seq<char>, Content>, Fault>(mb));
            }
            if ys.len() == 0 {
                assert(apply_entries(ys, ma, p) == Ok::<Map<Seq<char>, Content>, Fault>(ma));
            }
            assert(keys_sorted(xs) && keys_sorted(ys));
            let r1 = apply_entries(ys, ma, p)->Ok_0;
            let r2 = apply_entries(xs, mb, p)->Ok_0;
            lemma_apply_relate(es, m, ma, p);
            lemma_apply_relate(fs, m, mb, p);
            lemma_apply_relate(ys, ma, r1, p);
            lemma_apply_relate(xs, mb, r2, p);
            assert(es.subrange(0, es.len() as int) =~= es);
            assert(fs.subrange(0, fs.len() as int) =~= fs);
            assert forall|k: Seq<char>| #[trigger] agree_at(r1, r2, k) by {
                lemma_entries_by_key(es, 0, fs, 0, tie, k);
                lemma_relate_at(es, m, ma, p, k);
                lemma_relate_at(fs, m, mb, p, k);
                lemma_relate_at(ys, ma, r1, p, k);
                lemma_relate_at(xs, mb, r2, p, k);
                let q = p.push(SegView::Key(k));
                match (opt_at(es, k), opt_at(fs, k)) {
                    (Some(EntryEdit::Modify(c)), Some(EntryEdit::Modify(d))) => {
                        lemma_opt_index(es, k);
                        lemma_opt_index(fs, k);
                        let i = choose|i: int| 0 <= i < es.len() && #[trigger] es[i].0 == k;
                        let j = choose|j: int| 0 <= j < fs.len() && #[trigger] fs[j].0 == k;
                        assert(es[i].1 == EntryEdit::Modify(c));
                        assert(fs[j].1 == EntryEdit::Modify(d));
                        assert(formed(c) && list_free(c));
                        assert(formed(d) && list_free(d));
                        let pq = transform_edit(c, d, tie)->Ok_0;
                        if !(pq.0 is Noop) {
                            lemma_opt_index(xs, k);
                            let u = choose|u: int| 0 <= u < xs.len() && #[trigger] xs[u].0 == k;
                            assert(formed(pq.0));
                        }
                        if !(pq.1 is Noop) {
                            lemma_opt_index(ys, k);
                            let u = choose|u: int| 0 <= u < ys.len() && #[trigger] ys[u].0 == k;
                            assert(formed(pq.1));
                        }
                        assert(decreases_to!(left => es));
                        assert(decreases_to!(es => es[i]));
                        assert(decreases_to!(es[i] => es[i].1));
                        assert(decreases_to!(es[i].1 => c));
                        law_transform_converges(c, d, tie, pq.0, pq.1, m[k], q);
                    },
                    _ => {},
                }
            }
            assert(r1 =~= r2) by {
                assert forall|k: Seq<char>| #[trigger] r1.contains_key(k) == r2.contains_key(k) by {
                    assert(agree_at(r1, r2, k));
                }
                assert forall|k: Seq<char>| r1.contains_key(k) implies #[trigger] r1[k] == r2[k] by {
                    assert(agree_at(r1, r2, k));
                }
            }
        },
        (Edit::Text(s), Edit::Text(t)) => {
            let str = base->Text_0;
            let u = transform_units(expand(s), expand(t), tie);
            let sa = crate::model::apply_ops(s, str)->Some_0;
            let sb = crate::model::apply_ops(t, str)->Some_0;
            crate::model::lemma_transform_run(expand(s), expand(t), tie, str);
            crate::compose_law::lemma_canonical_of(u.0);
            crate::compose_law::lemma_canonical_of(u.1);
            let v0 = text_of_units(u.0);
            let v1 = text_of_units(u.1);
            crate::model::lemma_normal_run(u.0, sb);
            crate::model::lemma_normal_run(u.1, sa);
            if v0.len() == 0 {
                assert(expand(v0) =~= Seq::<crate::model::Unit<char>>::empty());
            }
            if v1.len() == 0 {
                assert(expand(v1) =~= Seq::<crate::model::Unit<char>>::empty());
            }
        },
        _ => {},
    }
}

} // verus!
