//! Transforming concurrent recursive Changes made on one base.
//!
//! `transform_pair(left, right, tie)` gives `(left', right')`: `left'` is
//! `left` rebased to run after `right`, and `right'` is `right` rebased to
//! run after `left`.
use crate::change::{canonical, IntChange, TieBreak};
use crate::compose_change::{
    advance, copy_entry, entries_left, head_step, lemma_sorted_push, lemma_units_from, op_size,
    op_tail, remaining, step_tail,
};
use crate::content::Value;
use crate::error::TransformError;
use crate::invert_law::{entries_formed, formed, modifies_formed};
use crate::keyed::{keyed, keyed_entries, keys_sorted};
use crate::keys::{compare_keys, key_lt, lemma_key_lt_asymmetric, lemma_key_lt_transitive, KeyOrder};
use crate::model::{expand, normal_units, transform_units, OpView};
use crate::runs::normalizes;
use crate::structure::{
    edit_kind_name, entry_edit_of, entry_edits, list_lengths_fit, list_normalize, list_steps,
    step_of, step_size, Change, ChangeKind, EntryEdit, Edit, ListChange, ListOp, ListStep, MapChange,
    MapEntryChange,
};
use crate::transform::transform_text;
use vstd::prelude::*;

verus! {

/// The mathematical form of a transformation failure.
pub enum Conflict {
    IncompatibleKinds(Seq<char>, Seq<char>),
    IncompatibleMapEntry(Seq<char>),
    LengthOverflow,
}

/// The mathematical form of a transformation error.
pub open spec fn conflict_of(e: TransformError) -> Conflict {
    match e {
        TransformError::IncompatibleKinds { left, right } => Conflict::IncompatibleKinds(left@, right@),
        TransformError::IncompatibleMapEntry(k) => Conflict::IncompatibleMapEntry(k@),
        TransformError::LengthOverflow => Conflict::LengthOverflow,
    }
}

/// The canonical Text stream with the effect of `units`.
pub open spec fn text_of_units(units: Seq<crate::model::Unit<char>>) -> Seq<OpView> {
    choose|v: Seq<OpView>| canonical(v) && expand(v) == normal_units(units)
}

/// The steps of an optional step.
pub open spec fn opt_steps(x: Option<ListStep>) -> Seq<ListStep> {
    match x {
        Some(s) => seq![s],
        None => seq![],
    }
}

/// The entries of an optional entry change.
pub open spec fn opt_entries(x: Option<(Seq<char>, EntryEdit)>) -> Seq<(Seq<char>, EntryEdit)> {
    match x {
        Some(e) => seq![e],
        None => seq![],
    }
}

/// Optional steps placed before the two rests of transformed streams.
pub open spec fn pair_then(
    x: Option<ListStep>,
    y: Option<ListStep>,
    r: Result<(Seq<ListStep>, Seq<ListStep>), Conflict>,
) -> Result<(Seq<ListStep>, Seq<ListStep>), Conflict> {
    match r {
        Ok((p, q)) => Ok((opt_steps(x) + p, opt_steps(y) + q)),
        Err(f) => Err(f),
    }
}

/// Optional entries placed before the two rests of transformed entries.
pub open spec fn entries_pair_then(
    x: Option<(Seq<char>, EntryEdit)>,
    y: Option<(Seq<char>, EntryEdit)>,
    r: Result<(Seq<(Seq<char>, EntryEdit)>, Seq<(Seq<char>, EntryEdit)>), Conflict>,
) -> Result<(Seq<(Seq<char>, EntryEdit)>, Seq<(Seq<char>, EntryEdit)>), Conflict> {
    match r {
        Ok((p, q)) => Ok((opt_entries(x) + p, opt_entries(y) + q)),
        Err(f) => Err(f),
    }
}

/// The step a transformed modification becomes: a retain of one when it
/// changes nothing.
pub open spec fn modify_or_retain(e: Edit) -> ListStep {
    if e is Noop {
        ListStep::Retain(1)
    } else {
        ListStep::Modify(e)
    }
}

/// The steps of `a` from `(i, oa)` and of `b` from `(j, ob)` transformed
/// against each other, before normalization.
pub open spec fn transform_steps(
    a: Seq<ListStep>,
    i: int,
    oa: nat,
    b: Seq<ListStep>,
    j: int,
    ob: nat,
    tie: TieBreak,
) -> Result<(Seq<ListStep>, Seq<ListStep>), Conflict>
    decreases a, remaining(a, i, oa) + remaining(b, j, ob),
{
    let a_has = 0 <= i < a.len() && oa <= step_size(a[i]);
    let b_has = 0 <= j < b.len() && ob <= step_size(b[j]);
    if a_has && oa == step_size(a[i]) {
        proof {
            lemma_units_from(a, i);
        }
        transform_steps(a, i + 1, 0, b, j, ob, tie)
    } else if b_has && ob == step_size(b[j]) {
        proof {
            lemma_units_from(b, j);
        }
        transform_steps(a, i, oa, b, j + 1, 0, tie)
    } else if a_has && a[i] is Insert && !(b_has && b[j] is Insert && tie == TieBreak::RightFirst) {
        proof {
            lemma_units_from(a, i);
        }
        pair_then(
            Some(head_step(a, i, oa)),
            Some(ListStep::Retain(step_size(head_step(a, i, oa)))),
            transform_steps(a, i + 1, 0, b, j, ob, tie),
        )
    } else if b_has && b[j] is Insert {
        proof {
            lemma_units_from(b, j);
        }
        pair_then(
            Some(ListStep::Retain(step_size(head_step(b, j, ob)))),
            Some(head_step(b, j, ob)),
            transform_steps(a, i, oa, b, j + 1, 0, tie),
        )
    } else if !a_has && !b_has {
        Ok((seq![], seq![]))
    } else if !b_has {
        proof {
            lemma_units_from(a, i);
        }
        pair_then(Some(head_step(a, i, oa)), None, transform_steps(a, i + 1, 0, b, j, ob, tie))
    } else if !a_has {
        proof {
            lemma_units_from(b, j);
        }
        pair_then(None, Some(head_step(b, j, ob)), transform_steps(a, i, oa, b, j + 1, 0, tie))
    } else {
        let sa = (step_size(a[i]) - oa) as nat;
        let sb = (step_size(b[j]) - ob) as nat;
        let len: nat = if sa <= sb { sa } else { sb };
        let (i2, oa2) = advance(a, i, oa, len);
        let (j2, ob2) = advance(b, j, ob, len);
        proof {
            lemma_units_from(a, i);
            lemma_units_from(b, j);
        }
        let rest = transform_steps(a, i2, oa2, b, j2, ob2, tie);
        match (head_step(a, i, oa), head_step(b, j, ob)) {
            (ListStep::Delete(_), ListStep::Delete(_)) => rest,
            (ListStep::Delete(_), ListStep::Retain(_)) => pair_then(Some(ListStep::Delete(len)), None, rest),
            (ListStep::Delete(_), ListStep::Modify(_)) => pair_then(Some(ListStep::Delete(1)), None, rest),
            (ListStep::Retain(_), ListStep::Delete(_)) => pair_then(None, Some(ListStep::Delete(len)), rest),
            (ListStep::Modify(_), ListStep::Delete(_)) => pair_then(None, Some(ListStep::Delete(1)), rest),
            (ListStep::Retain(_), ListStep::Retain(_)) => pair_then(
                Some(ListStep::Retain(len)),
                Some(ListStep::Retain(len)),
                rest,
            ),
            (ListStep::Modify(c), ListStep::Retain(_)) => pair_then(
                Some(ListStep::Modify(c)),
                Some(ListStep::Retain(1)),
                rest,
            ),
            (ListStep::Retain(_), ListStep::Modify(c)) => pair_then(
                Some(ListStep::Retain(1)),
                Some(ListStep::Modify(c)),
                rest,
            ),
            (ListStep::Modify(x), ListStep::Modify(y)) => match transform_edit(x, y, tie) {
                Ok((p, q)) => pair_then(Some(modify_or_retain(p)), Some(modify_or_retain(q)), rest),
                Err(f) => Err(f),
            },
            _ => Ok((seq![], seq![])),
        }
    }
}

/// Map entry changes of `a` from position `i` and of `b` from position `j`
/// transformed against each other, keys in increasing order.
pub open spec fn transform_entries(
    a: Seq<(Seq<char>, EntryEdit)>,
    i: int,
    b: Seq<(Seq<char>, EntryEdit)>,
    j: int,
    tie: TieBreak,
) -> Result<(Seq<(Seq<char>, EntryEdit)>, Seq<(Seq<char>, EntryEdit)>), Conflict>
    decreases a, entries_left(a.len(), i) + entries_left(b.len(), j),
{
    let a_has = 0 <= i < a.len();
    let b_has = 0 <= j < b.len();
    if !a_has && !b_has {
        Ok((seq![], seq![]))
    } else if a_has && (!b_has || key_lt(a[i].0, b[j].0)) {
        entries_pair_then(Some(a[i]), None, transform_entries(a, i + 1, b, j, tie))
    } else if b_has && (!a_has || key_lt(b[j].0, a[i].0)) {
        entries_pair_then(None, Some(b[j]), transform_entries(a, i, b, j + 1, tie))
    } else {
        let k = a[i].0;
        let rest = transform_entries(a, i + 1, b, j + 1, tie);
        match (a[i].1, b[j].1) {
            (EntryEdit::Insert(x), EntryEdit::Insert(y)) => if tie == TieBreak::LeftFirst {
                entries_pair_then(Some((k, EntryEdit::Modify(Edit::Replace(x)))), None, rest)
            } else {
                entries_pair_then(None, Some((k, EntryEdit::Modify(Edit::Replace(y)))), rest)
            },
            (EntryEdit::Delete, EntryEdit::Delete) => rest,
            (EntryEdit::Delete, EntryEdit::Modify(_)) => entries_pair_then(
                Some((k, EntryEdit::Delete)),
                None,
                rest,
            ),
            (EntryEdit::Modify(_), EntryEdit::Delete) => entries_pair_then(
                None,
                Some((k, EntryEdit::Delete)),
                rest,
            ),
            (EntryEdit::Modify(x), EntryEdit::Modify(y)) => match transform_edit(x, y, tie) {
                Ok((p, q)) => entries_pair_then(
                    if p is Noop {
                        None
                    } else {
                        Some((k, EntryEdit::Modify(p)))
                    },
                    if q is Noop {
                        None
                    } else {
                        Some((k, EntryEdit::Modify(q)))
                    },
                    rest,
                ),
                Err(f) => Err(f),
            },
            _ => Err(Conflict::IncompatibleMapEntry(k)),
        }
    }
}

/// A Map Change with these entries; none is the identity.
pub open spec fn map_edit(es: Seq<(Seq<char>, EntryEdit)>) -> Edit {
    if es.len() == 0 {
        Edit::Noop
    } else {
        Edit::KeyMap(es)
    }
}

/// A List Change with these steps; none is the identity.
pub open spec fn list_edit(s: Seq<ListStep>) -> Edit {
    if s.len() == 0 {
        Edit::Noop
    } else {
        Edit::List(s)
    }
}

/// A Text Change with these operations; none is the identity.
pub open spec fn text_edit(s: Seq<OpView>) -> Edit {
    if s.len() == 0 {
        Edit::Noop
    } else {
        Edit::Text(s)
    }
}

/// `(a', b')` for concurrent Changes `a` and `b` on one base: `a'` runs
/// after `b` and `b'` runs after `a`.
pub open spec fn transform_edit(a: Edit, b: Edit, tie: TieBreak) -> Result<(Edit, Edit), Conflict>
    decreases a, 0nat,
{
    match (a, b) {
        (Edit::Noop, _) => Ok((Edit::Noop, b)),
        (_, Edit::Noop) => Ok((a, Edit::Noop)),
        (Edit::Replace(_), Edit::Replace(_)) => if tie == TieBreak::LeftFirst {
            Ok((a, Edit::Noop))
        } else {
            Ok((Edit::Noop, b))
        },
        (Edit::Replace(_), _) => Ok((a, Edit::Noop)),
        (_, Edit::Replace(_)) => Ok((Edit::Noop, b)),
        (Edit::Int(_), Edit::Int(_)) => Ok((a, b)),
        (Edit::KeyMap(es), Edit::KeyMap(fs)) => match transform_entries(es, 0, fs, 0, tie) {
            Ok((x, y)) => Ok((map_edit(x), map_edit(y))),
            Err(f) => Err(f),
        },
        (Edit::List(x), Edit::List(y)) => match transform_steps(x, 0, 0, y, 0, 0, tie) {
            Ok((p, q)) => match (list_normalize(p), list_normalize(q)) {
                (Some(n), Some(m)) => if list_lengths_fit(n) && list_lengths_fit(m) {
                    Ok((list_edit(n), list_edit(m)))
                } else {
                    Err(Conflict::LengthOverflow)
                },
                _ => Err(Conflict::LengthOverflow),
            },
            Err(f) => Err(f),
        },
        (Edit::Text(s), Edit::Text(t)) => {
            let u = transform_units(expand(s), expand(t), tie);
            if normalizes(u.0) && normalizes(u.1) {
                Ok((text_edit(text_of_units(u.0)), text_edit(text_of_units(u.1))))
            } else {
                Err(Conflict::LengthOverflow)
            }
        },
        _ => Err(Conflict::IncompatibleKinds(edit_kind_name(a), edit_kind_name(b))),
    }
}

/// Steps `front` placed before the two rests of transformed streams.
pub open spec fn pair_prefixed(
    front_a: Seq<ListStep>,
    front_b: Seq<ListStep>,
    r: Result<(Seq<ListStep>, Seq<ListStep>), Conflict>,
) -> Result<(Seq<ListStep>, Seq<ListStep>), Conflict> {
    match r {
        Ok((p, q)) => Ok((front_a + p, front_b + q)),
        Err(f) => Err(f),
    }
}

/// Entries placed before the two rests of transformed entries.
pub open spec fn entries_pair_prefixed(
    front_a: Seq<(Seq<char>, EntryEdit)>,
    front_b: Seq<(Seq<char>, EntryEdit)>,
    r: Result<(Seq<(Seq<char>, EntryEdit)>, Seq<(Seq<char>, EntryEdit)>), Conflict>,
) -> Result<(Seq<(Seq<char>, EntryEdit)>, Seq<(Seq<char>, EntryEdit)>), Conflict> {
    match r {
        Ok((p, q)) => Ok((front_a + p, front_b + q)),
        Err(f) => Err(f),
    }
}

proof fn lemma_pair_prefixed(
    fa: Seq<ListStep>,
    fb: Seq<ListStep>,
    x: Option<ListStep>,
    y: Option<ListStep>,
    r: Result<(Seq<ListStep>, Seq<ListStep>), Conflict>,
)
    ensures
        pair_prefixed(fa, fb, pair_then(x, y, r)) == pair_prefixed(fa + opt_steps(x), fb + opt_steps(y), r),
        pair_prefixed(Seq::empty(), Seq::empty(), r) == r,
{
    if r is Ok {
        let (p, q) = r->Ok_0;
        assert(fa + (opt_steps(x) + p) =~= (fa + opt_steps(x)) + p);
        assert(fb + (opt_steps(y) + q) =~= (fb + opt_steps(y)) + q);
        assert(Seq::<ListStep>::empty() + p =~= p);
        assert(Seq::<ListStep>::empty() + q =~= q);
    }
}

proof fn lemma_entries_pair_prefixed(
    fa: Seq<(Seq<char>, EntryEdit)>,
    fb: Seq<(Seq<char>, EntryEdit)>,
    x: Option<(Seq<char>, EntryEdit)>,
    y: Option<(Seq<char>, EntryEdit)>,
    r: Result<(Seq<(Seq<char>, EntryEdit)>, Seq<(Seq<char>, EntryEdit)>), Conflict>,
)
    ensures
        entries_pair_prefixed(fa, fb, entries_pair_then(x, y, r)) == entries_pair_prefixed(
            fa + opt_entries(x),
            fb + opt_entries(y),
            r,
        ),
        entries_pair_prefixed(Seq::empty(), Seq::empty(), r) == r,
{
    if r is Ok {
        let (p, q) = r->Ok_0;
        assert(fa + (opt_entries(x) + p) =~= (fa + opt_entries(x)) + p);
        assert(fb + (opt_entries(y) + q) =~= (fb + opt_entries(y)) + q);
        assert(Seq::<(Seq<char>, EntryEdit)>::empty() + p =~= p);
        assert(Seq::<(Seq<char>, EntryEdit)>::empty() + q =~= q);
    }
}

/// Transforms concurrent Changes made on one base into
/// `(left after right, right after left)`: concurrent insertions at one
/// position are ordered by `tie`, and of two competing replacements or Map
/// insertions at one key the one `tie` favours wins.
///
/// Fails when the kinds cannot describe concurrent edits of one Value, when
/// two Map entry changes at one key cannot share a base, and when a
/// canonical result overflows a length limit.
pub fn transform_pair(left: &Change, right: &Change, tie: TieBreak) -> (r: Result<
    (Change, Change),
    TransformError,
>)
    ensures
        match transform_edit(left@, right@, tie) {
            Ok((x, y)) => r is Ok && r->Ok_0.0@ == x && r->Ok_0.1@ == y,
            Err(f) => r is Err && conflict_of(r->Err_0) == f,
        },
        r is Ok ==> formed(r->Ok_0.0@) && formed(r->Ok_0.1@),
    decreases left@,
{
    match (left.kind(), right.kind()) {
        (ChangeKind::Noop, _) => Ok((Change::noop(), right.clone())),
        (_, ChangeKind::Noop) => Ok((left.clone(), Change::noop())),
        (ChangeKind::Replace(_), ChangeKind::Replace(_)) => match tie {
            TieBreak::LeftFirst => Ok((left.clone(), Change::noop())),
            TieBreak::RightFirst => Ok((Change::noop(), right.clone())),
        },
        (ChangeKind::Replace(_), _) => Ok((left.clone(), Change::noop())),
        (_, ChangeKind::Replace(_)) => Ok((Change::noop(), right.clone())),
        (ChangeKind::Int(_), ChangeKind::Int(_)) => Ok((left.clone(), right.clone())),
        (ChangeKind::KeyMap(a), ChangeKind::KeyMap(b)) => transform_map(a, b, tie),
        (ChangeKind::List(a), ChangeKind::List(b)) => transform_list(a, b, tie),
        (ChangeKind::Text(a), ChangeKind::Text(b)) => match transform_text(a, b, tie) {
            Ok((x, y)) => {
                proof {
                    let u = transform_units(expand(a@), expand(b@), tie);
                    assert(canonical(x@) && expand(x@) == normal_units(u.0));
                    assert(canonical(y@) && expand(y@) == normal_units(u.1));
                    crate::laws::lemma_canonical_unique(x@, text_of_units(u.0));
                    crate::laws::lemma_canonical_unique(y@, text_of_units(u.1));
                }
                Ok((Change::from_text(x), Change::from_text(y)))
            },
            Err(e) => Err(e),
        },
        _ => Err(
            TransformError::IncompatibleKinds { left: left.kind_name(), right: right.kind_name() },
        ),
    }
}

/// Keys of an output stay strictly increasing and below the keys still to
/// merge.
pub open spec fn output_ordered(
    out: Seq<(String, MapEntryChange)>,
    ea: Seq<(Seq<char>, EntryEdit)>,
    i: int,
    eb: Seq<(Seq<char>, EntryEdit)>,
    j: int,
) -> bool {
    &&& keys_sorted(keyed_entries(out))
    &&& out.len() > 0 && i < ea.len() ==> key_lt(out.last().0@, ea[i].0)
    &&& out.len() > 0 && j < eb.len() ==> key_lt(out.last().0@, eb[j].0)
}

/// Appending an entry at the smallest key still to merge keeps an output
/// ordered for the position after that key.
proof fn lemma_output_push(
    out: Seq<(String, MapEntryChange)>,
    e: (String, MapEntryChange),
    ea: Seq<(Seq<char>, EntryEdit)>,
    i: int,
    eb: Seq<(Seq<char>, EntryEdit)>,
    j: int,
    i2: int,
    j2: int,
)
    requires
        output_ordered(out, ea, i, eb, j),
        keys_sorted(ea),
        keys_sorted(eb),
        0 <= i <= i2 <= ea.len(),
        0 <= j <= j2 <= eb.len(),
        i2 <= i + 1,
        j2 <= j + 1,
        i2 + j2 > i + j,
        i2 == i + 1 ==> e.0@ == ea[i].0,
        j2 == j + 1 ==> e.0@ == eb[j].0,
        i2 == i && i < ea.len() ==> key_lt(e.0@, ea[i].0),
        j2 == j && j < eb.len() ==> key_lt(e.0@, eb[j].0),
    ensures
        output_ordered(out.push(e), ea, i2, eb, j2),
{
    let k = e.0@;
    if out.len() > 0 {
        if i2 == i + 1 {
            assert(key_lt(out.last().0@, ea[i].0));
        } else {
            assert(j2 == j + 1);
            assert(key_lt(out.last().0@, eb[j].0));
        }
    }
    lemma_sorted_push(keyed_entries(out), keyed(e));
    assert(keyed_entries(out.push(e)) =~= keyed_entries(out).push(keyed(e)));
    if i2 < ea.len() {
        if i2 == i + 1 {
            assert(key_lt(ea[i].0, ea[i2].0));
        }
    }
    if j2 < eb.len() {
        if j2 == j + 1 {
            assert(key_lt(eb[j].0, eb[j2].0));
        }
    }
}

/// Moving past keys that add nothing to an output keeps it ordered.
proof fn lemma_output_skip(
    out: Seq<(String, MapEntryChange)>,
    ea: Seq<(Seq<char>, EntryEdit)>,
    i: int,
    eb: Seq<(Seq<char>, EntryEdit)>,
    j: int,
    i2: int,
    j2: int,
)
    requires
        output_ordered(out, ea, i, eb, j),
        keys_sorted(ea),
        keys_sorted(eb),
        0 <= i <= i2 <= ea.len(),
        0 <= j <= j2 <= eb.len(),
        i2 <= i + 1,
        j2 <= j + 1,
        i2 == i + 1 && i2 < ea.len() ==> i < ea.len(),
        i2 == i + 1 && j2 == j && j < eb.len() ==> key_lt(ea[i].0, eb[j].0),
        j2 == j + 1 && i2 == i && i < ea.len() ==> key_lt(eb[j].0, ea[i].0),
        i2 == i + 1 && j2 == j + 1 ==> ea[i].0 == eb[j].0,
    ensures
        output_ordered(out, ea, i2, eb, j2),
{
    if out.len() > 0 {
        let last = out.last().0@;
        if i2 < ea.len() {
            if i2 == i + 1 {
                assert(key_lt(ea[i].0, ea[i2].0));
                lemma_key_lt_transitive(last, ea[i].0, ea[i2].0);
            }
        }
        if j2 < eb.len() {
            if j2 == j + 1 {
                assert(key_lt(eb[j].0, eb[j2].0));
                lemma_key_lt_transitive(last, eb[j].0, eb[j2].0);
            } else if i2 == i + 1 {
                assert(key_lt(ea[i].0, eb[j].0));
                lemma_key_lt_transitive(last, ea[i].0, eb[j].0);
            }
        }
        if i2 < ea.len() && i2 == i && j2 == j + 1 {
            assert(key_lt(eb[j].0, ea[i].0));
        }
    }
}

/// Transforms Map entry changes key by key, in key order.
fn transform_map(left: &MapChange, right: &MapChange, tie: TieBreak) -> (r: Result<
    (Change, Change),
    TransformError,
>)
    ensures
        match transform_entries(left@, 0, right@, 0, tie) {
            Ok((x, y)) => r is Ok && r->Ok_0.0@ == map_edit(x) && r->Ok_0.1@ == map_edit(y),
            Err(f) => r is Err && conflict_of(r->Err_0) == f,
        },
        r is Ok ==> formed(r->Ok_0.0@) && formed(r->Ok_0.1@),
    decreases left@,
{
    let a = left.entries();
    let b = right.entries();
    let ghost ea = left@;
    let ghost eb = right@;
    let a_len = a.len();
    let b_len = b.len();
    let mut ao: Vec<(String, MapEntryChange)> = Vec::new();
    let mut bo: Vec<(String, MapEntryChange)> = Vec::new();
    let mut i: usize = 0;
    let mut j: usize = 0;
    proof {
        assert(entry_edits(ao@) =~= Seq::<(Seq<char>, EntryEdit)>::empty());
        assert(entry_edits(bo@) =~= Seq::<(Seq<char>, EntryEdit)>::empty());
        assert(keyed_entries(ao@) =~= Seq::<(Seq<char>, MapEntryChange)>::empty());
        assert(keyed_entries(bo@) =~= Seq::<(Seq<char>, MapEntryChange)>::empty());
        lemma_entries_pair_prefixed(Seq::empty(), Seq::empty(), None, None, transform_entries(ea, 0, eb, 0, tie));
    }
    while i < a_len || j < b_len
        invariant
            entry_edits(a@) == ea,
            ea == left@,
            entry_edits(b@) == eb,
            eb == right@,
            keys_sorted(ea),
            keys_sorted(eb),
            a@.len() == a_len,
            b@.len() == b_len,
            i <= a_len,
            j <= b_len,
            entries_pair_prefixed(
                entry_edits(ao@),
                entry_edits(bo@),
                transform_entries(ea, i as int, eb, j as int, tie),
            ) == transform_entries(ea, 0, eb, 0, tie),
            output_ordered(ao@, ea, i as int, eb, j as int),
            output_ordered(bo@, ea, i as int, eb, j as int),
            entries_formed(entry_edits(ao@)),
            entries_formed(entry_edits(bo@)),
        decreases entries_left(ea.len(), i as int) + entries_left(eb.len(), j as int),
    {
        let ghost fa = entry_edits(ao@);
        let ghost fb = entry_edits(bo@);
        let ghost ao0 = ao@;
        let ghost bo0 = bo@;
        let ghost cur = transform_entries(ea, i as int, eb, j as int, tie);
        let order: u8 = if i >= a_len {
            1
        } else if j >= b_len {
            0
        } else {
            match compare_keys(a[i].0.as_str(), b[j].0.as_str()) {
                KeyOrder::Less => 0,
                KeyOrder::Greater => 1,
                KeyOrder::Equal => 2,
            }
        };
        proof {
            if i < a_len {
                assert(ea[i as int] == (a@[i as int].0@, entry_edit_of(a@[i as int].1)));
            }
            if j < b_len {
                assert(eb[j as int] == (b@[j as int].0@, entry_edit_of(b@[j as int].1)));
            }
            if i < a_len && j < b_len {
                lemma_key_lt_asymmetric(ea[i as int].0, eb[j as int].0);
            }
        }
        if order == 0 {
            let entry = copy_entry(&a[i].1);
            let key = a[i].0.clone();
            proof {
                assert(cur == entries_pair_then(
                    Some(ea[i as int]),
                    None,
                    transform_entries(ea, i + 1, eb, j as int, tie),
                ));
                lemma_entries_pair_prefixed(
                    fa,
                    fb,
                    Some(ea[i as int]),
                    None,
                    transform_entries(ea, i + 1, eb, j as int, tie),
                );
                lemma_output_push(ao0, (key, entry), ea, i as int, eb, j as int, i + 1, j as int);
                lemma_output_skip(bo0, ea, i as int, eb, j as int, i + 1, j as int);
                assert(entry_edits(ao0.push((key, entry))) =~= fa + opt_entries(Some(ea[i as int])));
                assert(fb + opt_entries(None) =~= fb);
            }
            ao.push((key, entry));
            i = i + 1;
        } else if order == 1 {
            let entry = copy_entry(&b[j].1);
            let key = b[j].0.clone();
            proof {
                assert(cur == entries_pair_then(
                    None,
                    Some(eb[j as int]),
                    transform_entries(ea, i as int, eb, j + 1, tie),
                ));
                lemma_entries_pair_prefixed(
                    fa,
                    fb,
                    None,
                    Some(eb[j as int]),
                    transform_entries(ea, i as int, eb, j + 1, tie),
                );
                lemma_output_push(bo0, (key, entry), ea, i as int, eb, j as int, i as int, j + 1);
                lemma_output_skip(ao0, ea, i as int, eb, j as int, i as int, j + 1);
                assert(entry_edits(bo0.push((key, entry))) =~= fb + opt_entries(Some(eb[j as int])));
                assert(fa + opt_entries(None) =~= fa);
            }
            bo.push((key, entry));
            j = j + 1;
        } else {
            let ghost k = ea[i as int].0;
            let ghost rest = transform_entries(ea, i + 1, eb, j + 1, tie);
            proof {
                assert(eb[j as int].0 == k);
                lemma_key_lt_asymmetric(k, k);
            }
            let pair: (Option<MapEntryChange>, Option<MapEntryChange>) = match (&a[i].1, &b[j].1) {
                (MapEntryChange::Insert(x), MapEntryChange::Insert(y)) => match tie {
                    TieBreak::LeftFirst => (
                        Some(MapEntryChange::Modify(Change::replace(x.deep_copy()))),
                        None,
                    ),
                    TieBreak::RightFirst => (
                        None,
                        Some(MapEntryChange::Modify(Change::replace(y.deep_copy()))),
                    ),
                },
                (MapEntryChange::Delete, MapEntryChange::Delete) => (None, None),
                (MapEntryChange::Delete, MapEntryChange::Modify(_)) => (Some(MapEntryChange::Delete), None),
                (MapEntryChange::Modify(_), MapEntryChange::Delete) => (None, Some(MapEntryChange::Delete)),
                (MapEntryChange::Modify(x), MapEntryChange::Modify(y)) => {
                    proof {
                        assert(decreases_to!(ea => ea[i as int]));
                        assert(decreases_to!(ea[i as int] => ea[i as int].1));
                        assert(decreases_to!(ea[i as int].1 => ea[i as int].1->Modify_0));
                    }
                    match transform_pair(x, y, tie) {
                        Ok((p, q)) => (
                            if p.is_noop() {
                                None
                            } else {
                                Some(MapEntryChange::Modify(p))
                            },
                            if q.is_noop() {
                                None
                            } else {
                                Some(MapEntryChange::Modify(q))
                            },
                        ),
                        Err(e) => {
                            return Err(e);
                        },
                    }
                },
                _ => {
                    return Err(TransformError::IncompatibleMapEntry(a[i].0.clone()));
                },
            };
            let (pa, pb) = pair;
            let ghost xa: Option<(Seq<char>, EntryEdit)> = if pa is Some {
                Some((k, entry_edit_of(pa->Some_0)))
            } else {
                None
            };
            let ghost xb: Option<(Seq<char>, EntryEdit)> = if pb is Some {
                Some((k, entry_edit_of(pb->Some_0)))
            } else {
                None
            };
            proof {
                assert(cur == entries_pair_then(xa, xb, rest));
                lemma_entries_pair_prefixed(fa, fb, xa, xb, rest);
            }
            match pa {
                Some(e) => {
                    let key = a[i].0.clone();
                    proof {
                        lemma_output_push(ao0, (key, e), ea, i as int, eb, j as int, i + 1, j + 1);
                        assert(entry_edits(ao0.push((key, e))) =~= fa + opt_entries(xa));
                    }
                    ao.push((key, e));
                },
                None => {
                    proof {
                        lemma_output_skip(ao0, ea, i as int, eb, j as int, i + 1, j + 1);
                        assert(fa + opt_entries(xa) =~= fa);
                    }
                },
            }
            match pb {
                Some(e) => {
                    let key = a[i].0.clone();
                    proof {
                        lemma_output_push(bo0, (key, e), ea, i as int, eb, j as int, i + 1, j + 1);
                        assert(entry_edits(bo0.push((key, e))) =~= fb + opt_entries(xb));
                    }
                    bo.push((key, e));
                },
                None => {
                    proof {
                        lemma_output_skip(bo0, ea, i as int, eb, j as int, i + 1, j + 1);
                        assert(fb + opt_entries(xb) =~= fb);
                    }
                },
            }
            i = i + 1;
            j = j + 1;
        }
        proof {
            assert forall|x: int| 0 <= x < ao@.len() implies (#[trigger] entry_edits(ao@)[x]).1
                is Modify ==> formed(entry_edits(ao@)[x].1->Modify_0) by {
                if x < ao0.len() {
                    assert(ao@[x] == ao0[x]);
                    assert(entry_edits(ao@)[x] == fa[x]);
                }
            }
            assert forall|x: int| 0 <= x < bo@.len() implies (#[trigger] entry_edits(bo@)[x]).1
                is Modify ==> formed(entry_edits(bo@)[x].1->Modify_0) by {
                if x < bo0.len() {
                    assert(bo@[x] == bo0[x]);
                    assert(entry_edits(bo@)[x] == fb[x]);
                }
            }
        }
    }
    proof {
        assert(transform_entries(ea, i as int, eb, j as int, tie) == Ok::<
            (Seq<(Seq<char>, EntryEdit)>, Seq<(Seq<char>, EntryEdit)>),
            Conflict,
        >((seq![], seq![])));
        assert(entry_edits(ao@) + Seq::<(Seq<char>, EntryEdit)>::empty() =~= entry_edits(ao@));
        assert(entry_edits(bo@) + Seq::<(Seq<char>, EntryEdit)>::empty() =~= entry_edits(bo@));
    }
    Ok((Change::from_map(MapChange::from_sorted(ao)), Change::from_map(MapChange::from_sorted(bo))))
}

/// Transforms List operation streams by walking both at once.
#[verifier::rlimit(60)]
fn transform_list(left: &ListChange, right: &ListChange, tie: TieBreak) -> (r: Result<
    (Change, Change),
    TransformError,
>)
    ensures
        match transform_steps(left@, 0, 0, right@, 0, 0, tie) {
            Ok((p, q)) => match (list_normalize(p), list_normalize(q)) {
                (Some(n), Some(m)) => if list_lengths_fit(n) && list_lengths_fit(m) {
                    r is Ok && r->Ok_0.0@ == list_edit(n) && r->Ok_0.1@ == list_edit(m)
                } else {
                    r == Err::<(Change, Change), TransformError>(TransformError::LengthOverflow)
                },
                _ => r == Err::<(Change, Change), TransformError>(TransformError::LengthOverflow),
            },
            Err(f) => r is Err && conflict_of(r->Err_0) == f,
        },
        r is Ok ==> formed(r->Ok_0.0@) && formed(r->Ok_0.1@),
    decreases left@,
{
    let a = left.ops();
    let b = right.ops();
    let ghost sa = left@;
    let ghost sb = right@;
    let a_len = a.len();
    let b_len = b.len();
    let mut ao: Vec<ListOp> = Vec::new();
    let mut bo: Vec<ListOp> = Vec::new();
    let mut i: usize = 0;
    let mut oa: usize = 0;
    let mut j: usize = 0;
    let mut ob: usize = 0;
    proof {
        assert(list_steps(ao@) =~= Seq::<ListStep>::empty());
        assert(list_steps(bo@) =~= Seq::<ListStep>::empty());
        lemma_pair_prefixed(Seq::empty(), Seq::empty(), None, None, transform_steps(sa, 0, 0, sb, 0, 0, tie));
    }
    while i < a_len || j < b_len
        invariant
            list_steps(a@) == sa,
            sa == left@,
            list_steps(b@) == sb,
            sb == right@,
            a@.len() == a_len,
            b@.len() == b_len,
            i <= a_len,
            j <= b_len,
            i < a_len ==> oa <= step_size(sa[i as int]),
            i == a_len ==> oa == 0,
            j < b_len ==> ob <= step_size(sb[j as int]),
            j == b_len ==> ob == 0,
            pair_prefixed(
                list_steps(ao@),
                list_steps(bo@),
                transform_steps(sa, i as int, oa as nat, sb, j as int, ob as nat, tie),
            ) == transform_steps(sa, 0, 0, sb, 0, 0, tie),
            modifies_formed(list_steps(ao@)),
            modifies_formed(list_steps(bo@)),
        decreases remaining(sa, i as int, oa as nat) + remaining(sb, j as int, ob as nat),
    {
        let ghost fa = list_steps(ao@);
        let ghost fb = list_steps(bo@);
        let ghost ao0 = ao@;
        let ghost bo0 = bo@;
        let ghost cur = transform_steps(sa, i as int, oa as nat, sb, j as int, ob as nat, tie);
        proof {
            if i < a_len {
                lemma_units_from(sa, i as int);
                assert(sa[i as int] == step_of(a@[i as int]));
            }
            if j < b_len {
                lemma_units_from(sb, j as int);
                assert(sb[j as int] == step_of(b@[j as int]));
            }
        }
        let a_size: usize = if i < a_len { op_size(&a[i]) } else { 0 };
        let b_size: usize = if j < b_len { op_size(&b[j]) } else { 0 };
        let a_insert = i < a_len && match &a[i] {
            ListOp::Insert(_) => true,
            _ => false,
        };
        let b_insert = j < b_len && match &b[j] {
            ListOp::Insert(_) => true,
            _ => false,
        };
        let right_first = match tie {
            TieBreak::LeftFirst => false,
            TieBreak::RightFirst => true,
        };
        let ghost xa: Option<ListStep>;
        let ghost xb: Option<ListStep>;
        let ghost next: Result<(Seq<ListStep>, Seq<ListStep>), Conflict>;
        if i < a_len && oa == a_size {
            proof {
                xa = None;
                xb = None;
                next = transform_steps(sa, i + 1, 0, sb, j as int, ob as nat, tie);
                assert(cur == next);
            }
            i = i + 1;
            oa = 0;
        } else if j < b_len && ob == b_size {
            proof {
                xa = None;
                xb = None;
                next = transform_steps(sa, i as int, oa as nat, sb, j + 1, 0, tie);
                assert(cur == next);
            }
            j = j + 1;
            ob = 0;
        } else if a_insert && !(b_insert && right_first) {
            let op = op_tail(&a[i], oa);
            let n = a_size - oa;
            proof {
                xa = Some(step_of(op));
                xb = Some(ListStep::Retain(n as nat));
                next = transform_steps(sa, i + 1, 0, sb, j as int, ob as nat, tie);
                assert(cur == pair_then(xa, xb, next));
            }
            ao.push(op);
            bo.push(ListOp::Retain(n));
            i = i + 1;
            oa = 0;
        } else if b_insert {
            let op = op_tail(&b[j], ob);
            let n = b_size - ob;
            proof {
                xa = Some(ListStep::Retain(n as nat));
                xb = Some(step_of(op));
                next = transform_steps(sa, i as int, oa as nat, sb, j + 1, 0, tie);
                assert(cur == pair_then(xa, xb, next));
            }
            ao.push(ListOp::Retain(n));
            bo.push(op);
            j = j + 1;
            ob = 0;
        } else if j >= b_len {
            let op = op_tail(&a[i], oa);
            proof {
                xa = Some(step_of(op));
                xb = None;
                next = transform_steps(sa, i + 1, 0, sb, j as int, ob as nat, tie);
                assert(cur == pair_then(xa, xb, next));
            }
            ao.push(op);
            i = i + 1;
            oa = 0;
        } else if i >= a_len {
            let op = op_tail(&b[j], ob);
            proof {
                xa = None;
                xb = Some(step_of(op));
                next = transform_steps(sa, i as int, oa as nat, sb, j + 1, 0, tie);
                assert(cur == pair_then(xa, xb, next));
            }
            bo.push(op);
            j = j + 1;
            ob = 0;
        } else {
            let a_rest = a_size - oa;
            let b_rest = b_size - ob;
            let len = if a_rest <= b_rest {
                a_rest
            } else {
                b_rest
            };
            let (i2, oa2) = if oa + len >= a_size {
                (i + 1, 0)
            } else {
                (i, oa + len)
            };
            let (j2, ob2) = if ob + len >= b_size {
                (j + 1, 0)
            } else {
                (j, ob + len)
            };
            proof {
                next = transform_steps(sa, i2 as int, oa2 as nat, sb, j2 as int, ob2 as nat, tie);
                assert(advance(sa, i as int, oa as nat, len as nat) == (i2 as int, oa2 as nat));
                assert(advance(sb, j as int, ob as nat, len as nat) == (j2 as int, ob2 as nat));
            }
            let pair: (Option<ListOp>, Option<ListOp>) = match (&a[i], &b[j]) {
                (ListOp::Delete(_), ListOp::Delete(_)) => (None, None),
                (ListOp::Delete(_), ListOp::Retain(_)) => (Some(ListOp::Delete(len)), None),
                (ListOp::Delete(_), ListOp::Modify(_)) => (Some(ListOp::Delete(1)), None),
                (ListOp::Retain(_), ListOp::Delete(_)) => (None, Some(ListOp::Delete(len))),
                (ListOp::Modify(_), ListOp::Delete(_)) => (None, Some(ListOp::Delete(1))),
                (ListOp::Retain(_), ListOp::Retain(_)) => (
                    Some(ListOp::Retain(len)),
                    Some(ListOp::Retain(len)),
                ),
                (ListOp::Modify(c), ListOp::Retain(_)) => (
                    Some(ListOp::Modify(c.clone())),
                    Some(ListOp::Retain(1)),
                ),
                (ListOp::Retain(_), ListOp::Modify(c)) => (
                    Some(ListOp::Retain(1)),
                    Some(ListOp::Modify(c.clone())),
                ),
                (ListOp::Modify(x), ListOp::Modify(y)) => {
                    proof {
                        assert(decreases_to!(sa => sa[i as int]));
                        assert(decreases_to!(sa[i as int] => sa[i as int]->Modify_0));
                    }
                    match transform_pair(x, y, tie) {
                        Ok((p, q)) => (
                            Some(
                                if p.is_noop() {
                                    ListOp::Retain(1)
                                } else {
                                    ListOp::Modify(p)
                                },
                            ),
                            Some(
                                if q.is_noop() {
                                    ListOp::Retain(1)
                                } else {
                                    ListOp::Modify(q)
                                },
                            ),
                        ),
                        Err(e) => {
                            return Err(e);
                        },
                    }
                },
                _ => {
                    proof {
                        assert(false);
                    }
                    (None, None)
                },
            };
            let (pa, pb) = pair;
            proof {
                xa = if pa is Some {
                    Some(step_of(pa->Some_0))
                } else {
                    None
                };
                xb = if pb is Some {
                    Some(step_of(pb->Some_0))
                } else {
                    None
                };
                assert(cur == pair_then(xa, xb, next));
            }
            match pa {
                Some(o) => {
                    ao.push(o);
                },
                None => {},
            }
            match pb {
                Some(o) => {
                    bo.push(o);
                },
                None => {},
            }
            i = i2;
            oa = oa2;
            j = j2;
            ob = ob2;
        }
        proof {
            assert(list_steps(ao@) =~= fa + opt_steps(xa));
            assert(list_steps(bo@) =~= fb + opt_steps(xb));
            if xa is None && xb is None {
                assert(fa + opt_steps(xa) =~= fa);
                assert(fb + opt_steps(xb) =~= fb);
                assert(cur == pair_then(xa, xb, next));
            }
            lemma_pair_prefixed(fa, fb, xa, xb, next);
            assert forall|x: int| 0 <= x < ao@.len() implies #[trigger] list_steps(ao@)[x]
                is Modify ==> formed(list_steps(ao@)[x]->Modify_0) by {
                if x < ao0.len() {
                    assert(list_steps(ao@)[x] == fa[x]);
                }
            }
            assert forall|x: int| 0 <= x < bo@.len() implies #[trigger] list_steps(bo@)[x]
                is Modify ==> formed(list_steps(bo@)[x]->Modify_0) by {
                if x < bo0.len() {
                    assert(list_steps(bo@)[x] == fb[x]);
                }
            }
        }
    }
    proof {
        assert(transform_steps(sa, i as int, oa as nat, sb, j as int, ob as nat, tie) == Ok::<
            (Seq<ListStep>, Seq<ListStep>),
            Conflict,
        >((seq![], seq![])));
        assert(list_steps(ao@) + Seq::<ListStep>::empty() =~= list_steps(ao@));
        assert(list_steps(bo@) + Seq::<ListStep>::empty() =~= list_steps(bo@));
    }
    let left_out = match ListChange::from_ops(ao) {
        Ok(l) => l,
        Err(_) => {
            return Err(TransformError::LengthOverflow);
        },
    };
    let right_out = match ListChange::from_ops(bo) {
        Ok(l) => l,
        Err(_) => {
            return Err(TransformError::LengthOverflow);
        },
    };
    Ok((Change::from_list(left_out), Change::from_list(right_out)))
}

} // verus!
