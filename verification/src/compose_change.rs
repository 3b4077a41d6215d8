//! Sequential composition of recursive Changes.
//!
//! `compose(a, b)` is one Change with the effect of `a` followed by `b`.
use crate::apply_change::{apply_edit, copy_range, Fault};
use crate::change::{canonical, IntChange};
use crate::compose::compose_text;
use crate::content::{contents, Content, Value};
use crate::error::{ApplyError, ComposeError};
use crate::invert_law::{entries_formed, formed, modifies_formed};
use crate::keyed::{keyed, keyed_entries, keys_sorted};
use crate::keys::{
    compare_keys, key_lt, lemma_key_lt_asymmetric, lemma_key_lt_transitive, KeyOrder,
};
use crate::model::{compose_units, expand, normal_units, OpView};
use crate::path::Path;
use crate::runs::normalizes;
use crate::structure::{
    edit_kind_name, entry_edit_of, entry_edits, list_lengths_fit, list_normalize, list_steps,
    step_of, step_size, Change, ChangeKind, EntryEdit, Edit, ListChange, ListOp, ListStep,
    MapChange, MapEntryChange,
};
use vstd::prelude::*;

verus! {

/// The mathematical form of a composition failure.
pub enum Clash {
    IncompatibleKinds(Seq<char>, Seq<char>),
    IncompatibleMapEntry(Seq<char>),
    Apply(Fault),
    LengthOverflow,
}

/// The mathematical form of a composition error.
pub open spec fn clash_of(e: ComposeError) -> Clash {
    match e {
        ComposeError::IncompatibleKinds { left, right } => Clash::IncompatibleKinds(left@, right@),
        ComposeError::IncompatibleMapEntry(k) => Clash::IncompatibleMapEntry(k@),
        ComposeError::Apply(a) => Clash::Apply(crate::apply_change::fault_of(a)),
        ComposeError::LengthOverflow => Clash::LengthOverflow,
    }
}

/// The canonical Text stream with the effect of `s` followed by `t`.
pub open spec fn text_composed(s: Seq<OpView>, t: Seq<OpView>) -> Seq<OpView> {
    choose|v: Seq<OpView>|
        canonical(v) && expand(v) == normal_units(compose_units(expand(s), expand(t)))
}

/// A step placed before the rest of a composed stream.
pub open spec fn step_then(s: ListStep, r: Result<Seq<ListStep>, Clash>) -> Result<Seq<ListStep>, Clash> {
    match r {
        Ok(t) => Ok(seq![s] + t),
        Err(f) => Err(f),
    }
}

/// An entry change placed before the rest of composed entries.
pub open spec fn entry_then(e: (Seq<char>, EntryEdit), r: Result<Seq<(Seq<char>, EntryEdit)>, Clash>) -> Result<
    Seq<(Seq<char>, EntryEdit)>,
    Clash,
> {
    match r {
        Ok(t) => Ok(seq![e] + t),
        Err(f) => Err(f),
    }
}

/// Units of the steps from position `i` on.
pub open spec fn units_from(s: Seq<ListStep>, i: int) -> nat
    decreases s.len() - i,
{
    if i < 0 || i >= s.len() {
        0
    } else {
        step_size(s[i]) + units_from(s, i + 1)
    }
}

/// What remains of a stream read up to unit `off` of step `i`: its units and
/// its steps.
pub open spec fn remaining(s: Seq<ListStep>, i: int, off: nat) -> nat {
    if 0 <= i < s.len() {
        ((s.len() - i) + units_from(s, i) - off) as nat
    } else {
        0
    }
}

/// A step with its first `off` units consumed.
pub open spec fn step_tail(s: ListStep, off: nat) -> ListStep {
    match s {
        ListStep::Retain(n) => ListStep::Retain((n - off) as nat),
        ListStep::Insert(vs) => ListStep::Insert(vs.skip(off as int)),
        ListStep::Delete(n) => ListStep::Delete((n - off) as nat),
        ListStep::Modify(c) => ListStep::Modify(c),
    }
}

/// Step `i` with its first `off` units consumed.
pub open spec fn head_step(s: Seq<ListStep>, i: int, off: nat) -> ListStep {
    step_tail(s[i], off)
}

/// The position after consuming `k` more units of step `i`.
pub open spec fn advance(s: Seq<ListStep>, i: int, off: nat, k: nat) -> (int, nat) {
    if off + k >= step_size(s[i]) {
        (i + 1, 0)
    } else {
        (i, off + k)
    }
}

pub proof fn lemma_units_from(s: Seq<ListStep>, i: int)
    requires
        0 <= i < s.len(),
    ensures
        units_from(s, i) == step_size(s[i]) + units_from(s, i + 1),
{
}

/// The steps of `a` from position `(i, oa)` composed with the steps of `b`
/// from `(j, ob)`, before normalization.
pub open spec fn compose_steps(a: Seq<ListStep>, i: int, oa: nat, b: Seq<ListStep>, j: int, ob: nat) -> Result<
    Seq<ListStep>,
    Clash,
>
    decreases a, remaining(a, i, oa) + remaining(b, j, ob),
{
    let a_has = 0 <= i < a.len() && oa <= step_size(a[i]);
    let b_has = 0 <= j < b.len() && ob <= step_size(b[j]);
    if a_has && oa == step_size(a[i]) {
        proof {
            lemma_units_from(a, i);
        }
        compose_steps(a, i + 1, 0, b, j, ob)
    } else if b_has && ob == step_size(b[j]) {
        proof {
            lemma_units_from(b, j);
        }
        compose_steps(a, i, oa, b, j + 1, 0)
    } else if b_has && b[j] is Insert {
        proof {
            lemma_units_from(b, j);
        }
        step_then(head_step(b, j, ob), compose_steps(a, i, oa, b, j + 1, 0))
    } else if a_has && a[i] is Delete {
        proof {
            lemma_units_from(a, i);
        }
        step_then(head_step(a, i, oa), compose_steps(a, i + 1, 0, b, j, ob))
    } else if !a_has && !b_has {
        Ok(seq![])
    } else if !a_has {
        proof {
            lemma_units_from(b, j);
        }
        step_then(head_step(b, j, ob), compose_steps(a, i, oa, b, j + 1, 0))
    } else if !b_has {
        proof {
            lemma_units_from(a, i);
        }
        step_then(head_step(a, i, oa), compose_steps(a, i + 1, 0, b, j, ob))
    } else {
        let sa = (step_size(a[i]) - oa) as nat;
        let sb = (step_size(b[j]) - ob) as nat;
        let len: nat = if sa <= sb { sa } else { sb };
        let (i2, oa2) = advance(a, i, oa, len);
        let (j2, ob2) = advance(b, j, ob, len);
        proof {
            lemma_units_from(a, i);
            lemma_units_from(b, j);
        }
        match (head_step(a, i, oa), head_step(b, j, ob)) {
            (ListStep::Insert(vs), ListStep::Retain(_)) => step_then(
                ListStep::Insert(vs.take(len as int)),
                compose_steps(a, i2, oa2, b, j2, ob2),
            ),
            (ListStep::Insert(_), ListStep::Delete(_)) => compose_steps(a, i2, oa2, b, j2, ob2),
            (ListStep::Insert(vs), ListStep::Modify(c)) => match apply_edit(c, vs[0], Seq::empty()) {
                Ok(w) => step_then(ListStep::Insert(seq![w]), compose_steps(a, i2, oa2, b, j2, ob2)),
                Err(f) => Err(Clash::Apply(f)),
            },
            (ListStep::Retain(_), ListStep::Retain(_)) => step_then(
                ListStep::Retain(len),
                compose_steps(a, i2, oa2, b, j2, ob2),
            ),
            (ListStep::Retain(_), ListStep::Delete(_)) => step_then(
                ListStep::Delete(len),
                compose_steps(a, i2, oa2, b, j2, ob2),
            ),
            (ListStep::Modify(_), ListStep::Delete(_)) => step_then(
                ListStep::Delete(1),
                compose_steps(a, i2, oa2, b, j2, ob2),
            ),
            (ListStep::Retain(_), ListStep::Modify(c)) => step_then(
                ListStep::Modify(c),
                compose_steps(a, i2, oa2, b, j2, ob2),
            ),
            (ListStep::Modify(c), ListStep::Retain(_)) => step_then(
                ListStep::Modify(c),
                compose_steps(a, i2, oa2, b, j2, ob2),
            ),
            (ListStep::Modify(x), ListStep::Modify(y)) => match compose_edit(x, y) {
                Ok(z) => step_then(ListStep::Modify(z), compose_steps(a, i2, oa2, b, j2, ob2)),
                Err(f) => Err(f),
            },
            _ => Ok(seq![]),
        }
    }
}

/// Entries from position `i` of `len`.
pub open spec fn entries_left(len: nat, i: int) -> nat {
    if 0 <= i <= len {
        (len - i) as nat
    } else {
        0
    }
}

/// Map entry changes of `a` from position `i` composed with those of `b`
/// from position `j`, keys in increasing order.
pub open spec fn compose_entries(
    a: Seq<(Seq<char>, EntryEdit)>,
    i: int,
    b: Seq<(Seq<char>, EntryEdit)>,
    j: int,
) -> Result<Seq<(Seq<char>, EntryEdit)>, Clash>
    decreases a, entries_left(a.len(), i) + entries_left(b.len(), j),
{
    let a_has = 0 <= i < a.len();
    let b_has = 0 <= j < b.len();
    if !a_has && !b_has {
        Ok(seq![])
    } else if a_has && (!b_has || key_lt(a[i].0, b[j].0)) {
        entry_then(a[i], compose_entries(a, i + 1, b, j))
    } else if b_has && (!a_has || key_lt(b[j].0, a[i].0)) {
        entry_then(b[j], compose_entries(a, i, b, j + 1))
    } else {
        let k = a[i].0;
        let rest = compose_entries(a, i + 1, b, j + 1);
        match (a[i].1, b[j].1) {
            (EntryEdit::Insert(v), EntryEdit::Modify(c)) => match apply_edit(c, v, Seq::empty()) {
                Ok(w) => entry_then((k, EntryEdit::Insert(w)), rest),
                Err(f) => Err(Clash::Apply(f)),
            },
            (EntryEdit::Insert(_), EntryEdit::Delete) => rest,
            (EntryEdit::Delete, EntryEdit::Insert(v)) => entry_then(
                (k, EntryEdit::Modify(Edit::Replace(v))),
                rest,
            ),
            (EntryEdit::Modify(x), EntryEdit::Modify(y)) => match compose_edit(x, y) {
                Ok(z) => if z is Noop {
                    rest
                } else {
                    entry_then((k, EntryEdit::Modify(z)), rest)
                },
                Err(f) => Err(f),
            },
            (EntryEdit::Modify(_), EntryEdit::Delete) => entry_then((k, EntryEdit::Delete), rest),
            _ => Err(Clash::IncompatibleMapEntry(k)),
        }
    }
}

/// The Change with the effect of `a` followed by `b`.
pub open spec fn compose_edit(a: Edit, b: Edit) -> Result<Edit, Clash>
    decreases a, 0nat,
{
    match (a, b) {
        (Edit::Noop, _) => Ok(b),
        (_, Edit::Noop) => Ok(a),
        (_, Edit::Replace(v)) => Ok(Edit::Replace(v)),
        (Edit::Replace(v), _) => match apply_edit(b, v, Seq::empty()) {
            Ok(w) => Ok(Edit::Replace(w)),
            Err(f) => Err(Clash::Apply(f)),
        },
        (Edit::Int(x), Edit::Int(y)) => if i64::MIN <= x + y <= i64::MAX {
            Ok(
                if x + y == 0 {
                    Edit::Noop
                } else {
                    Edit::Int((x + y) as i64)
                },
            )
        } else {
            Err(Clash::Apply(Fault::IntegerOverflow(Seq::empty())))
        },
        (Edit::KeyMap(es), Edit::KeyMap(fs)) => match compose_entries(es, 0, fs, 0) {
            Ok(out) => Ok(
                if out.len() == 0 {
                    Edit::Noop
                } else {
                    Edit::KeyMap(out)
                },
            ),
            Err(f) => Err(f),
        },
        (Edit::List(x), Edit::List(y)) => match compose_steps(x, 0, 0, y, 0, 0) {
            Ok(raw) => match list_normalize(raw) {
                Some(n) => if list_lengths_fit(n) {
                    Ok(
                        if n.len() == 0 {
                            Edit::Noop
                        } else {
                            Edit::List(n)
                        },
                    )
                } else {
                    Err(Clash::LengthOverflow)
                },
                None => Err(Clash::LengthOverflow),
            },
            Err(f) => Err(f),
        },
        (Edit::Text(s), Edit::Text(t)) => if normalizes(compose_units(expand(s), expand(t))) {
            Ok(
                if text_composed(s, t).len() == 0 {
                    Edit::Noop
                } else {
                    Edit::Text(text_composed(s, t))
                },
            )
        } else {
            Err(Clash::LengthOverflow)
        },
        _ => Err(Clash::IncompatibleKinds(edit_kind_name(a), edit_kind_name(b))),
    }
}

/// Steps `front` placed before a composed stream.
pub open spec fn steps_prefixed(front: Seq<ListStep>, r: Result<Seq<ListStep>, Clash>) -> Result<
    Seq<ListStep>,
    Clash,
> {
    match r {
        Ok(t) => Ok(front + t),
        Err(f) => Err(f),
    }
}

/// Entry changes `front` placed before composed entries.
pub open spec fn entries_prefixed(
    front: Seq<(Seq<char>, EntryEdit)>,
    r: Result<Seq<(Seq<char>, EntryEdit)>, Clash>,
) -> Result<Seq<(Seq<char>, EntryEdit)>, Clash> {
    match r {
        Ok(t) => Ok(front + t),
        Err(f) => Err(f),
    }
}

proof fn lemma_steps_prefixed(front: Seq<ListStep>, s: ListStep, r: Result<Seq<ListStep>, Clash>)
    ensures
        steps_prefixed(front, step_then(s, r)) == steps_prefixed(front.push(s), r),
        steps_prefixed(Seq::empty(), r) == r,
{
    if r is Ok {
        assert(front + (seq![s] + r->Ok_0) =~= front.push(s) + r->Ok_0);
        assert(Seq::<ListStep>::empty() + r->Ok_0 =~= r->Ok_0);
    }
}

proof fn lemma_entries_prefixed(
    front: Seq<(Seq<char>, EntryEdit)>,
    e: (Seq<char>, EntryEdit),
    r: Result<Seq<(Seq<char>, EntryEdit)>, Clash>,
)
    ensures
        entries_prefixed(front, entry_then(e, r)) == entries_prefixed(front.push(e), r),
        entries_prefixed(Seq::empty(), r) == r,
{
    if r is Ok {
        assert(front + (seq![e] + r->Ok_0) =~= front.push(e) + r->Ok_0);
        assert(Seq::<(Seq<char>, EntryEdit)>::empty() + r->Ok_0 =~= r->Ok_0);
    }
}

/// Keys stay strictly increasing when a larger key is appended.
pub(crate) proof fn lemma_sorted_push(s: Seq<(Seq<char>, MapEntryChange)>, e: (Seq<char>, MapEntryChange))
    requires
        keys_sorted(s),
        s.len() > 0 ==> key_lt(s.last().0, e.0),
    ensures
        keys_sorted(s.push(e)),
{
    let t = s.push(e);
    assert forall|a: int, b: int| 0 <= a < b < t.len() implies key_lt(
        #[trigger] t[a].0,
        #[trigger] t[b].0,
    ) by {
        if b == s.len() {
            if a < s.len() - 1 {
                assert(key_lt(s[a].0, s[s.len() - 1].0));
                lemma_key_lt_transitive(s[a].0, s.last().0, e.0);
            }
        } else {
            assert(t[a] == s[a] && t[b] == s[b]);
        }
    }
}

/// Elements one List operation accounts for.
pub(crate) fn op_size(op: &ListOp) -> (n: usize)
    ensures
        n == step_size(step_of(*op)),
{
    match op {
        ListOp::Retain(n) => *n,
        ListOp::Insert(values) => values.len(),
        ListOp::Delete(n) => *n,
        ListOp::Modify(_) => 1,
    }
}

/// A copy of `op` with its first `off` units consumed.
pub(crate) fn op_tail(op: &ListOp, off: usize) -> (r: ListOp)
    requires
        off <= step_size(step_of(*op)),
    ensures
        step_of(r) == step_tail(step_of(*op), off as nat),
        step_of(r) is Modify ==> formed(step_of(r)->Modify_0),
{
    match op {
        ListOp::Retain(n) => ListOp::Retain(*n - off),
        ListOp::Insert(values) => {
            let mut rest: Vec<Value> = Vec::new();
            copy_range(&mut rest, values.as_slice(), off, values.len());
            proof {
                assert(contents(rest@) =~= contents(values@).skip(off as int));
            }
            ListOp::Insert(rest)
        },
        ListOp::Delete(n) => ListOp::Delete(*n - off),
        ListOp::Modify(c) => ListOp::Modify(c.clone()),
    }
}

/// A copy of one Map entry change.
pub(crate) fn copy_entry(e: &MapEntryChange) -> (c: MapEntryChange)
    ensures
        entry_edit_of(c) == entry_edit_of(*e),
        entry_edit_of(c) is Modify ==> formed(entry_edit_of(c)->Modify_0),
{
    match e {
        MapEntryChange::Insert(v) => MapEntryChange::Insert(v.deep_copy()),
        MapEntryChange::Delete => MapEntryChange::Delete,
        MapEntryChange::Modify(c) => MapEntryChange::Modify(c.clone()),
    }
}

/// Sequentially composes `first` followed by `second`: one Change with the
/// effect of applying `first` and then `second`.
///
/// Fails when the kinds cannot follow one another, when an intermediate
/// application fails, and when the canonical result overflows a limit.
pub fn compose(first: &Change, second: &Change) -> (r: Result<Change, ComposeError>)
    ensures
        match compose_edit(first@, second@) {
            Ok(e) => r is Ok && r->Ok_0@ == e,
            Err(f) => r is Err && clash_of(r->Err_0) == f,
        },
        r is Ok ==> formed(r->Ok_0@),
    decreases first@,
{
    match (first.kind(), second.kind()) {
        (ChangeKind::Noop, _) => Ok(second.clone()),
        (_, ChangeKind::Noop) => Ok(first.clone()),
        (_, ChangeKind::Replace(value)) => Ok(Change::replace(value.deep_copy())),
        (ChangeKind::Replace(value), _) => match second.apply_to(value) {
            Ok(after) => Ok(Change::replace(after)),
            Err(e) => Err(ComposeError::Apply(e)),
        },
        (ChangeKind::Int(IntChange::Add(x)), ChangeKind::Int(IntChange::Add(y))) => match x.checked_add(
            *y,
        ) {
            Some(sum) => Ok(Change::from_int(IntChange::Add(sum))),
            None => Err(ComposeError::Apply(ApplyError::IntegerOverflow { path: Path::new() })),
        },
        (ChangeKind::KeyMap(a), ChangeKind::KeyMap(b)) => compose_map(a, b),
        (ChangeKind::List(a), ChangeKind::List(b)) => compose_list(a, b),
        (ChangeKind::Text(a), ChangeKind::Text(b)) => match compose_text(a, b) {
            Ok(c) => {
                proof {
                    let v = text_composed(a@, b@);
                    assert(canonical(c@) && expand(c@) == normal_units(
                        compose_units(expand(a@), expand(b@)),
                    ));
                    crate::laws::lemma_canonical_unique(c@, v);
                }
                Ok(Change::from_text(c))
            },
            Err(e) => Err(e),
        },
        _ => Err(ComposeError::IncompatibleKinds { left: first.kind_name(), right: second.kind_name() }),
    }
}

impl Change {
    /// Sequentially composes this Change followed by `next`.
    pub fn compose(&self, next: &Change) -> (r: Result<Change, ComposeError>)
        ensures
            match compose_edit(self@, next@) {
                Ok(e) => r is Ok && r->Ok_0@ == e,
                Err(f) => r is Err && clash_of(r->Err_0) == f,
            },
    {
        compose(self, next)
    }
}

/// Composes Map entry changes key by key, in key order.
fn compose_map(left: &MapChange, right: &MapChange) -> (r: Result<Change, ComposeError>)
    ensures
        match compose_entries(left@, 0, right@, 0) {
            Ok(out) => r is Ok && r->Ok_0@ == (if out.len() == 0 {
                Edit::Noop
            } else {
                Edit::KeyMap(out)
            }),
            Err(f) => r is Err && clash_of(r->Err_0) == f,
        },
        r is Ok ==> formed(r->Ok_0@),
    decreases left@,
{
    let a = left.entries();
    let b = right.entries();
    let ghost ea = left@;
    let ghost eb = right@;
    let a_len = a.len();
    let b_len = b.len();
    let mut out: Vec<(String, MapEntryChange)> = Vec::new();
    let mut i: usize = 0;
    let mut j: usize = 0;
    proof {
        assert(entry_edits(out@) =~= Seq::<(Seq<char>, EntryEdit)>::empty());
        assert(keyed_entries(out@) =~= Seq::<(Seq<char>, MapEntryChange)>::empty());
        lemma_entries_prefixed(Seq::empty(), (Seq::empty(), EntryEdit::Delete), compose_entries(ea, 0, eb, 0));
    }
    while i < a_len || j < b_len
        invariant
            entry_edits(a@) == ea,
            ea == left@,
            entry_edits(b@) == eb,
            eb == right@,
            keys_sorted(ea),
            keys_sorted(eb),
            a@.len() == a_len,
            b@.len() == b_len,
            i <= a_len,
            j <= b_len,
            entries_prefixed(entry_edits(out@), compose_entries(ea, i as int, eb, j as int))
                == compose_entries(ea, 0, eb, 0),
            keys_sorted(keyed_entries(out@)),
            out@.len() > 0 && i < a_len ==> key_lt(out@.last().0@, ea[i as int].0),
            out@.len() > 0 && j < b_len ==> key_lt(out@.last().0@, eb[j as int].0),
            entries_formed(entry_edits(out@)),
        decreases entries_left(ea.len(), i as int) + entries_left(eb.len(), j as int),
    {
        let ghost front = entry_edits(out@);
        let ghost before = out@;
        let ghost i0 = i as int;
        let ghost j0 = j as int;
        let order: u8 = if i >= a_len {
            1
        } else if j >= b_len {
            0
        } else {
            match compare_keys(a[i].0.as_str(), b[j].0.as_str()) {
                KeyOrder::Less => 0,
                KeyOrder::Greater => 1,
                KeyOrder::Equal => 2,
            }
        };
        proof {
            if i < a_len {
                assert(ea[i as int] == (a@[i as int].0@, entry_edit_of(a@[i as int].1)));
            }
            if j < b_len {
                assert(eb[j as int] == (b@[j as int].0@, entry_edit_of(b@[j as int].1)));
            }
            if i < a_len && j < b_len {
                lemma_key_lt_asymmetric(ea[i as int].0, eb[j as int].0);
            }
        }
        let ghost next_entry: (Seq<char>, EntryEdit);
        if order == 0 {
            let entry = copy_entry(&a[i].1);
            let key = a[i].0.clone();
            proof {
                next_entry = ea[i as int];
                assert(compose_entries(ea, i as int, eb, j as int) == entry_then(
                    ea[i as int],
                    compose_entries(ea, i + 1, eb, j as int),
                ));
                lemma_entries_prefixed(front, ea[i as int], compose_entries(ea, i + 1, eb, j as int));
                lemma_sorted_push(keyed_entries(before), keyed((key, entry)));
            }
            out.push((key, entry));
            i = i + 1;
        } else if order == 1 {
            let entry = copy_entry(&b[j].1);
            let key = b[j].0.clone();
            proof {
                next_entry = eb[j as int];
                assert(compose_entries(ea, i as int, eb, j as int) == entry_then(
                    eb[j as int],
                    compose_entries(ea, i as int, eb, j + 1),
                ));
                lemma_entries_prefixed(front, eb[j as int], compose_entries(ea, i as int, eb, j + 1));
                lemma_sorted_push(keyed_entries(before), keyed((key, entry)));
            }
            out.push((key, entry));
            j = j + 1;
        } else {
            let ghost k = ea[i as int].0;
            let ghost rest = compose_entries(ea, i + 1, eb, j + 1);
            proof {
                assert(eb[j as int].0 == k);
                lemma_key_lt_asymmetric(k, k);
            }
            let merged: Option<MapEntryChange> = match (&a[i].1, &b[j].1) {
                (MapEntryChange::Insert(v), MapEntryChange::Modify(c)) => match c.apply_to(v) {
                    Ok(w) => Some(MapEntryChange::Insert(w)),
                    Err(e) => {
                        return Err(ComposeError::Apply(e));
                    },
                },
                (MapEntryChange::Insert(_), MapEntryChange::Delete) => None,
                (MapEntryChange::Delete, MapEntryChange::Insert(v)) => Some(
                    MapEntryChange::Modify(Change::replace(v.deep_copy())),
                ),
                (MapEntryChange::Modify(x), MapEntryChange::Modify(y)) => {
                    proof {
                        assert(decreases_to!(ea => ea[i as int]));
                        assert(decreases_to!(ea[i as int] => ea[i as int].1));
                        assert(decreases_to!(ea[i as int].1 => ea[i as int].1->Modify_0));
                    }
                    match compose(x, y) {
                        Ok(z) => if z.is_noop() {
                            None
                        } else {
                            Some(MapEntryChange::Modify(z))
                        },
                        Err(e) => {
                            return Err(e);
                        },
                    }
                },
                (MapEntryChange::Modify(_), MapEntryChange::Delete) => Some(MapEntryChange::Delete),
                _ => {
                    return Err(ComposeError::IncompatibleMapEntry(a[i].0.clone()));
                },
            };
            match merged {
                Some(entry) => {
                    let key = a[i].0.clone();
                    proof {
                        next_entry = (k, entry_edit_of(entry));
                        assert(compose_entries(ea, i as int, eb, j as int) == entry_then(next_entry, rest));
                        lemma_entries_prefixed(front, next_entry, rest);
                        lemma_sorted_push(keyed_entries(before), keyed((key, entry)));
                    }
                    out.push((key, entry));
                },
                None => {
                    proof {
                        next_entry = (k, EntryEdit::Delete);
                        assert(compose_entries(ea, i as int, eb, j as int) == rest);
                    }
                },
            }
            i = i + 1;
            j = j + 1;
        }
        proof {
            if out@.len() > before.len() {
                assert(entry_edits(out@) =~= front.push(next_entry));
                assert(keyed_entries(out@) =~= keyed_entries(before).push(keyed(out@.last())));
                assert(out@.last().0@ == next_entry.0);
            } else {
                assert(out@ == before);
            }
            assert forall|x: int| 0 <= x < out@.len() implies (#[trigger] entry_edits(out@)[x]).1
                is Modify ==> formed(entry_edits(out@)[x].1->Modify_0) by {
                if x < before.len() {
                    assert(out@[x] == before[x]);
                    assert(entry_edits(out@)[x] == front[x]);
                }
            }
            if i < a_len && out@.len() > 0 {
                assert(key_lt(ea[i0].0, ea[i as int].0) || i0 == i);
                assert(key_lt(eb[j0].0, ea[i as int].0) || order != 1);
                if out@.len() == before.len() {
                    lemma_key_lt_transitive(out@.last().0@, ea[i0].0, ea[i as int].0);
                }
            }
            if j < b_len && out@.len() > 0 {
                assert(key_lt(eb[j0].0, eb[j as int].0) || j0 == j);
                assert(key_lt(ea[i0].0, eb[j as int].0) || order != 0);
                if out@.len() == before.len() {
                    lemma_key_lt_transitive(out@.last().0@, eb[j0].0, eb[j as int].0);
                }
            }
        }
    }
    proof {
        assert(compose_entries(ea, i as int, eb, j as int) == Ok::<Seq<(Seq<char>, EntryEdit)>, Clash>(seq![]));
        assert(entry_edits(out@) + Seq::<(Seq<char>, EntryEdit)>::empty() =~= entry_edits(out@));
    }
    Ok(Change::from_map(MapChange::from_sorted(out)))
}

/// Composes List operation streams by walking both at once.
#[verifier::rlimit(40)]
fn compose_list(left: &ListChange, right: &ListChange) -> (r: Result<Change, ComposeError>)
    ensures
        match compose_steps(left@, 0, 0, right@, 0, 0) {
            Ok(raw) => match list_normalize(raw) {
                Some(n) => if list_lengths_fit(n) {
                    r is Ok && r->Ok_0@ == (if n.len() == 0 {
                        Edit::Noop
                    } else {
                        Edit::List(n)
                    })
                } else {
                    r == Err::<Change, ComposeError>(ComposeError::LengthOverflow)
                },
                None => r == Err::<Change, ComposeError>(ComposeError::LengthOverflow),
            },
            Err(f) => r is Err && clash_of(r->Err_0) == f,
        },
        r is Ok ==> formed(r->Ok_0@),
    decreases left@,
{
    let a = left.ops();
    let b = right.ops();
    let ghost sa = left@;
    let ghost sb = right@;
    let a_len = a.len();
    let b_len = b.len();
    let mut out: Vec<ListOp> = Vec::new();
    let mut i: usize = 0;
    let mut oa: usize = 0;
    let mut j: usize = 0;
    let mut ob: usize = 0;
    proof {
        assert(list_steps(out@) =~= Seq::<ListStep>::empty());
        lemma_steps_prefixed(Seq::empty(), ListStep::Retain(0), compose_steps(sa, 0, 0, sb, 0, 0));
    }
    while i < a_len || j < b_len
        invariant
            list_steps(a@) == sa,
            sa == left@,
            list_steps(b@) == sb,
            sb == right@,
            a@.len() == a_len,
            b@.len() == b_len,
            i <= a_len,
            j <= b_len,
            i < a_len ==> oa <= step_size(sa[i as int]),
            i == a_len ==> oa == 0,
            j < b_len ==> ob <= step_size(sb[j as int]),
            j == b_len ==> ob == 0,
            steps_prefixed(
                list_steps(out@),
                compose_steps(sa, i as int, oa as nat, sb, j as int, ob as nat),
            ) == compose_steps(sa, 0, 0, sb, 0, 0),
            modifies_formed(list_steps(out@)),
        decreases remaining(sa, i as int, oa as nat) + remaining(sb, j as int, ob as nat),
    {
        let ghost front = list_steps(out@);
        let ghost before = out@;
        let ghost cur = compose_steps(sa, i as int, oa as nat, sb, j as int, ob as nat);
        proof {
            if i < a_len {
                lemma_units_from(sa, i as int);
                assert(sa[i as int] == step_of(a@[i as int]));
            }
            if j < b_len {
                lemma_units_from(sb, j as int);
                assert(sb[j as int] == step_of(b@[j as int]));
            }
        }
        let a_size: usize = if i < a_len { op_size(&a[i]) } else { 0 };
        let b_size: usize = if j < b_len { op_size(&b[j]) } else { 0 };
        let b_insert = j < b_len && match &b[j] {
            ListOp::Insert(_) => true,
            _ => false,
        };
        let a_delete = i < a_len && match &a[i] {
            ListOp::Delete(_) => true,
            _ => false,
        };
        if i < a_len && oa == a_size {
            i = i + 1;
            oa = 0;
        } else if j < b_len && ob == b_size {
            j = j + 1;
            ob = 0;
        } else if b_insert || i >= a_len {
            let op = op_tail(&b[j], ob);
            proof {
                assert(cur == step_then(step_of(op), compose_steps(sa, i as int, oa as nat, sb, j + 1, 0)));
                lemma_steps_prefixed(front, step_of(op), compose_steps(sa, i as int, oa as nat, sb, j + 1, 0));
            }
            out.push(op);
            j = j + 1;
            ob = 0;
        } else if a_delete || j >= b_len {
            let op = op_tail(&a[i], oa);
            proof {
                assert(cur == step_then(step_of(op), compose_steps(sa, i + 1, 0, sb, j as int, ob as nat)));
                lemma_steps_prefixed(front, step_of(op), compose_steps(sa, i + 1, 0, sb, j as int, ob as nat));
            }
            out.push(op);
            i = i + 1;
            oa = 0;
        } else {
            let a_rest = a_size - oa;
            let b_rest = b_size - ob;
            let len = if a_rest <= b_rest {
                a_rest
            } else {
                b_rest
            };
            let (i2, oa2) = if oa + len >= a_size {
                (i + 1, 0)
            } else {
                (i, oa + len)
            };
            let (j2, ob2) = if ob + len >= b_size {
                (j + 1, 0)
            } else {
                (j, ob + len)
            };
            let ghost next = compose_steps(sa, i2 as int, oa2 as nat, sb, j2 as int, ob2 as nat);
            proof {
                assert(advance(sa, i as int, oa as nat, len as nat) == (i2 as int, oa2 as nat));
                assert(advance(sb, j as int, ob as nat, len as nat) == (j2 as int, ob2 as nat));
            }
            let pushed: Option<ListOp> = match (&a[i], &b[j]) {
                (ListOp::Insert(values), ListOp::Retain(_)) => {
                    let mut kept: Vec<Value> = Vec::new();
                    copy_range(&mut kept, values.as_slice(), oa, oa + len);
                    proof {
                        assert(contents(kept@) =~= contents(values@).skip(oa as int).take(len as int));
                    }
                    Some(ListOp::Insert(kept))
                },
                (ListOp::Insert(_), ListOp::Delete(_)) => None,
                (ListOp::Insert(values), ListOp::Modify(c)) => {
                    proof {
                        assert(contents(values@).skip(oa as int)[0] == values@[oa as int]@);
                    }
                    match c.apply_to(&values[oa]) {
                        Ok(w) => {
                            let mut one: Vec<Value> = Vec::new();
                            one.push(w);
                            proof {
                                assert(contents(one@) =~= seq![one@[0]@]);
                            }
                            Some(ListOp::Insert(one))
                        },
                        Err(e) => {
                            return Err(ComposeError::Apply(e));
                        },
                    }
                },
                (ListOp::Retain(_), ListOp::Retain(_)) => Some(ListOp::Retain(len)),
                (ListOp::Retain(_), ListOp::Delete(_)) => Some(ListOp::Delete(len)),
                (ListOp::Modify(_), ListOp::Delete(_)) => Some(ListOp::Delete(1)),
                (ListOp::Retain(_), ListOp::Modify(c)) => Some(ListOp::Modify(c.clone())),
                (ListOp::Modify(c), ListOp::Retain(_)) => Some(ListOp::Modify(c.clone())),
                (ListOp::Modify(x), ListOp::Modify(y)) => {
                    proof {
                        assert(decreases_to!(sa => sa[i as int]));
                        assert(decreases_to!(sa[i as int] => sa[i as int]->Modify_0));
                    }
                    match compose(x, y) {
                        Ok(z) => Some(ListOp::Modify(z)),
                        Err(e) => {
                            return Err(e);
                        },
                    }
                },
                _ => {
                    proof {
                        assert(false);
                    }
                    None
                },
            };
            match pushed {
                Some(op) => {
                    proof {
                        assert(cur == step_then(step_of(op), next));
                        lemma_steps_prefixed(front, step_of(op), next);
                    }
                    out.push(op);
                },
                None => {
                    proof {
                        assert(cur == next);
                    }
                },
            }
            i = i2;
            oa = oa2;
            j = j2;
            ob = ob2;
        }
        proof {
            if out@.len() > before.len() {
                assert(list_steps(out@) =~= front.push(step_of(out@.last())));
                assert forall|x: int| 0 <= x < out@.len() implies #[trigger] list_steps(out@)[x]
                    is Modify ==> formed(list_steps(out@)[x]->Modify_0) by {
                    if x < before.len() {
                        assert(list_steps(out@)[x] == front[x]);
                    }
                }
            } else {
                assert(out@ == before);
            }
        }
    }
    proof {
        assert(compose_steps(sa, i as int, oa as nat, sb, j as int, ob as nat) == Ok::<Seq<ListStep>, Clash>(seq![]));
        assert(list_steps(out@) + Seq::<ListStep>::empty() =~= list_steps(out@));
    }
    match ListChange::from_ops(out) {
        Ok(list) => Ok(Change::from_list(list)),
        Err(_) => Err(ComposeError::LengthOverflow),
    }
}

} // verus!
