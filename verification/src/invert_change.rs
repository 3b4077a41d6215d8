//! Inverting recursive Changes relative to the Snapshot they apply to.
//!
//! The inverse of a Change, applied to the result of the Change, restores the
//! Snapshot the Change was applied to.
use crate::apply_change::{apply, apply_edit, apply_entries, apply_list, fault_of};
use crate::change::{canonical, IntChange};
use crate::content::{contents, Content, Value, ValueKind};
use crate::error::InvertError;
use crate::invert::invert_text;
use crate::keyed::{keyed, keyed_entries, keys_sorted};
use crate::keys::{key_lt, lemma_key_lt_asymmetric};
use crate::model::{expand, invert_units, normal_units, OpView};
use crate::path::SegView;
use crate::structure::{
    entry_edits, list_lengths_fit, list_normalize, list_steps, step_of, Change, ChangeKind,
    EntryEdit, Edit, ListChange, ListOp, ListStep, MapChange, MapEntryChange,
};
use vstd::prelude::*;

verus! {

/// A canonical Text stream undoes `ops` on `s`.
pub open spec fn text_inverse_exists(ops: Seq<OpView>, s: Seq<char>) -> bool {
    exists|v: Seq<OpView>| canonical(v) && expand(v) == normal_units(invert_units(expand(ops), s))
}

/// The canonical Text stream that undoes `ops` on `s`.
pub open spec fn text_inverse(ops: Seq<OpView>, s: Seq<char>) -> Seq<OpView> {
    choose|v: Seq<OpView>| canonical(v) && expand(v) == normal_units(invert_units(expand(ops), s))
}

/// Steps `front` before the steps of an inverse, if there is one.
pub open spec fn steps_before(front: Seq<ListStep>, r: Option<Seq<ListStep>>) -> Option<
    Seq<ListStep>,
> {
    match r {
        Some(t) => Some(front + t),
        None => None,
    }
}

/// Entry changes `front` before the entries of an inverse, if there is one.
pub open spec fn entries_before(
    front: Seq<(Seq<char>, EntryEdit)>,
    r: Option<Seq<(Seq<char>, EntryEdit)>>,
) -> Option<Seq<(Seq<char>, EntryEdit)>> {
    match r {
        Some(t) => Some(front + t),
        None => None,
    }
}

/// The inverse of `e` relative to `base`, the Snapshot before `e`; `None`
/// when a canonical inverse would overflow a length limit.
pub open spec fn invert_edit(e: Edit, base: Content) -> Option<Edit>
    decreases e,
{
    match e {
        Edit::Noop => Some(Edit::Noop),
        Edit::Replace(_) => Some(Edit::Replace(base)),
        Edit::Int(d) => if d == i64::MIN {
            Some(Edit::Replace(base))
        } else if d == 0 {
            Some(Edit::Noop)
        } else {
            Some(Edit::Int((-d) as i64))
        },
        Edit::KeyMap(es) => match base {
            Content::KeyMap(m) => match invert_entries(es, m) {
                Some(inv) => Some(
                    if inv.len() == 0 {
                        Edit::Noop
                    } else {
                        Edit::KeyMap(inv)
                    },
                ),
                None => None,
            },
            _ => None,
        },
        Edit::List(steps) => match base {
            Content::List(items) => match invert_steps(steps, items, 0) {
                Some(raw) => match list_normalize(raw) {
                    Some(n) => if list_lengths_fit(n) {
                        Some(
                            if n.len() == 0 {
                                Edit::Noop
                            } else {
                                Edit::List(n)
                            },
                        )
                    } else {
                        None
                    },
                    None => None,
                },
                None => None,
            },
            _ => None,
        },
        Edit::Text(ops) => match base {
            Content::Text(s) => if text_inverse_exists(ops, s) {
                Some(
                    if text_inverse(ops, s).len() == 0 {
                        Edit::Noop
                    } else {
                        Edit::Text(text_inverse(ops, s))
                    },
                )
            } else {
                None
            },
            _ => None,
        },
    }
}

/// The inverse entry changes, relative to the Map entries `m` before them.
pub open spec fn invert_entries(es: Seq<(Seq<char>, EntryEdit)>, m: Map<Seq<char>, Content>) -> Option<
    Seq<(Seq<char>, EntryEdit)>,
>
    decreases es,
{
    if es.len() == 0 {
        Some(seq![])
    } else {
        let k = es[0].0;
        let rest = es.subrange(1, es.len() as int);
        match es[0].1 {
            EntryEdit::Insert(_) => entries_before(
                seq![(k, EntryEdit::Delete)],
                invert_entries(rest, m),
            ),
            EntryEdit::Delete => entries_before(
                seq![(k, EntryEdit::Insert(m[k]))],
                invert_entries(rest, m),
            ),
            EntryEdit::Modify(c) => match invert_edit(c, m[k]) {
                Some(ic) => entries_before(
                    seq![(k, EntryEdit::Modify(ic))],
                    invert_entries(rest, m),
                ),
                None => None,
            },
        }
    }
}

/// The inverse steps, before normalization, of List steps applied to
/// `items` from position `index`.
pub open spec fn invert_steps(steps: Seq<ListStep>, items: Seq<Content>, index: nat) -> Option<
    Seq<ListStep>,
>
    decreases steps,
{
    if steps.len() == 0 {
        Some(seq![])
    } else {
        let rest = steps.subrange(1, steps.len() as int);
        match steps[0] {
            ListStep::Retain(n) => steps_before(
                seq![ListStep::Retain(n)],
                invert_steps(rest, items, index + n),
            ),
            ListStep::Insert(vs) => steps_before(
                seq![ListStep::Delete(vs.len())],
                invert_steps(rest, items, index),
            ),
            ListStep::Delete(n) => steps_before(
                seq![ListStep::Insert(items.subrange(index as int, (index + n) as int))],
                invert_steps(rest, items, index + n),
            ),
            ListStep::Modify(c) => match invert_edit(c, items[index as int]) {
                Some(ic) => steps_before(
                    seq![ListStep::Modify(ic)],
                    invert_steps(rest, items, index + 1),
                ),
                None => None,
            },
        }
    }
}

/// What a successful application of Map entry changes says of one entry
/// relative to the Map before the changes.
pub open spec fn entry_applies(e: (Seq<char>, EntryEdit), m: Map<Seq<char>, Content>, p: Seq<SegView>) -> bool {
    match e.1 {
        EntryEdit::Insert(_) => !m.contains_key(e.0),
        EntryEdit::Delete => m.contains_key(e.0),
        EntryEdit::Modify(c) => m.contains_key(e.0) && apply_edit(c, m[e.0], p.push(SegView::Key(e.0)))
            is Ok,
    }
}

/// Entry changes with distinct keys that apply in order each apply to the
/// Map they started from.
pub proof fn lemma_entries_apply(
    es: Seq<(Seq<char>, EntryEdit)>,
    m: Map<Seq<char>, Content>,
    p: Seq<SegView>,
)
    requires
        apply_entries(es, m, p) is Ok,
        keys_sorted(es),
    ensures
        forall|i: int| 0 <= i < es.len() ==> #[trigger] entry_applies(es[i], m, p),
    decreases es.len(),
{
    if es.len() > 0 {
        let k = es[0].0;
        let rest = es.subrange(1, es.len() as int);
        assert forall|a: int, b: int| 0 <= a < b < rest.len() implies key_lt(
            #[trigger] rest[a].0,
            #[trigger] rest[b].0,
        ) by {
            assert(rest[a] == es[a + 1] && rest[b] == es[b + 1]);
        }
        let m1 = match es[0].1 {
            EntryEdit::Insert(v) => m.insert(k, v),
            EntryEdit::Delete => m.remove(k),
            EntryEdit::Modify(c) => m.insert(k, apply_edit(c, m[k], p.push(SegView::Key(k)))->Ok_0),
        };
        assert(apply_entries(rest, m1, p) is Ok);
        lemma_entries_apply(rest, m1, p);
        assert forall|i: int| 0 <= i < es.len() implies #[trigger] entry_applies(es[i], m, p) by {
            if i > 0 {
                assert(es[i] == rest[i - 1]);
                assert(entry_applies(rest[i - 1], m1, p));
                assert(key_lt(es[0].0, es[i].0));
                lemma_key_lt_asymmetric(es[i].0, es[i].0);
                assert(es[i].0 != k);
            }
        }
    }
}

/// Builds an inverse using the Snapshot immediately before `change`.
///
/// Fails with the apply error when `change` does not apply to `base`, and
/// with `LengthOverflow` when the canonical inverse would overflow.
pub fn invert(change: &Change, base: &Value) -> (r: Result<Change, InvertError>)
    ensures
        match apply_edit(change@, base@, Seq::empty()) {
            Err(f) => r is Err && r->Err_0 is Apply && fault_of(r->Err_0->Apply_0) == f,
            Ok(_) => match invert_edit(change@, base@) {
                Some(inv) => r is Ok && r->Ok_0@ == inv,
                None => r == Err::<Change, InvertError>(InvertError::LengthOverflow),
            },
        },
{
    match apply(base, change) {
        Ok(_) => {},
        Err(e) => {
            return Err(InvertError::Apply(e));
        },
    }
    invert_at(change, base, Ghost(Seq::empty()))
}

impl Change {
    /// Builds an inverse using the Snapshot immediately before this Change.
    pub fn invert(&self, base: &Value) -> (r: Result<Change, InvertError>)
        ensures
            match apply_edit(self@, base@, Seq::empty()) {
                Err(f) => r is Err && r->Err_0 is Apply && fault_of(r->Err_0->Apply_0) == f,
                Ok(_) => match invert_edit(self@, base@) {
                    Some(inv) => r is Ok && r->Ok_0@ == inv,
                    None => r == Err::<Change, InvertError>(InvertError::LengthOverflow),
                },
            },
    {
        invert(self, base)
    }
}

fn invert_at(change: &Change, base: &Value, Ghost(p): Ghost<Seq<SegView>>) -> (r: Result<
    Change,
    InvertError,
>)
    requires
        apply_edit(change@, base@, p) is Ok,
    ensures
        match invert_edit(change@, base@) {
            Some(inv) => r is Ok && r->Ok_0@ == inv,
            None => r == Err::<Change, InvertError>(InvertError::LengthOverflow),
        },
        r is Ok ==> crate::invert_law::formed(r->Ok_0@),
    decreases change@,
{
    match change.kind() {
        ChangeKind::Noop => Ok(Change::noop()),
        ChangeKind::Replace(_) => Ok(Change::replace(base.deep_copy())),
        ChangeKind::Int(IntChange::Add(delta)) => if *delta == i64::MIN {
            Ok(Change::replace(base.deep_copy()))
        } else {
            Ok(Change::from_int(IntChange::Add(-*delta)))
        },
        ChangeKind::KeyMap(map_change) => invert_map(map_change, base, Ghost(p)),
        ChangeKind::List(list_change) => invert_list(list_change, base, Ghost(p)),
        ChangeKind::Text(text_change) => {
            let text = match base.kind() {
                ValueKind::Text(text) => text,
                _ => {
                    proof {
                        assert(false);
                    }
                    return Err(InvertError::LengthOverflow);
                },
            };
            match invert_text(text_change, text) {
                Ok(inverse) => {
                    proof {
                        let v = text_inverse(text_change@, text@);
                        assert(text_inverse_exists(text_change@, text@));
                        crate::laws::lemma_canonical_unique(inverse@, v);
                    }
                    Ok(Change::from_text(inverse))
                },
                Err(e) => Err(e),
            }
        },
    }
}

fn invert_map(change: &MapChange, base: &Value, Ghost(p): Ghost<Seq<SegView>>) -> (r: Result<
    Change,
    InvertError,
>)
    requires
        apply_edit(Edit::KeyMap(change@), base@, p) is Ok,
    ensures
        match invert_edit(Edit::KeyMap(change@), base@) {
            Some(inv) => r is Ok && r->Ok_0@ == inv,
            None => r == Err::<Change, InvertError>(InvertError::LengthOverflow),
        },
        r is Ok ==> crate::invert_law::formed(r->Ok_0@),
    decreases change@,
{
    let base_map = match base.kind() {
        ValueKind::KeyMap(m) => m,
        _ => {
            proof {
                assert(false);
            }
            return Err(InvertError::LengthOverflow);
        },
    };
    let entries = change.entries();
    let ghost es = change@;
    let ghost m = base_map@;
    proof {
        lemma_entries_apply(es, m, p);
        assert(es.subrange(0, es.len() as int) =~= es);
    }
    let mut out: Vec<(String, MapEntryChange)> = Vec::new();
    let mut i: usize = 0;
    proof {
        assert(entry_edits(out@) =~= Seq::<(Seq<char>, EntryEdit)>::empty());
        assert(entries_before(Seq::empty(), invert_entries(es, m)) == invert_entries(es, m)) by {
            if invert_entries(es, m) is Some {
                assert(Seq::<(Seq<char>, EntryEdit)>::empty() + invert_entries(es, m)->Some_0
                    =~= invert_entries(es, m)->Some_0);
            }
        }
    }
    while i < entries.len()
        invariant
            entry_edits(entries@) == es,
            es == change@,
            m == base_map@,
            base@ == Content::KeyMap(m),
            keys_sorted(es),
            i <= es.len(),
            out@.len() == i,
            crate::invert_law::entries_formed(entry_edits(out@)),
            forall|j: int| 0 <= j < i ==> #[trigger] out@[j].0@ == es[j].0,
            forall|j: int| 0 <= j < es.len() ==> #[trigger] entry_applies(es[j], m, p),
            entries_before(
                entry_edits(out@),
                invert_entries(es.subrange(i as int, es.len() as int), m),
            ) == invert_entries(es, m),
        decreases es.len() - i,
    {
        let ghost cur = es.subrange(i as int, es.len() as int);
        let ghost rest = es.subrange(i + 1, es.len() as int);
        let ghost before = out@;
        let key = &entries[i].0;
        proof {
            assert(cur[0] == es[i as int]);
            assert(cur.subrange(1, cur.len() as int) =~= rest);
            assert(es[i as int] == (entries@[i as int].0@, crate::structure::entry_edit_of(entries@[i as int].1)));
            assert(entry_applies(es[i as int], m, p));
        }
        let inverse = match &entries[i].1 {
            MapEntryChange::Insert(_) => MapEntryChange::Delete,
            MapEntryChange::Delete => {
                let value = match base_map.get(key.as_str()) {
                    Some(v) => v.deep_copy(),
                    None => {
                        proof {
                            assert(false);
                        }
                        return Err(InvertError::LengthOverflow);
                    },
                };
                MapEntryChange::Insert(value)
            },
            MapEntryChange::Modify(child) => {
                let old_value = match base_map.get(key.as_str()) {
                    Some(v) => v,
                    None => {
                        proof {
                            assert(false);
                        }
                        return Err(InvertError::LengthOverflow);
                    },
                };
                proof {
                    assert(decreases_to!(es => es[i as int]));
                    assert(decreases_to!(es[i as int] => es[i as int].1));
                    assert(decreases_to!(es[i as int].1 => child@));
                }
                let inverse_child = match invert_at(
                    child,
                    old_value,
                    Ghost(p.push(SegView::Key(key@))),
                ) {
                    Ok(c) => c,
                    Err(e) => {
                        proof {
                            assert(invert_edit(child@, m[key@]) is None);
                            assert(invert_entries(cur, m) is None);
                        }
                        return Err(e);
                    },
                };
                MapEntryChange::Modify(inverse_child)
            },
        };
        let ghost head = (key@, crate::structure::entry_edit_of(inverse));
        out.push((key.clone(), inverse));
        proof {
            assert(entry_edits(out@) =~= entry_edits(before) + seq![head]);
            match invert_entries(rest, m) {
                Some(t) => {
                    assert(entry_edits(before) + (seq![head] + t) =~= (entry_edits(before) + seq![head])
                        + t);
                },
                None => {},
            }
            assert forall|j: int| 0 <= j < i + 1 implies #[trigger] out@[j].0@ == es[j].0 by {
                if j < i {
                    assert(out@[j] == before[j]);
                }
            }
            assert forall|j: int| 0 <= j < out@.len() implies (#[trigger] entry_edits(out@)[j]).1
                is Modify ==> crate::invert_law::formed(entry_edits(out@)[j].1->Modify_0) by {
                if j < i {
                    assert(entry_edits(out@)[j] == entry_edits(before)[j]);
                }
            }
        }
        i = i + 1;
    }
    proof {
        assert(es.subrange(i as int, es.len() as int) =~= Seq::<(Seq<char>, EntryEdit)>::empty());
        assert(entry_edits(out@) + Seq::<(Seq<char>, EntryEdit)>::empty() =~= entry_edits(out@));
        assert forall|a: int, b: int| 0 <= a < b < keyed_entries(out@).len() implies key_lt(
            #[trigger] keyed_entries(out@)[a].0,
            #[trigger] keyed_entries(out@)[b].0,
        ) by {
            assert(keyed_entries(out@)[a] == keyed(out@[a]));
            assert(keyed_entries(out@)[b] == keyed(out@[b]));
        }
    }
    Ok(Change::from_map(MapChange::from_sorted(out)))
}

fn invert_list(change: &ListChange, base: &Value, Ghost(p): Ghost<Seq<SegView>>) -> (r: Result<
    Change,
    InvertError,
>)
    requires
        apply_edit(Edit::List(change@), base@, p) is Ok,
    ensures
        match invert_edit(Edit::List(change@), base@) {
            Some(inv) => r is Ok && r->Ok_0@ == inv,
            None => r == Err::<Change, InvertError>(InvertError::LengthOverflow),
        },
        r is Ok ==> crate::invert_law::formed(r->Ok_0@),
    decreases change@,
{
    let base_list = match base.kind() {
        ValueKind::List(l) => l,
        _ => {
            proof {
                assert(false);
            }
            return Err(InvertError::LengthOverflow);
        },
    };
    let items = base_list.as_slice();
    let item_count = items.len();
    let ops = change.ops();
    let ghost steps = change@;
    let ghost citems = contents(items@);
    let mut out: Vec<ListOp> = Vec::new();
    let mut index: usize = 0;
    let mut i: usize = 0;
    proof {
        assert(steps.subrange(0, steps.len() as int) =~= steps);
        assert(list_steps(out@) =~= Seq::<ListStep>::empty());
        assert(steps_before(Seq::empty(), invert_steps(steps, citems, 0)) == invert_steps(
            steps,
            citems,
            0,
        )) by {
            if invert_steps(steps, citems, 0) is Some {
                assert(Seq::<ListStep>::empty() + invert_steps(steps, citems, 0)->Some_0
                    =~= invert_steps(steps, citems, 0)->Some_0);
            }
        }
    }
    while i < ops.len()
        invariant
            list_steps(ops@) == steps,
            steps == change@,
            citems == contents(items@),
            citems == base_list@,
            base@ == Content::List(citems),
            citems.len() == items@.len(),
            items@.len() == item_count,
            i <= steps.len(),
            index <= citems.len(),
            apply_list(steps.subrange(i as int, steps.len() as int), citems, index as nat, p) is Ok,
            steps_before(
                list_steps(out@),
                invert_steps(steps.subrange(i as int, steps.len() as int), citems, index as nat),
            ) == invert_steps(steps, citems, 0),
        decreases steps.len() - i,
    {
        let ghost cur = steps.subrange(i as int, steps.len() as int);
        let ghost rest = steps.subrange(i + 1, steps.len() as int);
        let ghost before = out@;
        proof {
            assert(cur[0] == steps[i as int]);
            assert(cur.subrange(1, cur.len() as int) =~= rest);
            assert(steps[i as int] == step_of(ops@[i as int]));
        }
        let (inverse, next) = match &ops[i] {
            ListOp::Retain(n) => {
                proof {
                    assert(cur[0] == ListStep::Retain(*n as nat));
                    assert(index + *n <= citems.len());
                }
                (ListOp::Retain(*n), index + *n)
            },
            ListOp::Insert(values) => (ListOp::Delete(values.len()), index),
            ListOp::Delete(n) => {
                proof {
                    assert(cur[0] == ListStep::Delete(*n as nat));
                    assert(index + *n <= citems.len());
                }
                let mut removed: Vec<Value> = Vec::new();
                crate::apply_change::copy_range(&mut removed, items, index, index + *n);
                proof {
                    assert(contents(removed@) =~= citems.subrange(index as int, index + *n));
                }
                (ListOp::Insert(removed), index + *n)
            },
            ListOp::Modify(child) => {
                proof {
                    assert(decreases_to!(steps => steps[i as int]));
                    assert(decreases_to!(steps[i as int] => child@));
                    assert(citems[index as int] == items@[index as int]@);
                }
                let inverse_child = match invert_at(
                    child,
                    &items[index],
                    Ghost(p.push(SegView::Index(index as nat))),
                ) {
                    Ok(c) => c,
                    Err(e) => {
                        proof {
                            assert(invert_steps(cur, citems, index as nat) is None);
                        }
                        return Err(e);
                    },
                };
                (ListOp::Modify(inverse_child), index + 1)
            },
        };
        let ghost head = step_of(inverse);
        out.push(inverse);
        proof {
            assert(list_steps(out@) =~= list_steps(before) + seq![head]);
            match invert_steps(rest, citems, next as nat) {
                Some(t) => {
                    assert(list_steps(before) + (seq![head] + t) =~= (list_steps(before) + seq![head])
                        + t);
                },
                None => {},
            }
        }
        index = next;
        i = i + 1;
    }
    proof {
        assert(steps.subrange(i as int, steps.len() as int) =~= Seq::<ListStep>::empty());
        assert(list_steps(out@) + Seq::<ListStep>::empty() =~= list_steps(out@));
    }
    match ListChange::from_ops(out) {
        Ok(inverse) => Ok(Change::from_list(inverse)),
        Err(_) => Err(InvertError::LengthOverflow),
    }
}

} // verus!
