//! A flat account of what a Change does to the Value it applies to: one
//! entry per replaced, inserted, deleted or added part, each located by its
//! Path, with Text positions counted in UTF-16 code units of the base.
use crate::apply_change::{apply, apply_edit, apply_list, copy_range, fault_of};
use crate::change::{in_len, TextChange, TextOp};
use crate::content::{contents, Content, Value, ValueKind};
use crate::error::ApplyError;
use crate::invert_change::{entry_applies, lemma_entries_apply};
use crate::keyed::keys_sorted;
use crate::model::{apply_ops, consumed, expand, lemma_consumed_concat, lemma_consumed_keeps, lemma_consumed_puts, lemma_expand_push, OpView};
use crate::path::{prefix, Path, PathSeg, SegView};
use crate::structure::{entry_edit_of, entry_edits, list_steps, step_of, Change, ChangeKind, EntryEdit, Edit, ListOp, ListStep, MapEntryChange};
use crate::value::{utf16_len, Text};
use vstd::prelude::*;

verus! {

/// One entry of the account of a Change.
#[derive(Debug, PartialEq, Eq)]
pub enum InspectEntry {
    /// The Value at `path` is replaced by `value`.
    ValueReplace { path: Path, value: Value },
    /// The Int at `path` is increased by `delta`.
    IntAdd { path: Path, delta: i64 },
    /// The Map at `path` gets `value` at `key`, new or replacing.
    MapSet { path: Path, key: String, value: Value },
    /// The Map at `path` loses `key`.
    MapDelete { path: Path, key: String },
    /// The List at `path` gets `values` before the base element `index`.
    ListInsert { path: Path, index: usize, values: Vec<Value> },
    /// The List at `path` loses its base elements `from` up to `to`.
    ListDelete { path: Path, from: usize, to: usize },
    /// The List at `path` gets `value` in place of its base element `index`.
    ListSet { path: Path, index: usize, value: Value },
    /// The Text at `path` gets `text` at UTF-16 position `at` of the base.
    TextInsert { path: Path, at: usize, text: String },
    /// The Text at `path` loses the UTF-16 range `from` up to `to` of the base.
    TextDelete { path: Path, from: usize, to: usize },
}

/// The mathematical form of an entry.
pub enum EntryView {
    ValueReplace(Seq<SegView>, Content),
    IntAdd(Seq<SegView>, i64),
    MapSet(Seq<SegView>, Seq<char>, Content),
    MapDelete(Seq<SegView>, Seq<char>),
    ListInsert(Seq<SegView>, nat, Seq<Content>),
    ListDelete(Seq<SegView>, nat, nat),
    ListSet(Seq<SegView>, nat, Content),
    TextInsert(Seq<SegView>, nat, Seq<char>),
    TextDelete(Seq<SegView>, nat, nat),
}

impl View for InspectEntry {
    type V = EntryView;

    open spec fn view(&self) -> EntryView {
        match self {
            InspectEntry::ValueReplace { path, value } => EntryView::ValueReplace(path@, value@),
            InspectEntry::IntAdd { path, delta } => EntryView::IntAdd(path@, *delta),
            InspectEntry::MapSet { path, key, value } => EntryView::MapSet(path@, key@, value@),
            InspectEntry::MapDelete { path, key } => EntryView::MapDelete(path@, key@),
            InspectEntry::ListInsert { path, index, values } => EntryView::ListInsert(
                path@,
                *index as nat,
                contents(values@),
            ),
            InspectEntry::ListDelete { path, from, to } => EntryView::ListDelete(
                path@,
                *from as nat,
                *to as nat,
            ),
            InspectEntry::ListSet { path, index, value } => EntryView::ListSet(
                path@,
                *index as nat,
                value@,
            ),
            InspectEntry::TextInsert { path, at, text } => EntryView::TextInsert(
                path@,
                *at as nat,
                text@,
            ),
            InspectEntry::TextDelete { path, from, to } => EntryView::TextDelete(
                path@,
                *from as nat,
                *to as nat,
            ),
        }
    }
}

/// The mathematical forms of entries.
pub open spec fn entry_views(s: Seq<InspectEntry>) -> Seq<EntryView> {
    Seq::new(s.len(), |i: int| s[i]@)
}

/// The account of `e` applied to `base`, located at `p`.
pub open spec fn inspect_edit(e: Edit, base: Content, p: Seq<SegView>) -> Seq<EntryView>
    decreases e,
{
    match e {
        Edit::Noop => seq![],
        Edit::Replace(v) => seq![EntryView::ValueReplace(p, v)],
        Edit::Int(d) => seq![EntryView::IntAdd(p, d)],
        Edit::KeyMap(es) => inspect_entries(es, base->KeyMap_0, p),
        Edit::List(steps) => inspect_steps(steps, base->List_0, 0, p),
        Edit::Text(ops) => inspect_text(ops, base->Text_0, 0, p),
    }
}

/// The account of Map entry changes applied to the Map entries `m` at `p`.
pub open spec fn inspect_entries(
    es: Seq<(Seq<char>, EntryEdit)>,
    m: Map<Seq<char>, Content>,
    p: Seq<SegView>,
) -> Seq<EntryView>
    decreases es,
{
    if es.len() == 0 {
        seq![]
    } else {
        let k = es[0].0;
        let head = match es[0].1 {
            EntryEdit::Insert(v) => seq![EntryView::MapSet(p, k, v)],
            EntryEdit::Delete => seq![EntryView::MapDelete(p, k)],
            EntryEdit::Modify(c) => match c {
                Edit::Replace(v) => seq![EntryView::MapSet(p, k, v)],
                _ => inspect_edit(c, m[k], p.push(SegView::Key(k))),
            },
        };
        head + inspect_entries(es.subrange(1, es.len() as int), m, p)
    }
}

/// The account of List steps applied to `items` from base position `index`
/// of the List at `p`.
pub open spec fn inspect_steps(steps: Seq<ListStep>, items: Seq<Content>, index: nat, p: Seq<SegView>) -> Seq<
    EntryView,
>
    decreases steps,
{
    if steps.len() == 0 {
        seq![]
    } else {
        let rest = steps.subrange(1, steps.len() as int);
        match steps[0] {
            ListStep::Retain(n) => inspect_steps(rest, items, index + n, p),
            ListStep::Insert(vs) => seq![EntryView::ListInsert(p, index, vs)] + inspect_steps(
                rest,
                items,
                index,
                p,
            ),
            ListStep::Delete(n) => seq![EntryView::ListDelete(p, index, index + n)] + inspect_steps(
                rest,
                items,
                index + n,
                p,
            ),
            ListStep::Modify(c) => {
                let head = match c {
                    Edit::Replace(v) => seq![EntryView::ListSet(p, index, v)],
                    _ => inspect_edit(c, items[index as int], p.push(SegView::Index(index))),
                };
                head + inspect_steps(rest, items, index + 1, p)
            },
        }
    }
}

/// The account of Text operations applied to `s` from scalar position
/// `index` of the Text at `p`, positions counted in UTF-16 code units.
pub open spec fn inspect_text(ops: Seq<OpView>, s: Seq<char>, index: nat, p: Seq<SegView>) -> Seq<
    EntryView,
>
    decreases ops.len(),
{
    if ops.len() == 0 {
        seq![]
    } else {
        let rest = ops.subrange(1, ops.len() as int);
        match ops[0] {
            OpView::Retain(n) => inspect_text(rest, s, index + n, p),
            OpView::Insert(t) => seq![
                EntryView::TextInsert(p, utf16_len(s.take(index as int)), t),
            ] + inspect_text(rest, s, index, p),
            OpView::Delete(n) => seq![
                EntryView::TextDelete(
                    p,
                    utf16_len(s.take(index as int)),
                    utf16_len(s.take((index + n) as int)),
                ),
            ] + inspect_text(rest, s, index + n, p),
        }
    }
}

/// The scalars a stream consumes are the scalars its units consume.
pub(crate) proof fn lemma_in_len_consumed(ops: Seq<OpView>)
    ensures
        in_len(ops) == consumed(expand(ops)),
    decreases ops.len(),
{
    if ops.len() > 0 {
        let init = ops.drop_last();
        lemma_in_len_consumed(init);
        lemma_expand_push(init, ops.last());
        assert(init.push(ops.last()) =~= ops);
        lemma_consumed_concat(expand(init), crate::model::op_steps(ops.last()));
        lemma_consumed_keeps(crate::change::op_units(ops.last()));
        match ops.last() {
            OpView::Insert(t) => lemma_consumed_puts(t),
            _ => {},
        }
    }
}

/// A prefix of a stream consumes no more than the stream.
pub(crate) proof fn lemma_in_len_prefix(ops: Seq<OpView>, k: int)
    requires
        0 <= k <= ops.len(),
    ensures
        in_len(ops.take(k)) <= in_len(ops),
    decreases ops.len() - k,
{
    if k < ops.len() {
        lemma_in_len_prefix(ops, k + 1);
        assert(ops.take(k + 1).drop_last() =~= ops.take(k));
    } else {
        assert(ops.take(k) =~= ops);
    }
}

/// A copy of `path`.
pub(crate) fn copy_path(path: &Path) -> (c: Path)
    ensures
        c@ == path@,
{
    let c = prefix(path, path.segments().len());
    proof {
        assert(path@.take(path@.len() as int) =~= path@);
    }
    c
}

/// Lists what `change` does to `base`: fails with the apply error when it
/// does not apply, and otherwise gives one entry per replaced, inserted,
/// deleted or added part, Map entries in key order and List and Text
/// operations in stream order.
pub fn inspect_change(change: &Change, base: &Value) -> (r: Result<Vec<InspectEntry>, ApplyError>)
    ensures
        match apply_edit(change@, base@, Seq::empty()) {
            Err(f) => r is Err && fault_of(r->Err_0) == f,
            Ok(_) => r is Ok && entry_views(r->Ok_0@) == inspect_edit(change@, base@, Seq::empty()),
        },
{
    match apply(base, change) {
        Ok(_) => {},
        Err(e) => {
            return Err(e);
        },
    }
    let mut path = Path::new();
    let mut out: Vec<InspectEntry> = Vec::new();
    proof {
        assert(entry_views(out@) =~= Seq::<EntryView>::empty());
    }
    inspect_at(change, base, &mut path, &mut out);
    proof {
        assert(Seq::<EntryView>::empty() + inspect_edit(change@, base@, Seq::empty()) =~= inspect_edit(
            change@,
            base@,
            Seq::empty(),
        ));
    }
    Ok(out)
}

proof fn lemma_views_push(s: Seq<InspectEntry>, e: InspectEntry)
    ensures
        entry_views(s.push(e)) == entry_views(s).push(e@),
{
    assert(entry_views(s.push(e)) =~= entry_views(s).push(e@));
}

fn inspect_at(change: &Change, base: &Value, path: &mut Path, out: &mut Vec<InspectEntry>)
    requires
        apply_edit(change@, base@, old(path)@) is Ok,
    ensures
        final(path)@ == old(path)@,
        entry_views(final(out)@) == entry_views(old(out)@) + inspect_edit(change@, base@, old(path)@),
    decreases change@,
{
    let ghost before = entry_views(out@);
    let ghost p = path@;
    match change.kind() {
        ChangeKind::Noop => {
            proof {
                assert(before + Seq::<EntryView>::empty() =~= before);
            }
        },
        ChangeKind::Replace(value) => {
            let e = InspectEntry::ValueReplace { path: copy_path(path), value: value.deep_copy() };
            proof {
                lemma_views_push(out@, e);
            }
            out.push(e);
        },
        ChangeKind::Int(crate::change::IntChange::Add(delta)) => {
            let e = InspectEntry::IntAdd { path: copy_path(path), delta: *delta };
            proof {
                lemma_views_push(out@, e);
            }
            out.push(e);
        },
        ChangeKind::KeyMap(map_change) => inspect_map(map_change, base, path, out),
        ChangeKind::List(list_change) => inspect_list(list_change, base, path, out),
        ChangeKind::Text(text_change) => inspect_text_change(text_change, base, path, out),
    }
}

fn inspect_map(
    change: &crate::structure::MapChange,
    base: &Value,
    path: &mut Path,
    out: &mut Vec<InspectEntry>,
)
    requires
        apply_edit(Edit::KeyMap(change@), base@, old(path)@) is Ok,
    ensures
        final(path)@ == old(path)@,
        entry_views(final(out)@) == entry_views(old(out)@) + inspect_edit(
            Edit::KeyMap(change@),
            base@,
            old(path)@,
        ),
    decreases change@,
{
    let base_map = match base.kind() {
        ValueKind::KeyMap(m) => m,
        _ => {
            proof {
                assert(false);
            }
            return ;
        },
    };
    let entries = change.entries();
    let ghost es = change@;
    let ghost m = base_map@;
    let ghost p = path@;
    let ghost start = entry_views(out@);
    proof {
        lemma_entries_apply(es, m, p);
        assert(es.subrange(0, es.len() as int) =~= es);
        assert(start + inspect_entries(es, m, p) == start + inspect_entries(es, m, p));
    }
    let mut i: usize = 0;
    while i < entries.len()
        invariant
            entry_edits(entries@) == es,
            es == change@,
            m == base_map@,
            base@ == Content::KeyMap(m),
            keys_sorted(es),
            i <= es.len(),
            path@ == p,
            forall|j: int| 0 <= j < es.len() ==> #[trigger] entry_applies(es[j], m, p),
            entry_views(out@) + inspect_entries(es.subrange(i as int, es.len() as int), m, p) == start
                + inspect_entries(es, m, p),
        decreases es.len() - i,
    {
        let ghost cur = es.subrange(i as int, es.len() as int);
        let ghost rest = es.subrange(i + 1, es.len() as int);
        let ghost done = entry_views(out@);
        let key = &entries[i].0;
        proof {
            assert(cur[0] == es[i as int]);
            assert(cur.subrange(1, cur.len() as int) =~= rest);
            assert(es[i as int] == (entries@[i as int].0@, entry_edit_of(entries@[i as int].1)));
            assert(entry_applies(es[i as int], m, p));
        }
        let ghost k = key@;
        match &entries[i].1 {
            MapEntryChange::Insert(v) => {
                let e = InspectEntry::MapSet { path: copy_path(path), key: key.clone(), value: v.deep_copy() };
                proof {
                    lemma_views_push(out@, e);
                }
                out.push(e);
            },
            MapEntryChange::Delete => {
                let e = InspectEntry::MapDelete { path: copy_path(path), key: key.clone() };
                proof {
                    lemma_views_push(out@, e);
                }
                out.push(e);
            },
            MapEntryChange::Modify(child) => {
                match child.kind() {
                    ChangeKind::Replace(v) => {
                        let e = InspectEntry::MapSet {
                            path: copy_path(path),
                            key: key.clone(),
                            value: v.deep_copy(),
                        };
                        proof {
                            lemma_views_push(out@, e);
                        }
                        out.push(e);
                    },
                    _ => {
                        let child_base = match base_map.get(key.as_str()) {
                            Some(v) => v,
                            None => {
                                proof {
                                    assert(false);
                                }
                                return ;
                            },
                        };
                        proof {
                            assert(decreases_to!(es => es[i as int]));
                            assert(decreases_to!(es[i as int] => es[i as int].1));
                            assert(decreases_to!(es[i as int].1 => es[i as int].1->Modify_0));
                        }
                        path.push(PathSeg::Key(key.clone()));
                        inspect_at(child, child_base, path, out);
                        path.pop();
                        proof {
                            assert(p.push(SegView::Key(k)).drop_last() =~= p);
                        }
                    },
                }
            },
        }
        proof {
            let head = entry_views(out@).subrange(done.len() as int, entry_views(out@).len() as int);
            assert(entry_views(out@) =~= done + head);
            assert(inspect_entries(cur, m, p) == head + inspect_entries(rest, m, p));
            assert(done + (head + inspect_entries(rest, m, p)) =~= (done + head) + inspect_entries(
                rest,
                m,
                p,
            ));
        }
        i = i + 1;
    }
    proof {
        assert(es.subrange(i as int, es.len() as int) =~= Seq::<(Seq<char>, EntryEdit)>::empty());
        assert(entry_views(out@) + Seq::<EntryView>::empty() =~= entry_views(out@));
    }
}

fn inspect_list(
    change: &crate::structure::ListChange,
    base: &Value,
    path: &mut Path,
    out: &mut Vec<InspectEntry>,
)
    requires
        apply_edit(Edit::List(change@), base@, old(path)@) is Ok,
    ensures
        final(path)@ == old(path)@,
        entry_views(final(out)@) == entry_views(old(out)@) + inspect_edit(
            Edit::List(change@),
            base@,
            old(path)@,
        ),
    decreases change@,
{
    let base_list = match base.kind() {
        ValueKind::List(l) => l,
        _ => {
            proof {
                assert(false);
            }
            return ;
        },
    };
    let items = base_list.as_slice();
    let item_count = items.len();
    let ops = change.ops();
    let ghost steps = change@;
    let ghost citems = contents(items@);
    let ghost p = path@;
    let ghost start = entry_views(out@);
    let mut index: usize = 0;
    let mut i: usize = 0;
    proof {
        assert(steps.subrange(0, steps.len() as int) =~= steps);
    }
    while i < ops.len()
        invariant
            list_steps(ops@) == steps,
            steps == change@,
            citems == contents(items@),
            citems == base_list@,
            base@ == Content::List(citems),
            citems.len() == items@.len(),
            items@.len() == item_count,
            i <= steps.len(),
            index <= citems.len(),
            path@ == p,
            apply_list(steps.subrange(i as int, steps.len() as int), citems, index as nat, p) is Ok,
            entry_views(out@) + inspect_steps(
                steps.subrange(i as int, steps.len() as int),
                citems,
                index as nat,
                p,
            ) == start + inspect_steps(steps, citems, 0, p),
        decreases steps.len() - i,
    {
        let ghost cur = steps.subrange(i as int, steps.len() as int);
        let ghost rest = steps.subrange(i + 1, steps.len() as int);
        let ghost done = entry_views(out@);
        proof {
            assert(cur[0] == steps[i as int]);
            assert(cur.subrange(1, cur.len() as int) =~= rest);
            assert(steps[i as int] == step_of(ops@[i as int]));
        }
        let next = match &ops[i] {
            ListOp::Retain(n) => {
                proof {
                    assert(index + *n <= citems.len());
                }
                index + *n
            },
            ListOp::Insert(values) => {
                let mut copied: Vec<Value> = Vec::new();
                copy_range(&mut copied, values.as_slice(), 0, values.len());
                proof {
                    assert(contents(copied@) =~= contents(values@));
                }
                let e = InspectEntry::ListInsert { path: copy_path(path), index, values: copied };
                proof {
                    lemma_views_push(out@, e);
                }
                out.push(e);
                index
            },
            ListOp::Delete(n) => {
                proof {
                    assert(index + *n <= citems.len());
                }
                let e = InspectEntry::ListDelete { path: copy_path(path), from: index, to: index + *n };
                proof {
                    lemma_views_push(out@, e);
                }
                out.push(e);
                index + *n
            },
            ListOp::Modify(child) => {
                proof {
                    assert(index < citems.len());
                    assert(citems[index as int] == items@[index as int]@);
                }
                match child.kind() {
                    ChangeKind::Replace(v) => {
                        let e = InspectEntry::ListSet { path: copy_path(path), index, value: v.deep_copy() };
                        proof {
                            lemma_views_push(out@, e);
                        }
                        out.push(e);
                    },
                    _ => {
                        proof {
                            assert(decreases_to!(steps => steps[i as int]));
                            assert(decreases_to!(steps[i as int] => steps[i as int]->Modify_0));
                        }
                        path.push(PathSeg::Index(index));
                        inspect_at(child, &items[index], path, out);
                        path.pop();
                        proof {
                            assert(p.push(SegView::Index(index as nat)).drop_last() =~= p);
                        }
                    },
                }
                index + 1
            },
        };
        proof {
            let head = entry_views(out@).subrange(done.len() as int, entry_views(out@).len() as int);
            assert(entry_views(out@) =~= done + head);
            assert(inspect_steps(cur, citems, index as nat, p) == head + inspect_steps(
                rest,
                citems,
                next as nat,
                p,
            ));
            assert(done + (head + inspect_steps(rest, citems, next as nat, p)) =~= (done + head)
                + inspect_steps(rest, citems, next as nat, p));
        }
        index = next;
        i = i + 1;
    }
    proof {
        assert(steps.subrange(i as int, steps.len() as int) =~= Seq::<ListStep>::empty());
        assert(entry_views(out@) + Seq::<EntryView>::empty() =~= entry_views(out@));
    }
}

fn inspect_text_change(
    change: &TextChange,
    base: &Value,
    path: &mut Path,
    out: &mut Vec<InspectEntry>,
)
    requires
        apply_edit(Edit::Text(change@), base@, old(path)@) is Ok,
    ensures
        final(path)@ == old(path)@,
        entry_views(final(out)@) == entry_views(old(out)@) + inspect_edit(
            Edit::Text(change@),
            base@,
            old(path)@,
        ),
{
    let text = match base.kind() {
        ValueKind::Text(t) => t,
        _ => {
            proof {
                assert(false);
            }
            return ;
        },
    };
    let ops = change.ops();
    let ghost v = change@;
    let ghost s = text@;
    let ghost p = path@;
    let ghost start = entry_views(out@);
    let total = text.len();
    let _ = crate::text_buf::str_byte_len(text.as_str());
    proof {
        crate::richtext::lemma_utf16_len_le_bytes(s);
        assert(s.take(s.len() as int) =~= s);
        lemma_in_len_consumed(v);
        assert(v.subrange(0, v.len() as int) =~= v);
        assert(v.take(0) =~= Seq::<OpView>::empty());
    }
    let mut index: usize = 0;
    let mut i: usize = 0;
    while i < ops.len()
        invariant
            ops.deep_view() == v,
            v == change@,
            s == text@,
            base@ == Content::Text(s),
            total == s.len(),
            in_len(v) <= s.len(),
            utf16_len(s) <= isize::MAX,
            i <= v.len(),
            index == in_len(v.take(i as int)),
            path@ == p,
            entry_views(out@) + inspect_text(v.subrange(i as int, v.len() as int), s, index as nat, p)
                == start + inspect_text(v, s, 0, p),
        decreases v.len() - i,
    {
        let ghost cur = v.subrange(i as int, v.len() as int);
        let ghost rest = v.subrange(i + 1, v.len() as int);
        let ghost done = entry_views(out@);
        proof {
            assert(cur[0] == v[i as int]);
            assert(cur.subrange(1, cur.len() as int) =~= rest);
            assert(v.take(i + 1).drop_last() =~= v.take(i as int));
            assert(v.take(i + 1).last() == v[i as int]);
            assert(v[i as int] == ops@[i as int].deep_view());
            lemma_in_len_prefix(v, i + 1);
            assert(s.take(s.len() as int) =~= s);
            crate::value::lemma_utf16_len_ordered(s, index as int, s.len() as int);
            if v[i as int] is Delete {
                crate::value::lemma_utf16_len_ordered(s, index + v[i as int]->Delete_0, s.len() as int);
            }
        }
        let next = match &ops[i] {
            TextOp::Retain(n) => index + *n,
            TextOp::Insert(t) => {
                let at = match text.code_point_to_utf16(index) {
                    Ok(a) => a,
                    Err(_) => {
                        proof {
                            assert(false);
                        }
                        return ;
                    },
                };
                let e = InspectEntry::TextInsert { path: copy_path(path), at, text: t.clone() };
                proof {
                    lemma_views_push(out@, e);
                }
                out.push(e);
                index
            },
            TextOp::Delete(n) => {
                let from = match text.code_point_to_utf16(index) {
                    Ok(a) => a,
                    Err(_) => {
                        proof {
                            assert(false);
                        }
                        return ;
                    },
                };
                let to = match text.code_point_to_utf16(index + *n) {
                    Ok(a) => a,
                    Err(_) => {
                        proof {
                            assert(false);
                        }
                        return ;
                    },
                };
                let e = InspectEntry::TextDelete { path: copy_path(path), from, to };
                proof {
                    lemma_views_push(out@, e);
                }
                out.push(e);
                index + *n
            },
        };
        proof {
            let head = entry_views(out@).subrange(done.len() as int, entry_views(out@).len() as int);
            assert(entry_views(out@) =~= done + head);
            assert(inspect_text(cur, s, index as nat, p) == head + inspect_text(rest, s, next as nat, p));
            assert(done + (head + inspect_text(rest, s, next as nat, p)) =~= (done + head)
                + inspect_text(rest, s, next as nat, p));
        }
        index = next;
        i = i + 1;
    }
    proof {
        assert(v.subrange(i as int, v.len() as int) =~= Seq::<OpView>::empty());
        assert(entry_views(out@) + Seq::<EntryView>::empty() =~= entry_views(out@));
    }
}

} // verus!
