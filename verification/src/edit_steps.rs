//! A Change restated as edit steps an editor can replay: whole-value
//! replacements and additions, Map entry insertions and deletions, and List
//! and Text operation streams, Text lengths counted in UTF-16 code units of
//! the base.
use crate::apply_change::{apply, apply_edit, apply_list, copy_range, fault_of};
use crate::change::{in_len, TextChange, TextOp};
use crate::content::{contents, Content, Value, ValueKind};
use crate::error::ApplyError;
use crate::inspect::{copy_path, lemma_in_len_consumed, lemma_in_len_prefix};
use crate::invert_change::{entry_applies, lemma_entries_apply};
use crate::keyed::keys_sorted;
use crate::model::OpView;
use crate::path::{Path, PathSeg, SegView};
use crate::structure::{entry_edit_of, entry_edits, list_steps, step_of, Change, ChangeKind, EntryEdit, Edit, ListOp, ListStep, MapEntryChange};
use crate::value::utf16_len;
use vstd::prelude::*;

verus! {

/// One step of a Text stream; lengths count UTF-16 code units of the base.
#[derive(Debug, PartialEq, Eq)]
pub enum TextEditStep {
    /// Keeps this many code units.
    Retain(usize),
    /// Inserts the text.
    Insert(String),
    /// Deletes this many code units.
    Delete(usize),
}

/// One step of a List stream.
#[derive(Debug, PartialEq, Eq)]
pub enum ListEditStep {
    /// Keeps this many elements.
    Retain(usize),
    /// Inserts the Values.
    Insert(Vec<Value>),
    /// Deletes this many elements.
    Delete(usize),
    /// Changes the next element by the steps, located from that element.
    Modify(Vec<EditStep>),
}

/// One edit step of a Change.
#[derive(Debug, PartialEq, Eq)]
pub enum EditStep {
    /// Replaces the Value at `path`.
    Replace { path: Path, value: Value },
    /// Adds `delta` to the Int at `path`.
    Int { path: Path, delta: i64 },
    /// Inserts the Map entry at `path`, whose last segment is its key.
    MapInsert { path: Path, value: Value },
    /// Deletes the Map entry at `path`, whose last segment is its key.
    MapDelete { path: Path },
    /// Runs the List operations on the List at `path`.
    List { path: Path, ops: Vec<ListEditStep> },
    /// Runs the Text operations on the Text at `path`.
    Text { path: Path, ops: Vec<TextEditStep> },
}

/// The mathematical form of a Text step.
pub enum TextStepView {
    Retain(nat),
    Insert(Seq<char>),
    Delete(nat),
}

/// The mathematical form of a List step.
pub enum ListStepView {
    Retain(nat),
    Insert(Seq<Content>),
    Delete(nat),
    Modify(Seq<StepView>),
}

/// The mathematical form of an edit step.
pub enum StepView {
    Replace(Seq<SegView>, Content),
    Int(Seq<SegView>, i64),
    MapInsert(Seq<SegView>, Content),
    MapDelete(Seq<SegView>),
    List(Seq<SegView>, Seq<ListStepView>),
    Text(Seq<SegView>, Seq<TextStepView>),
}

pub open spec fn text_step_view(s: TextEditStep) -> TextStepView {
    match s {
        TextEditStep::Retain(n) => TextStepView::Retain(n as nat),
        TextEditStep::Insert(t) => TextStepView::Insert(t@),
        TextEditStep::Delete(n) => TextStepView::Delete(n as nat),
    }
}

pub open spec fn text_step_views(s: Seq<TextEditStep>) -> Seq<TextStepView> {
    Seq::new(s.len(), |i: int| text_step_view(s[i]))
}

/// The mathematical form of a List step.
pub closed spec fn list_step_view(s: ListEditStep) -> ListStepView
    decreases s,
{
    match s {
        ListEditStep::Retain(n) => ListStepView::Retain(n as nat),
        ListEditStep::Insert(vs) => ListStepView::Insert(contents(vs@)),
        ListEditStep::Delete(n) => ListStepView::Delete(n as nat),
        ListEditStep::Modify(steps) => ListStepView::Modify(
            Seq::new(
                steps@.len(),
                |i: int|
                    if 0 <= i < steps@.len() {
                        step_view(steps@[i])
                    } else {
                        StepView::MapDelete(Seq::empty())
                    },
            ),
        ),
    }
}

/// The mathematical form of an edit step.
pub closed spec fn step_view(s: EditStep) -> StepView
    decreases s,
{
    match s {
        EditStep::Replace { path, value } => StepView::Replace(path@, value@),
        EditStep::Int { path, delta } => StepView::Int(path@, delta),
        EditStep::MapInsert { path, value } => StepView::MapInsert(path@, value@),
        EditStep::MapDelete { path } => StepView::MapDelete(path@),
        EditStep::List { path, ops } => StepView::List(
            path@,
            Seq::new(
                ops@.len(),
                |i: int|
                    if 0 <= i < ops@.len() {
                        list_step_view(ops@[i])
                    } else {
                        ListStepView::Retain(0)
                    },
            ),
        ),
        EditStep::Text { path, ops } => StepView::Text(path@, text_step_views(ops@)),
    }
}

/// The mathematical forms of edit steps.
pub open spec fn step_views(s: Seq<EditStep>) -> Seq<StepView> {
    Seq::new(s.len(), |i: int| step_view(s[i]))
}

/// The mathematical forms of List steps.
pub open spec fn list_step_views(s: Seq<ListEditStep>) -> Seq<ListStepView> {
    Seq::new(s.len(), |i: int| list_step_view(s[i]))
}

proof fn lemma_step_view_shapes()
    ensures
        forall|path: Path, value: Value| #[trigger]
            step_view(EditStep::Replace { path, value }) == StepView::Replace(path@, value@),
        forall|path: Path, delta: i64| #[trigger]
            step_view(EditStep::Int { path, delta }) == StepView::Int(path@, delta),
        forall|path: Path, value: Value| #[trigger]
            step_view(EditStep::MapInsert { path, value }) == StepView::MapInsert(path@, value@),
        forall|path: Path| #[trigger]
            step_view(EditStep::MapDelete { path }) == StepView::MapDelete(path@),
        forall|path: Path, ops: Vec<ListEditStep>| #[trigger]
            step_view(EditStep::List { path, ops }) == StepView::List(path@, list_step_views(ops@)),
        forall|path: Path, ops: Vec<TextEditStep>| #[trigger]
            step_view(EditStep::Text { path, ops }) == StepView::Text(path@, text_step_views(ops@)),
        forall|n: usize| #[trigger] list_step_view(ListEditStep::Retain(n)) == ListStepView::Retain(n as nat),
        forall|vs: Vec<Value>| #[trigger]
            list_step_view(ListEditStep::Insert(vs)) == ListStepView::Insert(contents(vs@)),
        forall|n: usize| #[trigger] list_step_view(ListEditStep::Delete(n)) == ListStepView::Delete(n as nat),
        forall|steps: Vec<EditStep>| #[trigger]
            list_step_view(ListEditStep::Modify(steps)) == ListStepView::Modify(step_views(steps@)),
{
    assert forall|path: Path, ops: Vec<ListEditStep>| #[trigger]
        step_view(EditStep::List { path, ops }) == StepView::List(path@, list_step_views(ops@)) by {
        assert(step_view(EditStep::List { path, ops })->List_1 =~= list_step_views(ops@));
    }
    assert forall|steps: Vec<EditStep>| #[trigger]
        list_step_view(ListEditStep::Modify(steps)) == ListStepView::Modify(step_views(steps@)) by {
        assert(list_step_view(ListEditStep::Modify(steps))->Modify_0 =~= step_views(steps@));
    }
}

/// The edit steps of `e` applied to `base`, located at `p`.
pub open spec fn edit_steps_of(e: Edit, base: Content, p: Seq<SegView>) -> Seq<StepView>
    decreases e,
{
    match e {
        Edit::Noop => seq![],
        Edit::Replace(v) => seq![StepView::Replace(p, v)],
        Edit::Int(d) => seq![StepView::Int(p, d)],
        Edit::KeyMap(es) => entry_steps_of(es, base->KeyMap_0, p),
        Edit::List(steps) => seq![StepView::List(p, list_steps_of(steps, base->List_0, 0))],
        Edit::Text(ops) => seq![StepView::Text(p, text_steps_of(ops, base->Text_0, 0))],
    }
}

/// The edit steps of Map entry changes applied to the entries `m` at `p`.
pub open spec fn entry_steps_of(es: Seq<(Seq<char>, EntryEdit)>, m: Map<Seq<char>, Content>, p: Seq<SegView>) -> Seq<
    StepView,
>
    decreases es,
{
    if es.len() == 0 {
        seq![]
    } else {
        let k = es[0].0;
        let q = p.push(SegView::Key(k));
        let head = match es[0].1 {
            EntryEdit::Insert(v) => seq![StepView::MapInsert(q, v)],
            EntryEdit::Delete => seq![StepView::MapDelete(q)],
            EntryEdit::Modify(c) => edit_steps_of(c, m[k], q),
        };
        head + entry_steps_of(es.subrange(1, es.len() as int), m, p)
    }
}

/// The List steps of List operations applied to `items` from position
/// `index`; a modification's steps are located from its element.
pub open spec fn list_steps_of(steps: Seq<ListStep>, items: Seq<Content>, index: nat) -> Seq<ListStepView>
    decreases steps,
{
    if steps.len() == 0 {
        seq![]
    } else {
        let rest = steps.subrange(1, steps.len() as int);
        match steps[0] {
            ListStep::Retain(n) => seq![ListStepView::Retain(n)] + list_steps_of(rest, items, index + n),
            ListStep::Insert(vs) => seq![ListStepView::Insert(vs)] + list_steps_of(rest, items, index),
            ListStep::Delete(n) => seq![ListStepView::Delete(n)] + list_steps_of(rest, items, index + n),
            ListStep::Modify(c) => seq![
                ListStepView::Modify(edit_steps_of(c, items[index as int], Seq::empty())),
            ] + list_steps_of(rest, items, index + 1),
        }
    }
}

/// UTF-16 code units of the scalars of `s` from `from` up to `to`.
pub open spec fn utf16_span(s: Seq<char>, from: nat, to: nat) -> nat {
    (utf16_len(s.take(to as int)) - utf16_len(s.take(from as int))) as nat
}

/// The Text steps of Text operations applied to `s` from scalar position
/// `index`.
pub open spec fn text_steps_of(ops: Seq<OpView>, s: Seq<char>, index: nat) -> Seq<TextStepView>
    decreases ops.len(),
{
    if ops.len() == 0 {
        seq![]
    } else {
        let rest = ops.subrange(1, ops.len() as int);
        match ops[0] {
            OpView::Retain(n) => seq![TextStepView::Retain(utf16_span(s, index, index + n))]
                + text_steps_of(rest, s, index + n),
            OpView::Insert(t) => seq![TextStepView::Insert(t)] + text_steps_of(rest, s, index),
            OpView::Delete(n) => seq![TextStepView::Delete(utf16_span(s, index, index + n))]
                + text_steps_of(rest, s, index + n),
        }
    }
}

proof fn lemma_steps_push(s: Seq<EditStep>, e: EditStep)
    ensures
        step_views(s.push(e)) == step_views(s).push(step_view(e)),
{
    assert(step_views(s.push(e)) =~= step_views(s).push(step_view(e)));
}

proof fn lemma_list_steps_push(s: Seq<ListEditStep>, e: ListEditStep)
    ensures
        list_step_views(s.push(e)) == list_step_views(s).push(list_step_view(e)),
{
    assert(list_step_views(s.push(e)) =~= list_step_views(s).push(list_step_view(e)));
}

proof fn lemma_text_steps_push(s: Seq<TextEditStep>, e: TextEditStep)
    ensures
        text_step_views(s.push(e)) == text_step_views(s).push(text_step_view(e)),
{
    assert(text_step_views(s.push(e)) =~= text_step_views(s).push(text_step_view(e)));
}

/// Restates `change` as edit steps on `base`: fails with the apply error
/// when it does not apply, and otherwise gives its steps, Map entries in key
/// order, each List and Text stream as one step.
pub fn edit_steps(change: &Change, base: &Value) -> (r: Result<Vec<EditStep>, ApplyError>)
    ensures
        match apply_edit(change@, base@, Seq::empty()) {
            Err(f) => r is Err && fault_of(r->Err_0) == f,
            Ok(_) => r is Ok && step_views(r->Ok_0@) == edit_steps_of(change@, base@, Seq::empty()),
        },
{
    match apply(base, change) {
        Ok(_) => {},
        Err(e) => {
            return Err(e);
        },
    }
    let mut path = Path::new();
    let mut out: Vec<EditStep> = Vec::new();
    proof {
        assert(step_views(out@) =~= Seq::<StepView>::empty());
    }
    steps_at(change, base, &mut path, &mut out);
    proof {
        assert(Seq::<StepView>::empty() + edit_steps_of(change@, base@, Seq::empty()) =~= edit_steps_of(
            change@,
            base@,
            Seq::empty(),
        ));
    }
    Ok(out)
}

fn steps_at(change: &Change, base: &Value, path: &mut Path, out: &mut Vec<EditStep>)
    requires
        apply_edit(change@, base@, old(path)@) is Ok,
    ensures
        final(path)@ == old(path)@,
        step_views(final(out)@) == step_views(old(out)@) + edit_steps_of(change@, base@, old(path)@),
    decreases change@,
{
    let ghost before = step_views(out@);
    proof {
        lemma_step_view_shapes();
    }
    match change.kind() {
        ChangeKind::Noop => {
            proof {
                assert(before + Seq::<StepView>::empty() =~= before);
            }
        },
        ChangeKind::Replace(value) => {
            let e = EditStep::Replace { path: copy_path(path), value: value.deep_copy() };
            proof {
                lemma_steps_push(out@, e);
            }
            out.push(e);
        },
        ChangeKind::Int(crate::change::IntChange::Add(delta)) => {
            let e = EditStep::Int { path: copy_path(path), delta: *delta };
            proof {
                lemma_steps_push(out@, e);
            }
            out.push(e);
        },
        ChangeKind::KeyMap(map_change) => map_steps(map_change, base, path, out),
        ChangeKind::List(list_change) => {
            proof {
                assert(apply_edit(Edit::List(list_change@), base@, path@) is Ok);
            }
            let ops = list_ops_steps(list_change, base);
            let e = EditStep::List { path: copy_path(path), ops };
            proof {
                lemma_steps_push(out@, e);
            }
            out.push(e);
        },
        ChangeKind::Text(text_change) => {
            proof {
                assert(apply_edit(Edit::Text(text_change@), base@, path@) is Ok);
            }
            let ops = text_ops_steps(text_change, base);
            let e = EditStep::Text { path: copy_path(path), ops };
            proof {
                lemma_steps_push(out@, e);
            }
            out.push(e);
        },
    }
}

fn map_steps(
    change: &crate::structure::MapChange,
    base: &Value,
    path: &mut Path,
    out: &mut Vec<EditStep>,
)
    requires
        apply_edit(Edit::KeyMap(change@), base@, old(path)@) is Ok,
    ensures
        final(path)@ == old(path)@,
        step_views(final(out)@) == step_views(old(out)@) + edit_steps_of(
            Edit::KeyMap(change@),
            base@,
            old(path)@,
        ),
    decreases change@,
{
    let base_map = match base.kind() {
        ValueKind::KeyMap(m) => m,
        _ => {
            proof {
                assert(false);
            }
            return ;
        },
    };
    let entries = change.entries();
    let ghost es = change@;
    let ghost m = base_map@;
    let ghost p = path@;
    let ghost start = step_views(out@);
    proof {
        lemma_entries_apply(es, m, p);
        assert(es.subrange(0, es.len() as int) =~= es);
        lemma_step_view_shapes();
    }
    let mut i: usize = 0;
    while i < entries.len()
        invariant
            entry_edits(entries@) == es,
            es == change@,
            m == base_map@,
            base@ == Content::KeyMap(m),
            keys_sorted(es),
            i <= es.len(),
            path@ == p,
            forall|j: int| 0 <= j < es.len() ==> #[trigger] entry_applies(es[j], m, p),
            step_views(out@) + entry_steps_of(es.subrange(i as int, es.len() as int), m, p) == start
                + entry_steps_of(es, m, p),
        decreases es.len() - i,
    {
        let ghost cur = es.subrange(i as int, es.len() as int);
        let ghost rest = es.subrange(i + 1, es.len() as int);
        let ghost done = step_views(out@);
        let key = &entries[i].0;
        proof {
            assert(cur[0] == es[i as int]);
            assert(cur.subrange(1, cur.len() as int) =~= rest);
            assert(es[i as int] == (entries@[i as int].0@, entry_edit_of(entries@[i as int].1)));
            assert(entry_applies(es[i as int], m, p));
        }
        let ghost k = key@;
        path.push(PathSeg::Key(key.clone()));
        match &entries[i].1 {
            MapEntryChange::Insert(v) => {
                let e = EditStep::MapInsert { path: copy_path(path), value: v.deep_copy() };
                proof {
                    lemma_steps_push(out@, e);
                }
                out.push(e);
            },
            MapEntryChange::Delete => {
                let e = EditStep::MapDelete { path: copy_path(path) };
                proof {
                    lemma_steps_push(out@, e);
                }
                out.push(e);
            },
            MapEntryChange::Modify(child) => {
                let child_base = match base_map.get(key.as_str()) {
                    Some(v) => v,
                    None => {
                        proof {
                            assert(false);
                        }
                        return ;
                    },
                };
                proof {
                    assert(decreases_to!(es => es[i as int]));
                    assert(decreases_to!(es[i as int] => es[i as int].1));
                    assert(decreases_to!(es[i as int].1 => es[i as int].1->Modify_0));
                }
                steps_at(child, child_base, path, out);
            },
        }
        path.pop();
        proof {
            assert(p.push(SegView::Key(k)).drop_last() =~= p);
            let head = step_views(out@).subrange(done.len() as int, step_views(out@).len() as int);
            assert(step_views(out@) =~= done + head);
            assert(entry_steps_of(cur, m, p) == head + entry_steps_of(rest, m, p));
            assert(done + (head + entry_steps_of(rest, m, p)) =~= (done + head) + entry_steps_of(
                rest,
                m,
                p,
            ));
        }
        i = i + 1;
    }
    proof {
        assert(es.subrange(i as int, es.len() as int) =~= Seq::<(Seq<char>, EntryEdit)>::empty());
        assert(step_views(out@) + Seq::<StepView>::empty() =~= step_views(out@));
    }
}

fn list_ops_steps(change: &crate::structure::ListChange, base: &Value) -> (r: Vec<ListEditStep>)
    requires
        exists|p: Seq<SegView>| apply_edit(Edit::List(change@), base@, p) is Ok,
    ensures
        list_step_views(r@) == list_steps_of(change@, base@->List_0, 0),
    decreases change@,
{
    let ghost p = choose|p: Seq<SegView>| apply_edit(Edit::List(change@), base@, p) is Ok;
    let base_list = match base.kind() {
        ValueKind::List(l) => l,
        _ => {
            proof {
                assert(false);
            }
            return Vec::new();
        },
    };
    let items = base_list.as_slice();
    let item_count = items.len();
    let ops = change.ops();
    let ghost steps = change@;
    let ghost citems = contents(items@);
    let mut out: Vec<ListEditStep> = Vec::new();
    let mut index: usize = 0;
    let mut i: usize = 0;
    proof {
        assert(steps.subrange(0, steps.len() as int) =~= steps);
        assert(list_step_views(out@) =~= Seq::<ListStepView>::empty());
        assert(Seq::<ListStepView>::empty() + list_steps_of(steps, citems, 0) =~= list_steps_of(
            steps,
            citems,
            0,
        ));
        lemma_step_view_shapes();
    }
    while i < ops.len()
        invariant
            list_steps(ops@) == steps,
            steps == change@,
            citems == contents(items@),
            citems == base_list@,
            base@ == Content::List(citems),
            citems.len() == items@.len(),
            items@.len() == item_count,
            i <= steps.len(),
            index <= citems.len(),
            apply_list(steps.subrange(i as int, steps.len() as int), citems, index as nat, p) is Ok,
            list_step_views(out@) + list_steps_of(
                steps.subrange(i as int, steps.len() as int),
                citems,
                index as nat,
            ) == list_steps_of(steps, citems, 0),
        decreases steps.len() - i,
    {
        let ghost cur = steps.subrange(i as int, steps.len() as int);
        let ghost rest = steps.subrange(i + 1, steps.len() as int);
        let ghost done = list_step_views(out@);
        proof {
            assert(cur[0] == steps[i as int]);
            assert(cur.subrange(1, cur.len() as int) =~= rest);
            assert(steps[i as int] == step_of(ops@[i as int]));
        }
        let (step, next) = match &ops[i] {
            ListOp::Retain(n) => {
                proof {
                    assert(index + *n <= citems.len());
                }
                (ListEditStep::Retain(*n), index + *n)
            },
            ListOp::Insert(values) => {
                let mut copied: Vec<Value> = Vec::new();
                copy_range(&mut copied, values.as_slice(), 0, values.len());
                proof {
                    assert(contents(copied@) =~= contents(values@));
                }
                (ListEditStep::Insert(copied), index)
            },
            ListOp::Delete(n) => {
                proof {
                    assert(index + *n <= citems.len());
                }
                (ListEditStep::Delete(*n), index + *n)
            },
            ListOp::Modify(child) => {
                proof {
                    assert(index < citems.len());
                    assert(citems[index as int] == items@[index as int]@);
                    assert(decreases_to!(steps => steps[i as int]));
                    assert(decreases_to!(steps[i as int] => steps[i as int]->Modify_0));
                    crate::compose_law::lemma_edit_any_path(
                        child@,
                        citems[index as int],
                        p.push(SegView::Index(index as nat)),
                        Seq::empty(),
                    );
                }
                let mut child_path = Path::new();
                let mut child_steps: Vec<EditStep> = Vec::new();
                proof {
                    assert(step_views(child_steps@) =~= Seq::<StepView>::empty());
                }
                steps_at(child, &items[index], &mut child_path, &mut child_steps);
                proof {
                    assert(Seq::<StepView>::empty() + edit_steps_of(
                        child@,
                        citems[index as int],
                        Seq::empty(),
                    ) =~= edit_steps_of(child@, citems[index as int], Seq::empty()));
                }
                (ListEditStep::Modify(child_steps), index + 1)
            },
        };
        proof {
            lemma_step_view_shapes();
            lemma_list_steps_push(out@, step);
            assert(list_steps_of(cur, citems, index as nat) == seq![list_step_view(step)]
                + list_steps_of(rest, citems, next as nat));
            assert(done + (seq![list_step_view(step)] + list_steps_of(rest, citems, next as nat))
                =~= done.push(list_step_view(step)) + list_steps_of(rest, citems, next as nat));
        }
        out.push(step);
        index = next;
        i = i + 1;
    }
    proof {
        assert(steps.subrange(i as int, steps.len() as int) =~= Seq::<ListStep>::empty());
        assert(list_step_views(out@) + Seq::<ListStepView>::empty() =~= list_step_views(out@));
    }
    out
}

fn text_ops_steps(change: &TextChange, base: &Value) -> (r: Vec<TextEditStep>)
    requires
        exists|p: Seq<SegView>| apply_edit(Edit::Text(change@), base@, p) is Ok,
    ensures
        text_step_views(r@) == text_steps_of(change@, base@->Text_0, 0),
{
    let text = match base.kind() {
        ValueKind::Text(t) => t,
        _ => {
            proof {
                assert(false);
            }
            return Vec::new();
        },
    };
    let ops = change.ops();
    let ghost v = change@;
    let ghost s = text@;
    let total = text.len();
    let _ = crate::text_buf::str_byte_len(text.as_str());
    proof {
        crate::richtext::lemma_utf16_len_le_bytes(s);
        assert(s.take(s.len() as int) =~= s);
        lemma_in_len_consumed(v);
        assert(v.subrange(0, v.len() as int) =~= v);
        assert(v.take(0) =~= Seq::<OpView>::empty());
    }
    let mut out: Vec<TextEditStep> = Vec::new();
    let mut index: usize = 0;
    let mut i: usize = 0;
    proof {
        assert(text_step_views(out@) =~= Seq::<TextStepView>::empty());
        assert(Seq::<TextStepView>::empty() + text_steps_of(v, s, 0) =~= text_steps_of(v, s, 0));
    }
    while i < ops.len()
        invariant
            ops.deep_view() == v,
            v == change@,
            s == text@,
            base@ == Content::Text(s),
            total == s.len(),
            in_len(v) <= s.len(),
            utf16_len(s) <= isize::MAX,
            i <= v.len(),
            index == in_len(v.take(i as int)),
            text_step_views(out@) + text_steps_of(v.subrange(i as int, v.len() as int), s, index as nat)
                == text_steps_of(v, s, 0),
        decreases v.len() - i,
    {
        let ghost cur = v.subrange(i as int, v.len() as int);
        let ghost rest = v.subrange(i + 1, v.len() as int);
        let ghost done = text_step_views(out@);
        proof {
            assert(cur[0] == v[i as int]);
            assert(cur.subrange(1, cur.len() as int) =~= rest);
            assert(v.take(i + 1).drop_last() =~= v.take(i as int));
            assert(v.take(i + 1).last() == v[i as int]);
            assert(v[i as int] == ops@[i as int].deep_view());
            lemma_in_len_prefix(v, i + 1);
            crate::value::lemma_utf16_len_ordered(s, index as int, s.len() as int);
            match v[i as int] {
                OpView::Retain(n) => {
                    crate::value::lemma_utf16_len_ordered(s, index as int, index + n);
                    crate::value::lemma_utf16_len_ordered(s, index + n, s.len() as int);
                },
                OpView::Delete(n) => {
                    crate::value::lemma_utf16_len_ordered(s, index as int, index + n);
                    crate::value::lemma_utf16_len_ordered(s, index + n, s.len() as int);
                },
                _ => {},
            }
        }
        let (step, next) = match &ops[i] {
            TextOp::Retain(n) => {
                let units = utf16_between(text, index, index + *n);
                (TextEditStep::Retain(units), index + *n)
            },
            TextOp::Insert(t) => (TextEditStep::Insert(t.clone()), index),
            TextOp::Delete(n) => {
                let units = utf16_between(text, index, index + *n);
                (TextEditStep::Delete(units), index + *n)
            },
        };
        proof {
            lemma_text_steps_push(out@, step);
            assert(text_steps_of(cur, s, index as nat) == seq![text_step_view(step)] + text_steps_of(
                rest,
                s,
                next as nat,
            ));
            assert(done + (seq![text_step_view(step)] + text_steps_of(rest, s, next as nat))
                =~= done.push(text_step_view(step)) + text_steps_of(rest, s, next as nat));
        }
        out.push(step);
        index = next;
        i = i + 1;
    }
    proof {
        assert(v.subrange(i as int, v.len() as int) =~= Seq::<OpView>::empty());
        assert(text_step_views(out@) + Seq::<TextStepView>::empty() =~= text_step_views(out@));
    }
    out
}

/// UTF-16 code units of the scalars of `text` from `from` up to `to`.
fn utf16_between(text: &crate::value::Text, from: usize, to: usize) -> (n: usize)
    requires
        from <= to <= text@.len(),
    ensures
        n == utf16_span(text@, from as nat, to as nat),
{
    let ghost s = text@;
    let _ = crate::text_buf::str_byte_len(text.as_str());
    proof {
        crate::richtext::lemma_utf16_len_le_bytes(s);
        assert(s.take(s.len() as int) =~= s);
        crate::value::lemma_utf16_len_ordered(s, from as int, to as int);
        crate::value::lemma_utf16_len_ordered(s, to as int, s.len() as int);
    }
    let a = match text.code_point_to_utf16(from) {
        Ok(a) => a,
        Err(_) => {
            proof {
                assert(false);
            }
            0
        },
    };
    let b = match text.code_point_to_utf16(to) {
        Ok(b) => b,
        Err(_) => {
            proof {
                assert(false);
            }
            0
        },
    };
    b - a
}

} // verus!
