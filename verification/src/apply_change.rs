//! Applying recursive Changes to Values.
//!
//! A Change applies against an explicit base Value and yields a new Value;
//! the base is never modified. Failures name the Snapshot-relative Path where
//! the Change and the base disagree.
use crate::apply::apply_text;
use crate::change::{byte_len, IntChange};
use crate::content::{
    content_type, contents, entry_contents, lemma_entry_keys, lookup_entry, Content, KeyMap, List,
    Value, ValueKind,
};
use crate::error::ApplyError;
use crate::keyed::{entry_map, keyed_entries, keys_sorted, put_entry, remove_entry};
use crate::model::apply_ops;
use crate::path::{prefix, Path, PathSeg, SegView};
use crate::structure::{
    entry_edits, list_in, list_out, list_steps, max_list_len, step_in, step_out, Change,
    ChangeKind, EntryEdit, Edit, ListChange, ListOp, ListStep, MapChange, MapEntryChange,
};
use crate::value::ValueType;
use vstd::prelude::*;

verus! {

/// The mathematical form of an apply failure.
pub enum Fault {
    TypeMismatch(Seq<SegView>, ValueType, ValueType),
    MissingKey(Seq<SegView>, Seq<char>),
    ExistingKey(Seq<SegView>, Seq<char>),
    IndexOutOfBounds(Seq<SegView>, nat, nat),
    SequenceOutOfBounds(Seq<SegView>),
    IntegerOverflow(Seq<SegView>),
    SequenceLengthOverflow(Seq<SegView>),
}

/// The mathematical form of an apply error.
pub open spec fn fault_of(e: ApplyError) -> Fault {
    match e {
        ApplyError::TypeMismatch { path, expected, actual } => Fault::TypeMismatch(
            path@,
            expected,
            actual,
        ),
        ApplyError::MissingKey { path, key } => Fault::MissingKey(path@, key@),
        ApplyError::ExistingKey { path, key } => Fault::ExistingKey(path@, key@),
        ApplyError::IndexOutOfBounds { path, index, len } => Fault::IndexOutOfBounds(
            path@,
            index as nat,
            len as nat,
        ),
        ApplyError::SequenceOutOfBounds { path } => Fault::SequenceOutOfBounds(path@),
        ApplyError::IntegerOverflow { path } => Fault::IntegerOverflow(path@),
        ApplyError::SequenceLengthOverflow { path } => Fault::SequenceLengthOverflow(path@),
    }
}

/// The result of applying `e` to `base`, located at `p`.
///
/// Map entries apply in key order and List operations left to right; the
/// first failure is the result. A List Change is first checked against the
/// base length and the size of the result.
pub open spec fn apply_edit(e: Edit, base: Content, p: Seq<SegView>) -> Result<Content, Fault>
    decreases e,
{
    match e {
        Edit::Noop => Ok(base),
        Edit::Replace(v) => Ok(v),
        Edit::Int(d) => match base {
            Content::Int(x) => if i64::MIN <= x + d <= i64::MAX {
                Ok(Content::Int((x + d) as i64))
            } else {
                Err(Fault::IntegerOverflow(p))
            },
            _ => Err(Fault::TypeMismatch(p, ValueType::Int, content_type(base))),
        },
        Edit::KeyMap(es) => match base {
            Content::KeyMap(m) => match apply_entries(es, m, p) {
                Ok(m2) => Ok(Content::KeyMap(m2)),
                Err(f) => Err(f),
            },
            _ => Err(Fault::TypeMismatch(p, ValueType::KeyMap, content_type(base))),
        },
        Edit::List(steps) => match base {
            Content::List(items) => if list_in(steps) > items.len() {
                Err(Fault::SequenceOutOfBounds(p))
            } else if list_out(steps) + (items.len() - list_in(steps)) > max_list_len() {
                Err(Fault::SequenceLengthOverflow(p))
            } else {
                match apply_list(steps, items, 0, p) {
                    Ok(out) => Ok(Content::List(out)),
                    Err(f) => Err(f),
                }
            },
            _ => Err(Fault::TypeMismatch(p, ValueType::List, content_type(base))),
        },
        Edit::Text(ops) => match base {
            Content::Text(s) => match apply_ops(ops, s) {
                None => Err(Fault::SequenceOutOfBounds(p)),
                Some(t) => if byte_len(t) <= isize::MAX {
                    Ok(Content::Text(t))
                } else {
                    Err(Fault::SequenceLengthOverflow(p))
                },
            },
            _ => Err(Fault::TypeMismatch(p, ValueType::Text, content_type(base))),
        },
    }
}

/// Applies Map entry changes in order to the entries `m` of the Map at `p`.
pub open spec fn apply_entries(
    es: Seq<(Seq<char>, EntryEdit)>,
    m: Map<Seq<char>, Content>,
    p: Seq<SegView>,
) -> Result<Map<Seq<char>, Content>, Fault>
    decreases es,
{
    if es.len() == 0 {
        Ok(m)
    } else {
        let k = es[0].0;
        let rest = es.subrange(1, es.len() as int);
        match es[0].1 {
            EntryEdit::Insert(v) => if m.contains_key(k) {
                Err(Fault::ExistingKey(p, k))
            } else {
                apply_entries(rest, m.insert(k, v), p)
            },
            EntryEdit::Delete => if m.contains_key(k) {
                apply_entries(rest, m.remove(k), p)
            } else {
                Err(Fault::MissingKey(p, k))
            },
            EntryEdit::Modify(c) => if m.contains_key(k) {
                match apply_edit(c, m[k], p.push(SegView::Key(k))) {
                    Ok(v) => apply_entries(rest, m.insert(k, v), p),
                    Err(f) => Err(f),
                }
            } else {
                Err(Fault::MissingKey(p, k))
            },
        }
    }
}

/// Applies List steps to `items` from position `index` of the List at `p`,
/// giving the rest of the result.
pub open spec fn apply_list(
    steps: Seq<ListStep>,
    items: Seq<Content>,
    index: nat,
    p: Seq<SegView>,
) -> Result<Seq<Content>, Fault>
    decreases steps,
{
    if steps.len() == 0 {
        if index <= items.len() {
            Ok(items.subrange(index as int, items.len() as int))
        } else {
            Err(Fault::SequenceOutOfBounds(p))
        }
    } else {
        let rest = steps.subrange(1, steps.len() as int);
        match steps[0] {
            ListStep::Retain(n) => if index + n <= items.len() {
                match apply_list(rest, items, index + n, p) {
                    Ok(tail) => Ok(items.subrange(index as int, (index + n) as int) + tail),
                    Err(f) => Err(f),
                }
            } else {
                Err(Fault::SequenceOutOfBounds(p))
            },
            ListStep::Insert(vs) => match apply_list(rest, items, index, p) {
                Ok(tail) => Ok(vs + tail),
                Err(f) => Err(f),
            },
            ListStep::Delete(n) => if index + n <= items.len() {
                apply_list(rest, items, index + n, p)
            } else {
                Err(Fault::SequenceOutOfBounds(p))
            },
            ListStep::Modify(c) => if index < items.len() {
                match apply_edit(c, items[index as int], p.push(SegView::Index(index))) {
                    Ok(v) => match apply_list(rest, items, index + 1, p) {
                        Ok(tail) => Ok(seq![v] + tail),
                        Err(f) => Err(f),
                    },
                    Err(f) => Err(f),
                }
            } else {
                Err(Fault::IndexOutOfBounds(p, index, items.len()))
            },
        }
    }
}

/// A copy of `path`.
fn here(path: &Path) -> (p: Path)
    ensures
        p@ == path@,
{
    let p = prefix(path, path.segments().len());
    proof {
        assert(path@.take(path@.len() as int) =~= path@);
    }
    p
}

fn type_mismatch(path: &Path, expected: ValueType, actual: &Value) -> (e: ApplyError)
    ensures
        fault_of(e) == Fault::TypeMismatch(path@, expected, content_type(actual@)),
{
    ApplyError::TypeMismatch { path: here(path), expected, actual: actual.value_type() }
}

/// Applies `change` to `base`, returning a new immutable Value; the base is
/// unchanged on every path.
pub fn apply(base: &Value, change: &Change) -> (r: Result<Value, ApplyError>)
    ensures
        match apply_edit(change@, base@, Seq::empty()) {
            Ok(c) => r is Ok && r->Ok_0@ == c,
            Err(f) => r is Err && fault_of(r->Err_0) == f,
        },
{
    let mut path = Path::new();
    apply_at(change, base, &mut path)
}

impl Change {
    /// Applies this Change to `base`, returning a new immutable Value.
    pub fn apply_to(&self, base: &Value) -> (r: Result<Value, ApplyError>)
        ensures
            match apply_edit(self@, base@, Seq::empty()) {
                Ok(c) => r is Ok && r->Ok_0@ == c,
                Err(f) => r is Err && fault_of(r->Err_0) == f,
            },
    {
        apply(base, self)
    }
}

fn apply_at(change: &Change, base: &Value, path: &mut Path) -> (r: Result<Value, ApplyError>)
    ensures
        r is Ok ==> final(path)@ == old(path)@,
        match apply_edit(change@, base@, old(path)@) {
            Ok(c) => r is Ok && r->Ok_0@ == c,
            Err(f) => r is Err && fault_of(r->Err_0) == f,
        },
    decreases change@,
{
    match change.kind() {
        ChangeKind::Noop => Ok(base.deep_copy()),
        ChangeKind::Replace(value) => Ok(value.deep_copy()),
        ChangeKind::Int(IntChange::Add(delta)) => {
            match base.kind() {
                ValueKind::Int(value) => match value.checked_add(*delta) {
                    Some(sum) => Ok(Value::integer(sum)),
                    None => Err(ApplyError::IntegerOverflow { path: here(path) }),
                },
                _ => Err(type_mismatch(path, ValueType::Int, base)),
            }
        },
        ChangeKind::KeyMap(map_change) => apply_map(map_change, base, path),
        ChangeKind::List(list_change) => apply_list_change(list_change, base, path),
        ChangeKind::Text(text_change) => {
            match base.kind() {
                ValueKind::Text(text) => match apply_text(text, text_change) {
                    Ok(t) => Ok(Value::from_kind(ValueKind::Text(t))),
                    Err(e) => match e {
                        ApplyError::SequenceOutOfBounds { .. } => Err(
                            ApplyError::SequenceOutOfBounds { path: here(path) },
                        ),
                        _ => Err(ApplyError::SequenceLengthOverflow { path: here(path) }),
                    },
                },
                _ => Err(type_mismatch(path, ValueType::Text, base)),
            }
        },
    }
}

fn apply_map(change: &MapChange, base: &Value, path: &mut Path) -> (r: Result<Value, ApplyError>)
    ensures
        r is Ok ==> final(path)@ == old(path)@,
        match apply_edit(Edit::KeyMap(change@), base@, old(path)@) {
            Ok(c) => r is Ok && r->Ok_0@ == c,
            Err(f) => r is Err && fault_of(r->Err_0) == f,
        },
    decreases change@,
{
    let base_map = match base.kind() {
        ValueKind::KeyMap(m) => m,
        _ => {
            return Err(type_mismatch(path, ValueType::KeyMap, base));
        },
    };
    let ghost p0 = path@;
    let ghost es = change@;
    let entries = change.entries();
    let mut out = base_map.copy_entries();
    let mut i: usize = 0;
    proof {
        assert(es.subrange(0, es.len() as int) =~= es);
    }
    while i < entries.len()
        invariant
            entry_edits(entries@) == es,
            es == change@,
            i <= es.len(),
            path@ == p0,
            p0 == old(path)@,
            keys_sorted(keyed_entries(out@)),
            apply_entries(es, base_map@, p0) == apply_entries(
                es.subrange(i as int, es.len() as int),
                entry_map(entry_contents(out@)),
                p0,
            ),
            apply_edit(Edit::KeyMap(es), base@, p0) == match apply_entries(es, base_map@, p0) {
                Ok(m2) => Ok(Content::KeyMap(m2)),
                Err(f) => Err(f),
            },
        decreases es.len() - i,
    {
        let key = &entries[i].0;
        let ghost k = key@;
        let ghost m = entry_map(entry_contents(out@));
        let ghost mv = entry_map(keyed_entries(out@));
        let ghost rest = es.subrange(i + 1, es.len() as int);
        proof {
            let cur = es.subrange(i as int, es.len() as int);
            assert(cur[0] == es[i as int]);
            assert(cur.subrange(1, cur.len() as int) =~= rest);
            assert(es[i as int] == (entries@[i as int].0@, crate::structure::entry_edit_of(entries@[i as int].1)));
            lemma_entry_keys(out@);
        }
        let found = lookup_entry(&out, key.as_str());
        match &entries[i].1 {
            MapEntryChange::Insert(value) => {
                if found.is_some() {
                    return Err(ApplyError::ExistingKey { path: here(path), key: key.clone() });
                }
                let ghost before = out@;
                put_entry(&mut out, key.clone(), value.deep_copy());
                proof {
                    lemma_entry_keys(out@);
                    assert(entry_map(entry_contents(out@)) =~= m.insert(k, value@));
                }
            },
            MapEntryChange::Delete => {
                if found.is_none() {
                    return Err(ApplyError::MissingKey { path: here(path), key: key.clone() });
                }
                remove_entry(&mut out, key.as_str());
                proof {
                    lemma_entry_keys(out@);
                    assert(entry_map(entry_contents(out@)) =~= m.remove(k));
                }
            },
            MapEntryChange::Modify(child) => {
                let at = match found {
                    Some(at) => at,
                    None => {
                        return Err(ApplyError::MissingKey { path: here(path), key: key.clone() });
                    },
                };
                let old_value = out[at].1.deep_copy();
                proof {
                    assert(decreases_to!(es => es[i as int]));
                    assert(decreases_to!(es[i as int] => es[i as int].1));
                    assert(decreases_to!(es[i as int].1 => child@));
                }
                path.push(PathSeg::Key(key.clone()));
                let new_value = apply_at(child, &old_value, path)?;
                path.pop();
                proof {
                    assert(path@ =~= p0);
                }
                put_entry(&mut out, key.clone(), new_value);
                proof {
                    lemma_entry_keys(out@);
                    assert(entry_map(entry_contents(out@)) =~= m.insert(k, new_value@));
                }
            },
        }
        i = i + 1;
    }
    proof {
        assert(es.subrange(i as int, es.len() as int) =~= Seq::<(Seq<char>, EntryEdit)>::empty());
    }
    Ok(Value::from_kind(ValueKind::KeyMap(KeyMap::from_sorted(out))))
}

/// A result with `front` placed before a successful tail.
pub open spec fn prepend(front: Seq<Content>, r: Result<Seq<Content>, Fault>) -> Result<
    Seq<Content>,
    Fault,
> {
    match r {
        Ok(tail) => Ok(front + tail),
        Err(f) => Err(f),
    }
}

/// Appends copies of `items[from..to]`.
pub(crate) fn copy_range(out: &mut Vec<Value>, items: &[Value], from: usize, to: usize)
    requires
        from <= to <= items@.len(),
    ensures
        contents(final(out)@) == contents(old(out)@) + contents(items@).subrange(
            from as int,
            to as int,
        ),
{
    let ghost start = out@;
    let mut i = from;
    proof {
        assert(contents(out@) =~= contents(start) + contents(items@).subrange(from as int, from as int));
    }
    while i < to
        invariant
            from <= i <= to,
            to <= items@.len(),
            contents(out@) == contents(start) + contents(items@).subrange(from as int, i as int),
        decreases to - i,
    {
        let c = items[i].deep_copy();
        let ghost before = out@;
        out.push(c);
        proof {
            assert(contents(out@) =~= contents(before).push(c@));
            assert(contents(items@).subrange(from as int, i + 1) =~= contents(items@).subrange(
                from as int,
                i as int,
            ).push(items@[i as int]@));
            assert(contents(out@) =~= contents(start) + contents(items@).subrange(from as int, i + 1));
        }
        i = i + 1;
    }
}

proof fn lemma_list_totals_prefix(s: Seq<ListStep>, k: int)
    requires
        0 <= k < s.len(),
    ensures
        list_in(s.take(k + 1)) == list_in(s.take(k)) + step_in(s[k]),
        list_out(s.take(k + 1)) == list_out(s.take(k)) + step_out(s[k]),
{
    assert(s.take(k + 1).drop_last() =~= s.take(k));
}

proof fn lemma_list_totals_bound(s: Seq<ListStep>, k: int)
    requires
        0 <= k <= s.len(),
    ensures
        list_in(s.take(k)) <= list_in(s),
        list_out(s.take(k)) <= list_out(s),
    decreases s.len() - k,
{
    if k < s.len() {
        lemma_list_totals_prefix(s, k);
        lemma_list_totals_bound(s, k + 1);
    } else {
        assert(s.take(k) =~= s);
    }
}

/// The base elements and result elements a List stream accounts for.
fn list_totals(ops: &[ListOp]) -> (r: (usize, usize))
    requires
        crate::structure::list_lengths_fit(list_steps(ops@)),
    ensures
        r.0 == list_in(list_steps(ops@)),
        r.1 == list_out(list_steps(ops@)),
{
    let ghost s = list_steps(ops@);
    let mut input: usize = 0;
    let mut output: usize = 0;
    let mut i: usize = 0;
    proof {
        assert(s.take(0) =~= Seq::<ListStep>::empty());
    }
    while i < ops.len()
        invariant
            s == list_steps(ops@),
            crate::structure::list_lengths_fit(s),
            i <= s.len(),
            input == list_in(s.take(i as int)),
            output == list_out(s.take(i as int)),
        decreases s.len() - i,
    {
        proof {
            lemma_list_totals_prefix(s, i as int);
            lemma_list_totals_bound(s, i + 1);
            assert(s[i as int] == crate::structure::step_of(ops@[i as int]));
        }
        match &ops[i] {
            ListOp::Retain(n) => {
                input = input + *n;
                output = output + *n;
            },
            ListOp::Insert(values) => {
                output = output + values.len();
            },
            ListOp::Delete(n) => {
                input = input + *n;
            },
            ListOp::Modify(_) => {
                input = input + 1;
                output = output + 1;
            },
        }
        i = i + 1;
    }
    proof {
        assert(s.take(i as int) =~= s);
    }
    (input, output)
}

fn apply_list_change(change: &ListChange, base: &Value, path: &mut Path) -> (r: Result<
    Value,
    ApplyError,
>)
    ensures
        r is Ok ==> final(path)@ == old(path)@,
        match apply_edit(Edit::List(change@), base@, old(path)@) {
            Ok(c) => r is Ok && r->Ok_0@ == c,
            Err(f) => r is Err && fault_of(r->Err_0) == f,
        },
    decreases change@,
{
    let base_list = match base.kind() {
        ValueKind::List(l) => l,
        _ => {
            return Err(type_mismatch(path, ValueType::List, base));
        },
    };
    let items = base_list.as_slice();
    let ops = change.ops();
    let ghost steps = change@;
    let ghost citems = contents(items@);
    let ghost p0 = path@;
    let (input, output) = list_totals(ops);
    if input > items.len() {
        return Err(ApplyError::SequenceOutOfBounds { path: here(path) });
    }
    let remaining = items.len() - input;
    if output > usize::MAX - remaining || output + remaining > crate::structure::max_list_elements() {
        return Err(ApplyError::SequenceLengthOverflow { path: here(path) });
    }
    let mut out: Vec<Value> = Vec::new();
    let mut index: usize = 0;
    let mut i: usize = 0;
    proof {
        assert(steps.subrange(0, steps.len() as int) =~= steps);
        assert(contents(out@) =~= Seq::<Content>::empty());
        assert(prepend(Seq::<Content>::empty(), apply_list(steps, citems, 0, p0)) == apply_list(
            steps,
            citems,
            0,
            p0,
        )) by {
            match apply_list(steps, citems, 0, p0) {
                Ok(t) => {
                    assert(Seq::<Content>::empty() + t =~= t);
                },
                Err(_) => {},
            }
        }
    }
    while i < ops.len()
        invariant
            list_steps(ops@) == steps,
            steps == change@,
            citems == contents(items@),
            citems == base_list@,
            base@ == Content::List(citems),
            i <= steps.len(),
            index <= items@.len(),
            path@ == p0,
            p0 == old(path)@,
            list_in(steps) <= citems.len(),
            list_out(steps) + (citems.len() - list_in(steps)) <= max_list_len(),
            prepend(
                contents(out@),
                apply_list(steps.subrange(i as int, steps.len() as int), citems, index as nat, p0),
            ) == apply_list(steps, citems, 0, p0),
        decreases steps.len() - i,
    {
        let ghost cur = steps.subrange(i as int, steps.len() as int);
        let ghost rest = steps.subrange(i + 1, steps.len() as int);
        let ghost before = contents(out@);
        proof {
            assert(cur[0] == steps[i as int]);
            assert(cur.subrange(1, cur.len() as int) =~= rest);
            assert(steps[i as int] == crate::structure::step_of(ops@[i as int]));
        }
        match &ops[i] {
            ListOp::Retain(n) => {
                if *n > items.len() - index {
                    return Err(ApplyError::SequenceOutOfBounds { path: here(path) });
                }
                let end = index + *n;
                copy_range(&mut out, items, index, end);
                proof {
                    match apply_list(rest, citems, end as nat, p0) {
                        Ok(t) => {
                            assert(before + (citems.subrange(index as int, end as int) + t) =~= (before
                                + citems.subrange(index as int, end as int)) + t);
                        },
                        Err(_) => {},
                    }
                }
                index = end;
            },
            ListOp::Insert(values) => {
                copy_range(&mut out, values.as_slice(), 0, values.len());
                proof {
                    assert(contents(values@).subrange(0, values@.len() as int) =~= contents(values@));
                    match apply_list(rest, citems, index as nat, p0) {
                        Ok(t) => {
                            assert(before + (contents(values@) + t) =~= (before + contents(values@)) + t);
                        },
                        Err(_) => {},
                    }
                }
            },
            ListOp::Delete(n) => {
                if *n > items.len() - index {
                    return Err(ApplyError::SequenceOutOfBounds { path: here(path) });
                }
                index = index + *n;
            },
            ListOp::Modify(child) => {
                if index >= items.len() {
                    return Err(
                        ApplyError::IndexOutOfBounds { path: here(path), index, len: items.len() },
                    );
                }
                proof {
                    assert(decreases_to!(steps => steps[i as int]));
                    assert(decreases_to!(steps[i as int] => child@));
                }
                path.push(PathSeg::Index(index));
                let value = apply_at(child, &items[index], path)?;
                path.pop();
                proof {
                    assert(path@ =~= p0);
                    assert(citems[index as int] == items@[index as int]@);
                }
                let ghost before_out = out@;
                out.push(value);
                proof {
                    assert(contents(out@) =~= before.push(value@));
                    match apply_list(rest, citems, (index + 1) as nat, p0) {
                        Ok(t) => {
                            assert(before + (seq![value@] + t) =~= before.push(value@) + t);
                        },
                        Err(_) => {},
                    }
                }
                index = index + 1;
            },
        }
        i = i + 1;
    }
    let ghost before = contents(out@);
    copy_range(&mut out, items, index, items.len());
    proof {
        assert(steps.subrange(i as int, steps.len() as int) =~= Seq::<ListStep>::empty());
    }
    Ok(Value::from_kind(ValueKind::List(List::new(out))))
}

} // verus!
