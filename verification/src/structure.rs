//! Recursive Changes over Values: Map entry changes, List operation
//! streams, Text changes, checked Int addition and whole replacement.
use crate::change::{checked_sequence_add, ChangeLengths, IntChange, TextChange};
use crate::content::{contents, Content, Value};
use crate::error::ValueError;
use crate::keyed::{
    distinct_keys, entry_map, first_repeated_key, keyed, keyed_entries, keys_sorted,
    sorted_entries_from,
};
use crate::invert_law::{
    entries_formed, formed, lemma_push_formed, lemma_trim_formed, modifies_formed,
};
use crate::model::OpView;
use vstd::prelude::*;

verus! {

/// The mathematical form of a Change.
pub enum Edit {
    Noop,
    Replace(Content),
    KeyMap(Seq<(Seq<char>, EntryEdit)>),
    List(Seq<ListStep>),
    Text(Seq<OpView>),
    Int(i64),
}

/// The mathematical form of one Map entry change.
pub enum EntryEdit {
    Insert(Content),
    Delete,
    Modify(Edit),
}

/// The mathematical form of one List operation.
pub enum ListStep {
    Retain(nat),
    Insert(Seq<Content>),
    Delete(nat),
    Modify(Edit),
}

/// A Change applied to one Map entry.
#[derive(Debug, PartialEq, Eq, Hash)]
pub enum MapEntryChange {
    /// Inserts a key that is absent from the base Map.
    Insert(Value),
    /// Deletes a key that is present in the base Map.
    Delete,
    /// Recursively modifies a key that is present in the base Map.
    Modify(Change),
}

/// A canonical set of unique Map entry Changes, in key order.
#[derive(Debug, PartialEq, Eq, Hash)]
pub struct MapChange {
    entries: Vec<(String, MapEntryChange)>,
}

/// An operation in a List Change stream.
#[derive(Debug, PartialEq, Eq, Hash)]
pub enum ListOp {
    /// Retains this many base elements unchanged.
    Retain(usize),
    /// Inserts Values at the current position.
    Insert(Vec<Value>),
    /// Deletes this many base elements.
    Delete(usize),
    /// Recursively modifies the next base element and consumes one element.
    Modify(Change),
}

/// A canonical List operation stream.
#[derive(Debug, PartialEq, Eq, Hash)]
pub struct ListChange {
    ops: Vec<ListOp>,
}

/// The closed recursive operation model.
#[derive(Debug, PartialEq, Eq, Hash)]
pub enum ChangeKind {
    /// Identity Change.
    Noop,
    /// Replaces the complete target Value, including its type.
    Replace(Value),
    /// Changes Map entries.
    KeyMap(MapChange),
    /// Changes a List sequence.
    List(ListChange),
    /// Changes collaborative Text.
    Text(TextChange),
    /// Changes an Int with checked addition.
    Int(IntChange),
}

/// An immutable, canonical recursive operation relative to a Snapshot.
#[derive(Debug, PartialEq, Eq, Hash)]
pub struct Change {
    kind: Box<ChangeKind>,
}

/// The mathematical form of a Change.
pub closed spec fn edit_of(c: Change) -> Edit
    decreases c,
{
    match *c.kind {
        ChangeKind::Noop => Edit::Noop,
        ChangeKind::Replace(v) => Edit::Replace(v@),
        ChangeKind::KeyMap(m) => Edit::KeyMap(entry_edits_of(m)),
        ChangeKind::List(l) => Edit::List(steps_of(l)),
        ChangeKind::Text(t) => Edit::Text(t@),
        ChangeKind::Int(IntChange::Add(d)) => Edit::Int(d),
    }
}

/// The mathematical form of one Map entry change.
pub open spec fn entry_edit_of(e: MapEntryChange) -> EntryEdit
    decreases e,
{
    match e {
        MapEntryChange::Insert(v) => EntryEdit::Insert(v@),
        MapEntryChange::Delete => EntryEdit::Delete,
        MapEntryChange::Modify(c) => EntryEdit::Modify(edit_of(c)),
    }
}

/// The mathematical form of one List operation.
pub open spec fn step_of(op: ListOp) -> ListStep
    decreases op,
{
    match op {
        ListOp::Retain(n) => ListStep::Retain(n as nat),
        ListOp::Insert(vs) => ListStep::Insert(contents(vs@)),
        ListOp::Delete(n) => ListStep::Delete(n as nat),
        ListOp::Modify(c) => ListStep::Modify(edit_of(c)),
    }
}

closed spec fn entry_edits_of(m: MapChange) -> Seq<(Seq<char>, EntryEdit)>
    decreases m,
{
    Seq::new(
        m.entries@.len(),
        |i: int|
            if 0 <= i < m.entries@.len() {
                (m.entries@[i].0@, entry_edit_of(m.entries@[i].1))
            } else {
                (Seq::empty(), EntryEdit::Delete)
            },
    )
}

closed spec fn steps_of(l: ListChange) -> Seq<ListStep>
    decreases l,
{
    Seq::new(
        l.ops@.len(),
        |i: int|
            if 0 <= i < l.ops@.len() {
                step_of(l.ops@[i])
            } else {
                ListStep::Retain(0)
            },
    )
}

/// The mathematical forms of Map entry changes, keys taken as text.
pub open spec fn entry_edits(s: Seq<(String, MapEntryChange)>) -> Seq<(Seq<char>, EntryEdit)> {
    Seq::new(s.len(), |i: int| (s[i].0@, entry_edit_of(s[i].1)))
}

/// The mathematical forms of List operations.
pub open spec fn list_steps(s: Seq<ListOp>) -> Seq<ListStep> {
    Seq::new(s.len(), |i: int| step_of(s[i]))
}

impl View for Change {
    type V = Edit;

    open spec fn view(&self) -> Edit {
        edit_of(*self)
    }
}

impl View for MapChange {
    type V = Seq<(Seq<char>, EntryEdit)>;

    closed spec fn view(&self) -> Seq<(Seq<char>, EntryEdit)> {
        entry_edits(self.entries@)
    }
}

impl View for ListChange {
    type V = Seq<ListStep>;

    closed spec fn view(&self) -> Seq<ListStep> {
        list_steps(self.ops@)
    }
}

/// The Edit a Change kind denotes.
pub open spec fn kind_edit(k: ChangeKind) -> Edit {
    match k {
        ChangeKind::Noop => Edit::Noop,
        ChangeKind::Replace(v) => Edit::Replace(v@),
        ChangeKind::KeyMap(m) => Edit::KeyMap(m@),
        ChangeKind::List(l) => Edit::List(l@),
        ChangeKind::Text(t) => Edit::Text(t@),
        ChangeKind::Int(IntChange::Add(d)) => Edit::Int(d),
    }
}

proof fn lemma_kind_edit(c: Change)
    ensures
        c@ == kind_edit(*c.kind),
{
    let k = *c.kind;
    if k is KeyMap {
        assert(entry_edits_of(k->KeyMap_0) =~= entry_edits(k->KeyMap_0.entries@));
    } else if k is List {
        assert(steps_of(k->List_0) =~= list_steps(k->List_0.ops@));
    }
}

/// Elements a List step consumes from the base.
pub open spec fn step_in(s: ListStep) -> nat {
    match s {
        ListStep::Retain(n) => n,
        ListStep::Insert(_) => 0,
        ListStep::Delete(n) => n,
        ListStep::Modify(_) => 1,
    }
}

/// Elements a List step contributes to the result.
pub open spec fn step_out(s: ListStep) -> nat {
    match s {
        ListStep::Retain(n) => n,
        ListStep::Insert(vs) => vs.len(),
        ListStep::Delete(_) => 0,
        ListStep::Modify(_) => 1,
    }
}

/// Base elements a List stream consumes.
pub open spec fn list_in(s: Seq<ListStep>) -> nat
    decreases s.len(),
{
    if s.len() == 0 {
        0
    } else {
        list_in(s.drop_last()) + step_in(s.last())
    }
}

/// Elements a List stream produces from the consumed part of the base.
pub open spec fn list_out(s: Seq<ListStep>) -> nat
    decreases s.len(),
{
    if s.len() == 0 {
        0
    } else {
        list_out(s.drop_last()) + step_out(s.last())
    }
}

/// Bytes of one Value handle, the element of a List's storage.
pub open spec fn value_handle_bytes() -> nat {
    (usize::BITS / 8) as nat
}

/// The most Values one List allocation can hold.
pub open spec fn max_list_len() -> nat {
    (isize::MAX as nat) / value_handle_bytes()
}

/// Appends one nonempty step to a partially normalized List stream,
/// merging it with the last step or moving an insert before a delete.
pub open spec fn list_push(out: Seq<ListStep>, s: ListStep) -> Option<Seq<ListStep>>
    decreases out.len(),
{
    if out.len() == 0 {
        Some(seq![s])
    } else if s is Insert && out.last() is Delete {
        match list_push(out.drop_last(), s) {
            Some(o) => Some(o.push(out.last())),
            None => None,
        }
    } else {
        match (out.last(), s) {
            (ListStep::Retain(a), ListStep::Retain(b)) => if a + b <= usize::MAX {
                Some(out.drop_last().push(ListStep::Retain(a + b)))
            } else {
                None
            },
            (ListStep::Delete(a), ListStep::Delete(b)) => if a + b <= usize::MAX {
                Some(out.drop_last().push(ListStep::Delete(a + b)))
            } else {
                None
            },
            (ListStep::Insert(a), ListStep::Insert(b)) => if a.len() + b.len() <= max_list_len() {
                Some(out.drop_last().push(ListStep::Insert(a + b)))
            } else {
                None
            },
            _ => Some(out.push(s)),
        }
    }
}

/// What a step contributes to normalization: nothing when empty, a retain
/// of one for a modification that changes nothing.
pub open spec fn normal_step(s: ListStep) -> Option<ListStep> {
    match s {
        ListStep::Retain(n) => if n == 0 { None } else { Some(s) },
        ListStep::Delete(n) => if n == 0 { None } else { Some(s) },
        ListStep::Insert(vs) => if vs.len() == 0 { None } else { Some(s) },
        ListStep::Modify(e) => if e is Noop { Some(ListStep::Retain(1)) } else { Some(s) },
    }
}

/// Elements one List step accounts for.
pub open spec fn step_size(s: ListStep) -> nat {
    match s {
        ListStep::Retain(n) => n,
        ListStep::Insert(vs) => vs.len(),
        ListStep::Delete(n) => n,
        ListStep::Modify(_) => 1,
    }
}

/// No step of a List stream is empty.
pub open spec fn steps_nonempty(s: Seq<ListStep>) -> bool {
    forall|i: int| 0 <= i < s.len() ==> step_size(#[trigger] s[i]) > 0
}

proof fn lemma_push_nonempty(out: Seq<ListStep>, s: ListStep)
    requires
        steps_nonempty(out),
        step_size(s) > 0,
        list_push(out, s) is Some,
    ensures
        steps_nonempty(list_push(out, s)->Some_0),
    decreases out.len(),
{
    let r = list_push(out, s)->Some_0;
    if out.len() > 0 {
        let init = out.drop_last();
        assert forall|i: int| 0 <= i < init.len() implies step_size(#[trigger] init[i]) > 0 by {
            assert(init[i] == out[i]);
        }
        if s is Insert && out.last() is Delete {
            lemma_push_nonempty(init, s);
            let o1 = list_push(init, s)->Some_0;
            assert forall|i: int| 0 <= i < r.len() implies step_size(#[trigger] r[i]) > 0 by {
                if i < o1.len() {
                    assert(r[i] == o1[i]);
                }
            }
        } else {
            assert forall|i: int| 0 <= i < r.len() implies step_size(#[trigger] r[i]) > 0 by {
                if i < out.len() - 1 {
                    assert(r[i] == out[i]);
                } else if i == out.len() - 1 && r.len() == out.len() + 1 {
                    assert(r[i] == out[i]);
                }
            }
        }
    }
}

proof fn lemma_trim_nonempty(s: Seq<ListStep>)
    requires
        steps_nonempty(s),
    ensures
        steps_nonempty(trim_list_retains(s)),
    decreases s.len(),
{
    if s.len() > 0 && s.last() is Retain {
        let init = s.drop_last();
        assert forall|i: int| 0 <= i < init.len() implies step_size(#[trigger] init[i]) > 0 by {
            assert(init[i] == s[i]);
        }
        lemma_trim_nonempty(init);
    }
}

/// Merges a whole List stream left to right.
pub open spec fn list_fold(steps: Seq<ListStep>) -> Option<Seq<ListStep>>
    decreases steps.len(),
{
    if steps.len() == 0 {
        Some(seq![])
    } else {
        match list_fold(steps.drop_last()) {
            None => None,
            Some(o) => match normal_step(steps.last()) {
                None => Some(o),
                Some(s) => list_push(o, s),
            },
        }
    }
}

/// Removes trailing retains.
pub open spec fn trim_list_retains(s: Seq<ListStep>) -> Seq<ListStep>
    decreases s.len(),
{
    if s.len() > 0 && s.last() is Retain {
        trim_list_retains(s.drop_last())
    } else {
        s
    }
}

/// The canonical form of a List stream, or `None` when a merge overflows.
pub open spec fn list_normalize(steps: Seq<ListStep>) -> Option<Seq<ListStep>> {
    match list_fold(steps) {
        Some(o) => Some(trim_list_retains(o)),
        None => None,
    }
}

/// Both logical lengths of a List stream fit in `usize`.
pub open spec fn list_lengths_fit(s: Seq<ListStep>) -> bool {
    list_in(s) <= usize::MAX && list_out(s) <= usize::MAX
}

/// A Map entry change that a canonical Map Change leaves out.
pub open spec fn skipped_entry(e: EntryEdit) -> bool {
    e matches EntryEdit::Modify(c) && c is Noop
}

/// The entries that canonical Map Change construction keeps, in order.
pub open spec fn kept_entries(s: Seq<(String, MapEntryChange)>) -> Seq<(String, MapEntryChange)>
    decreases s.len(),
{
    if s.len() == 0 {
        s
    } else if skipped_entry(entry_edit_of(s.last().1)) {
        kept_entries(s.drop_last())
    } else {
        kept_entries(s.drop_last()).push(s.last())
    }
}

proof fn lemma_list_steps_push(s: Seq<ListOp>, op: ListOp)
    ensures
        list_steps(s.push(op)) == list_steps(s).push(step_of(op)),
{
    assert(list_steps(s.push(op)) =~= list_steps(s).push(step_of(op)));
}

proof fn lemma_list_steps_drop_last(s: Seq<ListOp>)
    requires
        s.len() > 0,
    ensures
        list_steps(s.drop_last()) == list_steps(s).drop_last(),
        list_steps(s).last() == step_of(s.last()),
{
    assert(list_steps(s.drop_last()) =~= list_steps(s).drop_last());
}

proof fn lemma_contents_concat(a: Seq<Value>, b: Seq<Value>)
    ensures
        contents(a + b) == contents(a) + contents(b),
{
    assert(contents(a + b) =~= contents(a) + contents(b));
}

/// The number of Values one List allocation can hold.
pub(crate) fn max_list_elements() -> (n: usize)
    ensures
        n == max_list_len(),
{
    let bytes: u32 = usize::BITS / 8;
    (isize::MAX as usize) / (bytes as usize)
}

/// Appends one operation, merging or reordering it with the last one.
fn push_list(out: &mut Vec<ListOp>, op: ListOp) -> (r: Result<(), ValueError>)
    ensures
        match list_push(list_steps(old(out)@), step_of(op)) {
            Some(o) => r is Ok && list_steps(final(out)@) == o,
            None => r == Err::<(), ValueError>(ValueError::LengthOverflow),
        },
    decreases old(out)@.len(),
{
    let ghost old_steps = list_steps(out@);
    let ghost s = step_of(op);
    let n = out.len();
    if n == 0 {
        out.push(op);
        proof {
            assert(list_steps(out@) =~= seq![s]);
        }
        return Ok(());
    }
    let last_is_delete = match &out[n - 1] {
        ListOp::Delete(_) => true,
        _ => false,
    };
    let op_is_insert = match &op {
        ListOp::Insert(_) => true,
        _ => false,
    };
    proof {
        lemma_list_steps_drop_last(out@);
    }
    if op_is_insert && last_is_delete {
        let delete = out.pop().unwrap();
        proof {
            assert(out@ =~= old(out)@.drop_last());
        }
        let pushed = push_list(out, op);
        if pushed.is_err() {
            return pushed;
        }
        let ghost q = out@;
        out.push(delete);
        proof {
            lemma_list_steps_push(q, delete);
        }
        return Ok(());
    }
    let last = out.pop().unwrap();
    let ghost rest = out@;
    proof {
        assert(rest =~= old(out)@.drop_last());
    }
    match (last, op) {
        (ListOp::Retain(a), ListOp::Retain(b)) => {
            let sum = checked_sequence_add(a, b)?;
            out.push(ListOp::Retain(sum));
            proof {
                lemma_list_steps_push(rest, ListOp::Retain(sum));
            }
        },
        (ListOp::Delete(a), ListOp::Delete(b)) => {
            let sum = checked_sequence_add(a, b)?;
            out.push(ListOp::Delete(sum));
            proof {
                lemma_list_steps_push(rest, ListOp::Delete(sum));
            }
        },
        (ListOp::Insert(a), ListOp::Insert(b)) => {
            let cap = max_list_elements();
            if b.len() > cap || a.len() > cap - b.len() {
                return Err(ValueError::LengthOverflow);
            }
            let mut a = a;
            let mut b = b;
            let ghost a0 = a@;
            let ghost b0 = b@;
            a.append(&mut b);
            proof {
                lemma_contents_concat(a0, b0);
                lemma_list_steps_push(rest, ListOp::Insert(a));
            }
            out.push(ListOp::Insert(a));
        },
        (last, op) => {
            out.push(last);
            proof {
                lemma_list_steps_push(rest, last);
                assert(out@ =~= old(out)@);
            }
            let ghost before = out@;
            out.push(op);
            proof {
                lemma_list_steps_push(before, op);
            }
        },
    }
    Ok(())
}

proof fn lemma_list_fold_step(all: Seq<ListStep>, k: int)
    requires
        0 <= k < all.len(),
    ensures
        all.take(k + 1).drop_last() == all.take(k),
        all.take(k + 1).last() == all[k],
        list_fold(all.take(k)) is None ==> list_fold(all.take(k + 1)) is None,
{
    assert(all.take(k + 1).drop_last() =~= all.take(k));
}

proof fn lemma_list_fold_none(all: Seq<ListStep>, k: int)
    requires
        0 <= k <= all.len(),
        list_fold(all.take(k)) is None,
    ensures
        list_fold(all) is None,
    decreases all.len() - k,
{
    if k < all.len() {
        lemma_list_fold_step(all, k);
        lemma_list_fold_none(all, k + 1);
    } else {
        assert(all.take(k) =~= all);
    }
}

/// Whether the stream ends with a retain.
fn ends_with_retain(out: &Vec<ListOp>) -> (b: bool)
    ensures
        b == (list_steps(out@).len() > 0 && list_steps(out@).last() is Retain),
{
    if out.len() == 0 {
        false
    } else {
        match &out[out.len() - 1] {
            ListOp::Retain(_) => true,
            _ => false,
        }
    }
}

/// Normalizes a List stream: drops empty operations, merges neighbours,
/// moves inserts before deletes and removes trailing retains.
fn normalize_list(ops: Vec<ListOp>) -> (r: Result<Vec<ListOp>, ValueError>)
    ensures
        match list_normalize(list_steps(ops@)) {
            Some(n) => r is Ok && list_steps(r->Ok_0@) == n,
            None => r == Err::<Vec<ListOp>, ValueError>(ValueError::LengthOverflow),
        },
        r is Ok ==> modifies_formed(list_steps(r->Ok_0@)),
        r is Ok ==> steps_nonempty(list_steps(r->Ok_0@)),
{
    let ghost all = list_steps(ops@);
    let mut out: Vec<ListOp> = Vec::new();
    proof {
        assert(all.take(0) =~= Seq::<ListStep>::empty());
        assert(list_steps(out@) =~= Seq::<ListStep>::empty());
    }
    for op in it: ops.into_iter()
        invariant
            it.seq() == ops@,
            all == list_steps(ops@),
            list_fold(all.take(it.index() as int)) == Some(list_steps(out@)),
            modifies_formed(list_steps(out@)),
            steps_nonempty(list_steps(out@)),
    {
        let ghost k = it.index() as int;
        proof {
            assert(all[k] == step_of(op));
            lemma_list_fold_step(all, k);
        }
        let next = match op {
            ListOp::Retain(n) => if n == 0 {
                None
            } else {
                Some(ListOp::Retain(n))
            },
            ListOp::Delete(n) => if n == 0 {
                None
            } else {
                Some(ListOp::Delete(n))
            },
            ListOp::Insert(vs) => if vs.len() == 0 {
                None
            } else {
                Some(ListOp::Insert(vs))
            },
            ListOp::Modify(c) => {
                proof {
                    use_type_invariant(&c);
                }
                if c.is_noop() {
                    Some(ListOp::Retain(1))
                } else {
                    Some(ListOp::Modify(c))
                }
            },
        };
        proof {
            if next is Some {
                assert(normal_step(all[k]) == Some(step_of(next->Some_0)));
            } else {
                assert(normal_step(all[k]) is None);
            }
        }
        match next {
            Some(o) => {
                let ghost before = list_steps(out@);
                let ghost so = step_of(o);
                let pushed = push_list(&mut out, o);
                proof {
                    if pushed is Ok {
                        lemma_push_formed(before, so);
                        lemma_push_nonempty(before, so);
                    }
                }
                if pushed.is_err() {
                    proof {
                        lemma_list_fold_none(all, k + 1);
                    }
                    return Err(ValueError::LengthOverflow);
                }
            },
            None => {},
        }
    }
    proof {
        assert(all.take(all.len() as int) =~= all);
    }
    let ghost folded = list_steps(out@);
    proof {
        lemma_trim_formed(folded);
        lemma_trim_nonempty(folded);
    }
    while ends_with_retain(&out)
        invariant
            trim_list_retains(list_steps(out@)) == trim_list_retains(folded),
            modifies_formed(trim_list_retains(folded)),
            steps_nonempty(trim_list_retains(folded)),
        decreases out.len(),
    {
        let ghost before = out@;
        out.pop();
        proof {
            assert(out@ =~= before.drop_last());
            lemma_list_steps_drop_last(before);
        }
    }
    Ok(out)
}

proof fn lemma_list_lengths_prefix(s: Seq<ListStep>, k: int)
    requires
        0 <= k <= s.len(),
    ensures
        list_in(s.take(k)) <= list_in(s),
        list_out(s.take(k)) <= list_out(s),
    decreases s.len() - k,
{
    if k < s.len() {
        assert(s.take(k + 1).drop_last() =~= s.take(k));
        lemma_list_lengths_prefix(s, k + 1);
    } else {
        assert(s.take(k) =~= s);
    }
}

/// Checks that both logical lengths fit in `usize`.
fn validate_list_lengths(ops: &Vec<ListOp>) -> (r: Result<(), ValueError>)
    ensures
        r is Ok <==> list_lengths_fit(list_steps(ops@)),
        r is Err ==> r == Err::<(), ValueError>(ValueError::LengthOverflow),
{
    let ghost all = list_steps(ops@);
    let mut lengths = ChangeLengths { input: 0, output: 0 };
    let mut i: usize = 0;
    proof {
        assert(all.take(0) =~= Seq::<ListStep>::empty());
    }
    while i < ops.len()
        invariant
            all == list_steps(ops@),
            i <= all.len(),
            lengths.input == list_in(all.take(i as int)),
            lengths.output == list_out(all.take(i as int)),
        decreases all.len() - i,
    {
        proof {
            assert(all.take(i + 1).drop_last() =~= all.take(i as int));
            assert(all.take(i + 1).last() == all[i as int]);
            assert(all[i as int] == step_of(ops@[i as int]));
        }
        let step = match &ops[i] {
            ListOp::Retain(len) => lengths.retain(*len),
            ListOp::Insert(values) => lengths.insert(values.len()),
            ListOp::Delete(len) => lengths.delete(*len),
            ListOp::Modify(_) => lengths.retain(1),
        };
        if step.is_err() {
            proof {
                lemma_list_lengths_prefix(all, i + 1);
            }
            return Err(ValueError::LengthOverflow);
        }
        i = i + 1;
    }
    proof {
        assert(all.take(i as int) =~= all);
    }
    Ok(())
}

impl ListChange {
    #[verifier::type_invariant]
    spec fn well_formed(self) -> bool {
        &&& list_lengths_fit(list_steps(self.ops@))
        &&& modifies_formed(list_steps(self.ops@))
        &&& steps_nonempty(list_steps(self.ops@))
    }

    /// Creates and normalizes a List operation stream.
    ///
    /// Zero operations and empty inserts are removed, adjacent operations are
    /// merged, inserts sort before deletes at one position, and trailing
    /// retains are omitted. Length and capacity overflow is rejected.
    pub fn from_ops(ops: Vec<ListOp>) -> (r: Result<ListChange, ValueError>)
        ensures
            match list_normalize(list_steps(ops@)) {
                Some(n) => if list_lengths_fit(n) {
                    r is Ok && r->Ok_0@ == n
                } else {
                    r == Err::<ListChange, ValueError>(ValueError::LengthOverflow)
                },
                None => r == Err::<ListChange, ValueError>(ValueError::LengthOverflow),
            },
    {
        let ops = normalize_list(ops)?;
        validate_list_lengths(&ops)?;
        Ok(ListChange { ops })
    }

    /// Returns the canonical operations.
    pub fn ops(&self) -> (ops: &[ListOp])
        ensures
            list_steps(ops@) == self@,
            list_lengths_fit(self@),
            steps_nonempty(self@),
    {
        proof {
            use_type_invariant(self);
        }
        self.ops.as_slice()
    }

    /// Returns whether the canonical stream contains no operations.
    pub fn is_empty(&self) -> (b: bool)
        ensures
            b == (self@.len() == 0),
    {
        self.ops.len() == 0
    }
}

impl Change {
    /// Wraps a Change kind.
    fn from_kind(kind: ChangeKind) -> (c: Change)
        requires
            formed(kind_edit(kind)),
        ensures
            c@ == kind_edit(kind),
            formed(c@),
    {
        proof {
            lemma_kind_edit(Change { kind: Box::new(kind) });
        }
        let c = Change { kind: Box::new(kind) };
        proof {
            lemma_kind_edit(c);
        }
        c
    }

    /// Creates the identity Change.
    pub fn noop() -> (c: Change)
        ensures
            c@ == Edit::Noop,
            formed(c@),
    {
        Change::from_kind(ChangeKind::Noop)
    }

    /// Creates an atomic replacement Change.
    pub fn replace(value: Value) -> (c: Change)
        ensures
            c@ == Edit::Replace(value@),
            formed(c@),
    {
        Change::from_kind(ChangeKind::Replace(value))
    }

    /// Returns the concrete Change kind.
    pub fn kind(&self) -> (k: &ChangeKind)
        ensures
            kind_edit(*k) == self@,
            formed(self@),
    {
        proof {
            lemma_kind_edit(*self);
            use_type_invariant(self);
        }
        &self.kind
    }

    /// Returns whether this Change is the identity.
    pub fn is_noop(&self) -> (b: bool)
        ensures
            b == (self@ is Noop),
    {
        match self.kind() {
            ChangeKind::Noop => true,
            _ => false,
        }
    }

    /// The name of this Change's kind.
    pub fn kind_name(&self) -> (s: &'static str)
        ensures
            s@ == edit_kind_name(self@),
    {
        match self.kind() {
            ChangeKind::Noop => "Noop",
            ChangeKind::Replace(_) => "Replace",
            ChangeKind::KeyMap(_) => "Map",
            ChangeKind::List(_) => "List",
            ChangeKind::Text(_) => "Text",
            ChangeKind::Int(_) => "Int",
        }
    }

    /// A Map Change; the empty one is the identity.
    pub fn from_map(change: MapChange) -> (c: Change)
        ensures
            c@ == (if change@.len() == 0 { Edit::Noop } else { Edit::KeyMap(change@) }),
            formed(c@),
    {
        proof {
            use_type_invariant(&change);
            lemma_entry_edit_keys(change.entries@);
        }
        if change.is_empty() {
            Change::noop()
        } else {
            Change::from_kind(ChangeKind::KeyMap(change))
        }
    }

    /// A List Change; the empty one is the identity.
    pub fn from_list(change: ListChange) -> (c: Change)
        ensures
            c@ == (if change@.len() == 0 { Edit::Noop } else { Edit::List(change@) }),
            formed(c@),
    {
        proof {
            use_type_invariant(&change);
        }
        if change.is_empty() {
            Change::noop()
        } else {
            Change::from_kind(ChangeKind::List(change))
        }
    }

    /// A Text Change; the empty one is the identity.
    pub fn from_text(change: TextChange) -> (c: Change)
        ensures
            c@ == (if change@.len() == 0 { Edit::Noop } else { Edit::Text(change@) }),
            formed(c@),
    {
        if change.is_empty() {
            Change::noop()
        } else {
            Change::from_kind(ChangeKind::Text(change))
        }
    }

    /// An Int Change; adding zero is the identity.
    pub fn from_int(change: IntChange) -> (c: Change)
        ensures
            c@ == (match change {
                IntChange::Add(d) => if d == 0 { Edit::Noop } else { Edit::Int(d) },
            }),
            formed(c@),
    {
        match change {
            IntChange::Add(d) => if d == 0 {
                Change::noop()
            } else {
                Change::from_kind(ChangeKind::Int(change))
            },
        }
    }
}

impl Change {
    /// A copy of this Change with the same meaning.
    fn duplicate(&self) -> (c: Change)
        ensures
            c@ == self@,
        decreases self@,
    {
        match self.kind() {
            ChangeKind::Noop => Change::noop(),
            ChangeKind::Replace(v) => Change::replace(v.deep_copy()),
            ChangeKind::KeyMap(m) => Change::from_kind(ChangeKind::KeyMap(m.duplicate())),
            ChangeKind::List(l) => Change::from_kind(ChangeKind::List(l.duplicate())),
            ChangeKind::Text(t) => Change::from_kind(ChangeKind::Text(t.clone())),
            ChangeKind::Int(d) => Change::from_kind(ChangeKind::Int(*d)),
        }
    }
}

impl Clone for Change {
    fn clone(&self) -> (c: Self)
        ensures
            c@ == self@,
            formed(c@),
    {
        proof {
            use_type_invariant(self);
        }
        self.duplicate()
    }
}

impl MapChange {
    /// A copy of these entry changes.
    fn duplicate(&self) -> (c: MapChange)
        ensures
            c@ == self@,
        decreases self@,
    {
        proof {
            use_type_invariant(self);
        }
        let ghost es = self@;
        let mut out: Vec<(String, MapEntryChange)> = Vec::new();
        let mut i: usize = 0;
        while i < self.entries.len()
            invariant
                es == self@,
                es == entry_edits(self.entries@),
                i <= self.entries@.len(),
                out@.len() == i,
                forall|k: int|
                    0 <= k < i ==> #[trigger] out@[k].0@ == self.entries@[k].0@ && entry_edit_of(
                        out@[k].1,
                    ) == entry_edit_of(self.entries@[k].1),
            decreases self.entries@.len() - i,
        {
            let entry = match &self.entries[i].1 {
                MapEntryChange::Insert(v) => MapEntryChange::Insert(v.deep_copy()),
                MapEntryChange::Delete => MapEntryChange::Delete,
                MapEntryChange::Modify(c) => {
                    proof {
                        assert(es[i as int].1 == EntryEdit::Modify(c@));
                        assert(decreases_to!(es => es[i as int]));
                        assert(decreases_to!(es[i as int] => es[i as int].1));
                        assert(decreases_to!(es[i as int].1 => es[i as int].1->Modify_0));
                    }
                    MapEntryChange::Modify(c.duplicate())
                },
            };
            let key = self.entries[i].0.clone();
            assert(key@ == self.entries@[i as int].0@);
            assert(entry_edit_of(entry) == entry_edit_of(self.entries@[i as int].1));
            let ghost before = out@;
            out.push((key, entry));
            proof {
                assert forall|k: int| 0 <= k < i + 1 implies #[trigger] out@[k].0@
                    == self.entries@[k].0@ && entry_edit_of(out@[k].1) == entry_edit_of(
                    self.entries@[k].1,
                ) by {
                    if k < i {
                        assert(out@[k] == before[k]);
                    }
                }
            }
            i = i + 1;
        }
        proof {
            use_type_invariant(self);
            assert(entry_edits(out@) =~= entry_edits(self.entries@));
            assert forall|a: int, b: int| 0 <= a < b < keyed_entries(out@).len() implies crate::keys::key_lt(
                #[trigger] keyed_entries(out@)[a].0,
                #[trigger] keyed_entries(out@)[b].0,
            ) by {
                assert(keyed_entries(out@)[a] == keyed(out@[a]));
                assert(keyed_entries(out@)[b] == keyed(out@[b]));
                assert(keyed_entries(self.entries@)[a] == keyed(self.entries@[a]));
                assert(keyed_entries(self.entries@)[b] == keyed(self.entries@[b]));
                assert(out@[a].0@ == self.entries@[a].0@);
                assert(out@[b].0@ == self.entries@[b].0@);
                assert(keys_sorted(keyed_entries(self.entries@)));
                assert(crate::keys::key_lt(
                    keyed_entries(self.entries@)[a].0,
                    keyed_entries(self.entries@)[b].0,
                ));
            }
        }
        MapChange { entries: out }
    }
}

impl ListChange {
    /// A copy of this operation stream.
    fn duplicate(&self) -> (c: ListChange)
        ensures
            c@ == self@,
        decreases self@,
    {
        proof {
            use_type_invariant(self);
        }
        let ghost steps = self@;
        let mut out: Vec<ListOp> = Vec::new();
        let mut i: usize = 0;
        while i < self.ops.len()
            invariant
                steps == self@,
                steps == list_steps(self.ops@),
                i <= self.ops@.len(),
                out@.len() == i,
                forall|k: int| 0 <= k < i ==> #[trigger] step_of(out@[k]) == step_of(self.ops@[k]),
            decreases self.ops@.len() - i,
        {
            let op = match &self.ops[i] {
                ListOp::Retain(n) => ListOp::Retain(*n),
                ListOp::Insert(values) => {
                    let mut copied: Vec<Value> = Vec::new();
                    crate::apply_change::copy_range(&mut copied, values.as_slice(), 0, values.len());
                    proof {
                        assert(contents(copied@) =~= contents(values@));
                    }
                    ListOp::Insert(copied)
                },
                ListOp::Delete(n) => ListOp::Delete(*n),
                ListOp::Modify(c) => {
                    proof {
                        assert(steps[i as int] == ListStep::Modify(c@));
                        assert(decreases_to!(steps => steps[i as int]));
                        assert(decreases_to!(steps[i as int] => steps[i as int]->Modify_0));
                    }
                    ListOp::Modify(c.duplicate())
                },
            };
            let ghost before = out@;
            out.push(op);
            proof {
                assert forall|k: int| 0 <= k < i + 1 implies #[trigger] step_of(out@[k]) == step_of(
                    self.ops@[k],
                ) by {
                    if k < i {
                        assert(out@[k] == before[k]);
                    }
                }
            }
            i = i + 1;
        }
        proof {
            assert(list_steps(out@) =~= list_steps(self.ops@));
        }
        ListChange { ops: out }
    }
}

/// The name of an Edit's kind.
pub open spec fn edit_kind_name(e: Edit) -> Seq<char> {
    match e {
        Edit::Noop => "Noop"@,
        Edit::Replace(_) => "Replace"@,
        Edit::KeyMap(_) => "Map"@,
        Edit::List(_) => "List"@,
        Edit::Text(_) => "Text"@,
        Edit::Int(_) => "Int"@,
    }
}

impl Default for Change {
    fn default() -> (c: Change)
        ensures
            c@ == Edit::Noop,
    {
        Change::noop()
    }
}

impl From<MapChange> for Change {
    fn from(change: MapChange) -> (c: Change)
        ensures
            c@ == (if change@.len() == 0 { Edit::Noop } else { Edit::KeyMap(change@) }),
    {
        Change::from_map(change)
    }
}

impl vstd::std_specs::convert::FromSpecImpl<MapChange> for Change {
    open spec fn obeys_from_spec() -> bool {
        false
    }

    open spec fn from_spec(v: MapChange) -> Change {
        choose|c: Change| c@ == (if v@.len() == 0 { Edit::Noop } else { Edit::KeyMap(v@) })
    }
}

impl From<ListChange> for Change {
    fn from(change: ListChange) -> (c: Change)
        ensures
            c@ == (if change@.len() == 0 { Edit::Noop } else { Edit::List(change@) }),
    {
        Change::from_list(change)
    }
}

impl vstd::std_specs::convert::FromSpecImpl<ListChange> for Change {
    open spec fn obeys_from_spec() -> bool {
        false
    }

    open spec fn from_spec(v: ListChange) -> Change {
        choose|c: Change| c@ == (if v@.len() == 0 { Edit::Noop } else { Edit::List(v@) })
    }
}

impl From<TextChange> for Change {
    fn from(change: TextChange) -> (c: Change)
        ensures
            c@ == (if change@.len() == 0 { Edit::Noop } else { Edit::Text(change@) }),
    {
        Change::from_text(change)
    }
}

impl vstd::std_specs::convert::FromSpecImpl<TextChange> for Change {
    open spec fn obeys_from_spec() -> bool {
        false
    }

    open spec fn from_spec(v: TextChange) -> Change {
        choose|c: Change| c@ == (if v@.len() == 0 { Edit::Noop } else { Edit::Text(v@) })
    }
}

impl From<IntChange> for Change {
    fn from(change: IntChange) -> (c: Change)
        ensures
            c@ == (match change {
                IntChange::Add(d) => if d == 0 { Edit::Noop } else { Edit::Int(d) },
            }),
    {
        Change::from_int(change)
    }
}

impl vstd::std_specs::convert::FromSpecImpl<IntChange> for Change {
    open spec fn obeys_from_spec() -> bool {
        false
    }

    open spec fn from_spec(v: IntChange) -> Change {
        choose|c: Change| c@ == (match v {
            IntChange::Add(d) => if d == 0 { Edit::Noop } else { Edit::Int(d) },
        })
    }
}

impl MapChange {
    #[verifier::type_invariant]
    spec fn well_formed(self) -> bool {
        keys_sorted(keyed_entries(self.entries@)) && entries_formed(entry_edits(self.entries@))
    }
}

impl Change {
    #[verifier::type_invariant]
    spec fn well_formed(self) -> bool {
        formed(edit_of(self))
    }
}

/// Keys taken as text are the keys of the entry changes.
proof fn lemma_entry_edit_keys(s: Seq<(String, MapEntryChange)>)
    ensures
        keys_sorted(keyed_entries(s)) ==> keys_sorted(entry_edits(s)),
        entry_map(entry_edits(s)) == entry_map(keyed_entries(s)).map_values(
            |e: MapEntryChange| entry_edit_of(e),
        ),
    decreases s.len(),
{
    let a = keyed_entries(s);
    let b = entry_edits(s);
    assert forall|i: int| 0 <= i < s.len() implies #[trigger] a[i].0 == b[i].0 by {
        assert(a[i] == keyed(s[i]));
    }
    if keys_sorted(a) {
        assert forall|i: int, j: int| 0 <= i < j < b.len() implies crate::keys::key_lt(
            #[trigger] b[i].0,
            #[trigger] b[j].0,
        ) by {
            assert(a[i].0 == b[i].0 && a[j].0 == b[j].0);
        }
    }
    if s.len() > 0 {
        let init = s.drop_last();
        lemma_entry_edit_keys(init);
        assert(keyed_entries(init) =~= a.drop_last());
        assert(entry_edits(init) =~= b.drop_last());
        assert(a.last() == keyed(s.last()));
        assert(entry_map(b) =~= entry_map(a).map_values(|e: MapEntryChange| entry_edit_of(e)));
    } else {
        assert(entry_map(b) =~= entry_map(a).map_values(|e: MapEntryChange| entry_edit_of(e)));
    }
}

impl MapChange {
    /// Creates a canonical Map Change and rejects duplicate keys.
    ///
    /// Entries are sorted by key, and `Modify(Noop)` entries are removed
    /// before duplicates are looked for.
    pub fn from_entries(entries: Vec<(String, MapEntryChange)>) -> (r: Result<MapChange, ValueError>)
        ensures
            r is Ok <==> distinct_keys(keyed_entries(kept_entries(entries@))),
            r matches Ok(m) ==> keys_sorted(m@) && entry_map(m@) == entry_map(
                entry_edits(kept_entries(entries@)),
            ),
            r matches Err(e) ==> e matches ValueError::DuplicateKey(k) && first_repeated_key(
                keyed_entries(kept_entries(entries@)),
                k@,
            ),
    {
        let ghost input = entries@;
        let mut kept: Vec<(String, MapEntryChange)> = Vec::new();
        proof {
            assert(input.take(0) =~= Seq::<(String, MapEntryChange)>::empty());
        }
        proof {
            assert(entry_edits(kept@) =~= Seq::<(Seq<char>, EntryEdit)>::empty());
        }
        for entry in it: entries.into_iter()
            invariant
                it.seq() == input,
                kept@ == kept_entries(input.take(it.index() as int)),
                entries_formed(entry_edits(kept@)),
        {
            let ghost k = it.index() as int;
            proof {
                assert(input.take(k + 1).drop_last() =~= input.take(k));
                assert(input.take(k + 1).last() == entry);
            }
            let skip = match &entry.1 {
                MapEntryChange::Modify(c) => {
                    proof {
                        use_type_invariant(c);
                    }
                    c.is_noop()
                },
                _ => false,
            };
            if !skip {
                let ghost before = kept@;
                kept.push(entry);
                proof {
                    assert forall|j: int| 0 <= j < kept@.len() implies (#[trigger] entry_edits(kept@)[j]).1
                        is Modify ==> formed(entry_edits(kept@)[j].1->Modify_0) by {
                        if j < before.len() {
                            assert(kept@[j] == before[j]);
                            assert(entry_edits(kept@)[j] == entry_edits(before)[j]);
                        }
                    }
                }
            }
        }
        proof {
            assert(input.take(input.len() as int) =~= input);
        }
        let ghost kept_view = kept@;
        let sorted = sorted_entries_from(kept)?;
        proof {
            lemma_entry_edit_keys(kept_view);
            lemma_entry_edit_keys(sorted@);
            let ks = keyed_entries(sorted@);
            let kk = keyed_entries(kept_view);
            crate::keyed::lemma_entry_map(ks);
            assert forall|i: int| 0 <= i < sorted@.len() implies (#[trigger] entry_edits(sorted@)[i]).1
                is Modify ==> formed(entry_edits(sorted@)[i].1->Modify_0) by {
                assert(ks[i] == keyed(sorted@[i]));
                assert(entry_map(ks).contains_key(ks[i].0));
                crate::keyed::lemma_entry_map_value(kk, ks[i].0);
                let j = choose|j: int| 0 <= j < kk.len() && #[trigger] kk[j].0 == ks[i].0 && kk[j].1
                    == entry_map(kk)[ks[i].0];
                assert(kk[j] == keyed(kept_view[j]));
                assert(entry_edits(kept_view)[j].1 == entry_edit_of(kept_view[j].1));
            }
        }
        Ok(MapChange { entries: sorted })
    }

    /// Wraps entry changes already in strictly increasing key order.
    pub(crate) fn from_sorted(entries: Vec<(String, MapEntryChange)>) -> (m: MapChange)
        requires
            keys_sorted(keyed_entries(entries@)),
            entries_formed(entry_edits(entries@)),
        ensures
            m@ == entry_edits(entries@),
    {
        MapChange { entries }
    }

    /// The entry changes in canonical key order.
    pub fn entries(&self) -> (e: &[(String, MapEntryChange)])
        ensures
            entry_edits(e@) == self@,
            keys_sorted(self@),
    {
        proof {
            use_type_invariant(self);
            lemma_entry_edit_keys(self.entries@);
        }
        self.entries.as_slice()
    }

    /// Returns whether this typed Change contains no entries.
    pub fn is_empty(&self) -> (b: bool)
        ensures
            b == (self@.len() == 0),
    {
        self.entries.len() == 0
    }

    /// Returns the number of changed keys.
    pub fn len(&self) -> (n: usize)
        ensures
            n == self@.len(),
    {
        self.entries.len()
    }
}

} // verus!
