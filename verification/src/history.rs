//! Collaborative undo and redo: stacks of inverse Changes, kept applicable
//! to the visible content as remote work arrives.
use crate::engine::{Origin, Priority};
use crate::engine_transform::transform;
use crate::error::{CollaError, ErrorCode};
use crate::keys::{compare_keys, KeyOrder};
use crate::operation::{apply, apply_steps, steps_of, Change, Operation, Step};
use crate::operation_compose::{compose, normalize, normalize_run, normalized};
use crate::operation_invert::{invert, invert_spec};
use crate::sync::EditResult;
use crate::tree::{valid, Tree, Value};
use vstd::prelude::*;

verus! {

/// Commits `change` to `value` at local version `version`.
pub(crate) fn commit_change(value: &Value, version: u64, change: &Change, origin: Origin) -> (r: Result<
    EditResult,
    CollaError,
>)
    ensures
        r matches Ok(res) ==> {
            &&& apply_steps(value@, change@) == Ok::<Tree, ErrorCode>(res.after@)
            &&& res.before@ == value@
            &&& invert_spec(value@, change@) == Ok::<Seq<Step>, ErrorCode>(res.inverse@)
            &&& res.version == version + 1
            &&& res.change@ == change@
        },
        apply_steps(value@, change@) is Err ==> r is Err,
{
    let after = apply(value, change)?;
    if version == u64::MAX {
        return Err(CollaError::new(ErrorCode::LimitExceeded, "local version exhausted"));
    }
    let inverse = invert(value, change)?;
    let ops = change.operations();
    let mut edit_steps: Vec<Operation> = Vec::new();
    let mut i: usize = 0;
    while i < ops.len()
        decreases ops.len() - i,
    {
        edit_steps.push(ops[i].copy());
        i += 1;
    }
    Ok(
        EditResult {
            before: value.copy(),
            after,
            change: change.copy(),
            inverse,
            edit_steps,
            version: version + 1,
            origin,
        },
    )
}

/// Whether two optional group names are equal.
fn same_group(a: &Option<String>, b: &Option<String>) -> (r: bool)
    ensures
        r == (opt_text(*a) == opt_text(*b)),
{
    match (a, b) {
        (Some(x), Some(y)) => compare_keys(x.as_str(), y.as_str()) == KeyOrder::Equal,
        (None, None) => true,
        _ => false,
    }
}

/// The text of an optional name.
pub open spec fn opt_text(g: Option<String>) -> Option<Seq<char>> {
    match g {
        Some(s) => Some(s@),
        None => None,
    }
}

/// The newest unit of `stack` changes `value`.
pub open spec fn effective_top(stack: Seq<Seq<Step>>, value: Tree) -> bool {
    stack.len() > 0 && normalized(value, stack.last()) is Ok && normalized(value, stack.last())->Ok_0.len() > 0
}

/// The models of Changes.
pub open spec fn change_views(s: Seq<Change>) -> Seq<Seq<Step>> {
    Seq::new(s.len(), |i: int| s[i]@)
}

/// The model of an editor.
pub struct EditorView {
    /// The visible content.
    pub value: Tree,
    /// The local content version.
    pub version: u64,
    /// The undo units, oldest first.
    pub undo: Seq<Seq<Step>>,
    /// The redo units, oldest first.
    pub redo: Seq<Seq<Step>>,
    /// The most undo units kept.
    pub capacity: usize,
    /// The group that the newest undo unit collects.
    pub group: Option<Seq<char>>,
}

/// Visible content with a collaborative undo and redo history.
#[derive(Debug)]
pub struct Editor {
    value: Value,
    version: u64,
    undo: Vec<Change>,
    redo: Vec<Change>,
    capacity: usize,
    group: Option<String>,
}

impl View for Editor {
    type V = EditorView;

    closed spec fn view(&self) -> EditorView {
        EditorView {
            value: self.value@,
            version: self.version,
            undo: change_views(self.undo@),
            redo: change_views(self.redo@),
            capacity: self.capacity,
            group: opt_text(self.group),
        }
    }
}

/// Copies of Changes.
fn copy_changes(s: &Vec<Change>) -> (r: Vec<Change>)
    ensures
        change_views(r@) == change_views(s@),
{
    let mut out: Vec<Change> = Vec::new();
    let mut i: usize = 0;
    while i < s.len()
        invariant
            0 <= i <= s@.len(),
            out@.len() == i,
            forall|j: int| 0 <= j < i ==> out@[j]@ == s@[j]@,
        decreases s.len() - i,
    {
        out.push(s[i].copy());
        i += 1;
    }
    proof {
        assert(change_views(out@) =~= change_views(s@));
    }
    out
}

/// The content that unit `i` of a stack with units `units` applies to, the
/// newest unit applying to `v` and each older one to the content the newer
/// units leave.
pub open spec fn unit_base(v: Tree, units: Seq<Seq<Step>>, i: int) -> Tree
    decreases units.len() - i,
{
    if i + 1 >= units.len() {
        v
    } else {
        apply_steps(unit_base(v, units, i + 1), units[i + 1])->Ok_0
    }
}

/// `new` is `old` rebased over the remote Change `c` that arrived on `v`,
/// with `down[t]` the remote as seen below the `t` newest units (so
/// `down[0] == c`): for each unit, undoing it after the remote work equals
/// the remote work, rebased over the undo, after undoing it (TP1); where the
/// unit and the remote work commute, the rebased pair is their normalized
/// pair.
pub open spec fn rebased_over(
    old: Seq<Seq<Step>>,
    new: Seq<Seq<Step>>,
    v: Tree,
    c: Seq<Step>,
    down: Seq<Seq<Step>>,
) -> bool {
    &&& new.len() == old.len()
    &&& down.len() == old.len() + 1
    &&& down[0] == c
    &&& forall|j: int|
        #![trigger new[j]]
        0 <= j < old.len() ==> {
            let b = unit_base(v, old, j);
            let remote = down[old.len() - 1 - j];
            let below = down[old.len() - j];
            &&& valid(v) ==> apply_steps(b, old[j] + below) is Ok
            &&& valid(v) ==> apply_steps(b, old[j] + below) == apply_steps(b, remote + new[j])
            &&& crate::engine_transform::commuting(b, old[j], remote) matches Some(p) ==> new[j] == p.0
                && below == p.1
        }
}

/// Rebases each unit of `stack`, newest first, over the remote `change`
/// that arrived on `base`; returns the remote as seen below each unit.
fn rebase_stack(stack: &mut Vec<Change>, base: &Value, change: &Change) -> (r: Result<Vec<Change>, CollaError>)
    ensures
        final(stack)@.len() == old(stack)@.len(),
        r matches Ok(down) ==> rebased_over(
            change_views(old(stack)@),
            change_views(final(stack)@),
            base@,
            change@,
            change_views(down@),
        ),
{
    let ghost units = change_views(stack@);
    let ghost v = base@;
    let n = stack.len();
    let mut base = base.copy();
    let mut remote = change.copy();
    let mut down: Vec<Change> = Vec::new();
    down.push(change.copy());
    let mut i: usize = n;
    while i > 0
        invariant
            i <= n,
            n == stack@.len(),
            n == old(stack)@.len(),
            units.len() == n,
            down@.len() == n - i + 1,
            change_views(down@)[0] == change@,
            remote@ == change_views(down@)[n - i],
            base@ == unit_base(v, units, i - 1),
            valid(v) ==> valid(base@),
            forall|j: int| 0 <= j < i ==> (#[trigger] stack@[j])@ == units[j],
            forall|j: int|
                #![trigger stack@[j]]
                i <= j < n ==> {
                    let b = unit_base(v, units, j);
                    let remote_j = change_views(down@)[n - 1 - j];
                    let below = change_views(down@)[n - j];
                    &&& valid(v) ==> apply_steps(b, units[j] + below) is Ok
                    &&& valid(v) ==> apply_steps(b, units[j] + below) == apply_steps(b, remote_j + stack@[j]@)
                    &&& crate::engine_transform::commuting(b, units[j], remote_j) matches Some(p) ==> stack@[j]@
                        == p.0 && below == p.1
                },
        decreases i,
    {
        i -= 1;
        let ghost b = base@;
        let ghost ri = remote@;
        let (rebased, below) = transform(&base, &stack[i], &remote, Priority::Right)?;
        let next = apply(&base, &stack[i])?;
        proof {
            if valid(v) {
                crate::operation_laws::law_changes_keep_content_valid(b, units[i as int]);
            }
            if i > 0 {
                assert(unit_base(v, units, i - 1) == apply_steps(unit_base(v, units, i as int), units[i as int])->Ok_0);
            }
        }
        base = next;
        let ghost d0 = change_views(down@);
        down.push(below.copy());
        stack.set(i, rebased);
        remote = below;
        proof {
            assert(change_views(down@) =~= d0.push(remote@));
        }
    }
    proof {
        assert(change_views(stack@).len() == n);
    }
    Ok(down)
}

impl Editor {
    /// Visible content `value` with an empty history of at most `capacity`
    /// units; the capacity must be between 1 and 1,000,000.
    pub fn create(value: Value, capacity: usize) -> (r: Result<Editor, CollaError>)
        ensures
            r is Ok <==> 1 <= capacity <= 1_000_000,
            r is Err ==> r->Err_0.code == ErrorCode::InvalidArgument,
            r matches Ok(e) ==> e@ == (EditorView {
                value: value@,
                version: 0,
                undo: Seq::empty(),
                redo: Seq::empty(),
                capacity,
                group: None,
            }),
    {
        if capacity == 0 || capacity > 1_000_000 {
            return Err(CollaError::new(ErrorCode::InvalidArgument, "History capacity must be between 1 and 1000000"));
        }
        let e = Editor { value, version: 0, undo: Vec::new(), redo: Vec::new(), capacity, group: None };
        proof {
            assert(change_views(e.undo@) =~= Seq::<Seq<Step>>::empty());
            assert(change_views(e.redo@) =~= Seq::<Seq<Step>>::empty());
        }
        Ok(e)
    }

    /// Borrows the visible content.
    pub fn value(&self) -> (v: &Value)
        ensures
            v@ == self@.value,
    {
        &self.value
    }

    /// Returns the local content version.
    pub fn version(&self) -> (n: u64)
        ensures
            n == self@.version,
    {
        self.version
    }

    /// Whether an undo unit that changes something is available.
    pub fn can_undo(&self) -> (b: bool)
        ensures
            b == exists|i: int| 0 <= i < self@.undo.len() && #[trigger] self@.undo[i].len() > 0,
    {
        any_effective(&self.undo)
    }

    /// Whether a redo unit that changes something is available.
    pub fn can_redo(&self) -> (b: bool)
        ensures
            b == exists|i: int| 0 <= i < self@.redo.len() && #[trigger] self@.redo[i].len() > 0,
    {
        any_effective(&self.redo)
    }

    fn copy(&self) -> (c: Editor)
        ensures
            c@ == self@,
    {
        Editor {
            value: self.value.copy(),
            version: self.version,
            undo: copy_changes(&self.undo),
            redo: copy_changes(&self.redo),
            capacity: self.capacity,
            group: match &self.group {
                Some(g) => Some(g.clone()),
                None => None,
            },
        }
    }

    /// Clears undo, redo and grouping, the content unchanged.
    pub fn clear(&self) -> (c: Editor)
        ensures
            c@ == (EditorView { undo: Seq::empty(), redo: Seq::empty(), group: None, ..self@ }),
    {
        let c = Editor {
            value: self.value.copy(),
            version: self.version,
            undo: Vec::new(),
            redo: Vec::new(),
            capacity: self.capacity,
            group: None,
        };
        proof {
            assert(change_views(c.undo@) =~= Seq::<Seq<Step>>::empty());
            assert(change_views(c.redo@) =~= Seq::<Seq<Step>>::empty());
        }
        c
    }

    /// Commits a local Change and records its inverse as the newest undo
    /// unit, composed into the previous one when both belong to the same
    /// named group; redo is cleared, and the oldest unit is dropped beyond
    /// the capacity. The empty Change commits nothing.
    pub fn edit(&self, change: &Change, group: Option<String>) -> (r: Result<(Editor, Option<EditResult>), CollaError>)
        ensures
            change@.len() == 0 ==> (r is Ok && r->Ok_0.0@ == self@ && r->Ok_0.1 is None),
            apply_steps(self@.value, change@) is Err ==> r is Err,
            r matches Ok((e, Some(res))) ==> {
                &&& apply_steps(self@.value, change@) == Ok::<Tree, ErrorCode>(e@.value)
                &&& e@.version == self@.version + 1
                &&& e@.redo.len() == 0
                &&& e@.undo.len() > 0
                &&& invert_spec(self@.value, change@) == Ok::<Seq<Step>, ErrorCode>(res.inverse@)
                &&& group is None ==> e@.undo.last() == res.inverse@
            },
    {
        if change.is_noop() {
            return Ok((self.copy(), None));
        }
        let res = commit_change(&self.value, self.version, change, Origin::Local)?;
        let mut next = self.copy();
        next.redo = Vec::new();
        let grouped = group.is_some() && same_group(&self.group, &group) && next.undo.len() > 0;
        if grouped {
            let previous = next.undo.pop().unwrap();
            let merged = compose(&res.after, &res.inverse, &previous)?;
            next.undo.push(merged);
        } else {
            next.undo.push(res.inverse.copy());
        }
        if next.undo.len() > next.capacity && next.undo.len() > 1 {
            next.undo.remove(0);
        }
        next.group = group;
        next.value = res.after.copy();
        next.version = res.version;
        proof {
            assert(change_views(next.redo@) =~= Seq::<Seq<Step>>::empty());
            let u = next.undo@;
            assert(change_views(u).last() == u[u.len() - 1]@);
        }
        Ok((next, Some(res)))
    }

    /// Commits a remote Change, first reduced to what changes the content,
    /// and rebases every undo and redo unit over it so that each still
    /// applies; grouping ends. A Change that changes nothing commits nothing.
    pub fn apply_remote(&self, change: &Change) -> (r: Result<(Editor, Option<EditResult>), CollaError>)
        ensures
            apply_steps(self@.value, change@) is Err ==> r is Err,
            r matches Ok((e, _)) ==> apply_steps(self@.value, change@) == Ok::<Tree, ErrorCode>(e@.value),
            r matches Ok((e, _)) ==> e@.undo.len() == self@.undo.len() && e@.redo.len() == self@.redo.len(),
            r matches Ok((e, Some(res))) ==> {
                &&& exists|down: Seq<Seq<Step>>| rebased_over(self@.undo, e@.undo, self@.value, res.change@, down)
                &&& exists|down: Seq<Seq<Step>>| rebased_over(self@.redo, e@.redo, self@.value, res.change@, down)
            },
    {
        let (kept, after) = normalize(&self.value, change.operations())?;
        let visible = Change::from_vec(kept);
        proof {
            crate::operation_laws::lemma_normalize_run_effect(self@.value, change@);
            crate::operation_laws::law_normalized_keeps_effect(self@.value, change@);
        }
        let mut next = self.copy();
        next.group = None;
        if visible.is_noop() {
            proof {
                assert(apply_steps(self@.value, visible@) == Ok::<Tree, ErrorCode>(self@.value));
            }
            return Ok((next, None));
        }
        let res = commit_change(&self.value, self.version, &visible, Origin::Remote)?;
        let ghost undo0 = next@.undo;
        let ghost redo0 = next@.redo;
        let down_undo = rebase_stack(&mut next.undo, &self.value, &visible)?;
        let down_redo = rebase_stack(&mut next.redo, &self.value, &visible)?;
        next.value = res.after.copy();
        next.version = res.version;
        proof {
            assert(undo0 == self@.undo);
            assert(rebased_over(self@.undo, next@.undo, self@.value, res.change@, change_views(down_undo@)));
            assert(rebased_over(self@.redo, next@.redo, self@.value, res.change@, change_views(down_redo@)));
        }
        Ok((next, Some(res)))
    }

    /// Applies the newest undo unit that changes the content as a new edit,
    /// recording its inverse for redo; units that change nothing are dropped.
    pub fn undo(&self) -> (r: Result<(Editor, Option<EditResult>), CollaError>)
        ensures
            effective_top(self@.undo, self@.value) ==> (r is Ok ==> r->Ok_0.1 is Some && apply_steps(
                self@.value,
                self@.undo.last(),
            ) == Ok::<Tree, ErrorCode>(r->Ok_0.0@.value)),
    {
        self.step(false)
    }

    /// Applies the newest redo unit that changes the content as a new edit,
    /// recording its inverse for undo.
    pub fn redo(&self) -> (r: Result<(Editor, Option<EditResult>), CollaError>)
        ensures
            effective_top(self@.redo, self@.value) ==> (r is Ok ==> r->Ok_0.1 is Some && apply_steps(
                self@.value,
                self@.redo.last(),
            ) == Ok::<Tree, ErrorCode>(r->Ok_0.0@.value)),
    {
        self.step(true)
    }

    fn step(&self, redo: bool) -> (r: Result<(Editor, Option<EditResult>), CollaError>)
        ensures
            !redo && effective_top(self@.undo, self@.value) ==> (r is Ok ==> r->Ok_0.1 is Some && apply_steps(
                self@.value,
                self@.undo.last(),
            ) == Ok::<Tree, ErrorCode>(r->Ok_0.0@.value)),
            redo && effective_top(self@.redo, self@.value) ==> (r is Ok ==> r->Ok_0.1 is Some && apply_steps(
                self@.value,
                self@.redo.last(),
            ) == Ok::<Tree, ErrorCode>(r->Ok_0.0@.value)),
    {
        let mut next = self.copy();
        next.group = None;
        let ghost first = true;
        loop
            invariant
                next@.value == self@.value,
                next@.version == self@.version,
                first ==> (if redo {
                    next@.redo == self@.redo
                } else {
                    next@.undo == self@.undo
                }),
                !first ==> !(if redo {
                    effective_top(self@.redo, self@.value)
                } else {
                    effective_top(self@.undo, self@.value)
                }),
            decreases next.undo.len() + next.redo.len(),
        {
            let popped = if redo {
                next.redo.pop()
            } else {
                next.undo.pop()
            };
            let unit = match popped {
                Some(u) => u,
                None => {
                    return Ok((next, None));
                },
            };
            proof {
                if first {
                    if redo {
                        assert(unit@ == self@.redo.last());
                    } else {
                        assert(unit@ == self@.undo.last());
                    }
                }
            }
            let (kept, _) = normalize(&next.value, unit.operations())?;
            let change = Change::from_vec(kept);
            if change.is_noop() {
                proof {
                    first = false;
                }
                continue;
            }
            proof {
                crate::operation_laws::law_normalized_keeps_effect(self@.value, unit@);
            }
            let res = commit_change(&next.value, next.version, &change, if redo {
                Origin::Redo
            } else {
                Origin::Undo
            })?;
            if redo {
                next.undo.push(res.inverse.copy());
            } else {
                next.redo.push(res.inverse.copy());
            }
            next.value = res.after.copy();
            next.version = res.version;
            return Ok((next, Some(res)));
        }
    }
}

/// Whether some unit changes something.
fn any_effective(s: &Vec<Change>) -> (b: bool)
    ensures
        b == exists|i: int| 0 <= i < change_views(s@).len() && #[trigger] change_views(s@)[i].len() > 0,
{
    let mut i: usize = 0;
    while i < s.len()
        invariant
            0 <= i <= s@.len(),
            forall|j: int| 0 <= j < i ==> s@[j]@.len() == 0,
        decreases s.len() - i,
    {
        if !s[i].is_noop() {
            proof {
                assert(change_views(s@)[i as int].len() > 0);
            }
            return true;
        }
        i += 1;
    }
    proof {
        if exists|j: int| 0 <= j < change_views(s@).len() && #[trigger] change_views(s@)[j].len() > 0 {
            let j = choose|j: int| 0 <= j < change_views(s@).len() && #[trigger] change_views(s@)[j].len() > 0;
            assert(s@[j]@.len() > 0);
        }
    }
    false
}

/// A run that keeps no operation leaves the content as it was.
proof fn lemma_nothing_kept(t: Tree, ops: Seq<Step>)
    requires
        normalize_run(t, ops) is Ok,
        normalize_run(t, ops)->Ok_0.1.len() == 0,
    ensures
        normalize_run(t, ops)->Ok_0.0 == t,
    decreases ops.len(),
{
    if ops.len() > 0 {
        let r = normalize_run(t, ops.drop_last())->Ok_0;
        if r.1.len() == 0 {
            lemma_nothing_kept(t, ops.drop_last());
        }
    }
}

/// Undoing an edit restores the content: where a Change turns valid content
/// `before` into different content, its inverse is an undo unit that changes
/// that content, and applying it gives `before` back.
pub proof fn law_undo_restores(before: Tree, change: Seq<Step>, inverse: Seq<Step>)
    requires
        valid(before),
        invert_spec(before, change) == Ok::<Seq<Step>, ErrorCode>(inverse),
        apply_steps(before, change) is Ok,
        apply_steps(before, change)->Ok_0 != before,
    ensures
        effective_top(seq![inverse], apply_steps(before, change)->Ok_0),
        apply_steps(apply_steps(before, change)->Ok_0, inverse) == Ok::<Tree, ErrorCode>(before),
{
    let after = apply_steps(before, change)->Ok_0;
    crate::operation_laws::law_invert_restores(before, change);
    crate::engine_transform::lemma_normalize_run_err(after, inverse);
    crate::operation_laws::lemma_normalize_run_effect(after, inverse);
    if normalize_run(after, inverse)->Ok_0.1.len() == 0 {
        lemma_nothing_kept(after, inverse);
    }
    assert(seq![inverse].last() == inverse);
}

} // verus!
