//! Content-based transformation of concurrent identity-addressed Changes:
//! both Changes are merged into one result, and each side receives the
//! identity-preserving delta from its own result to the merged one.
use crate::change::{TextChange, TextOp, TieBreak};
use crate::compose::compose_text;
use crate::engine::{algebra_error, structural, Destination, Priority, Segment};
use crate::error::{CollaError, ErrorCode};
use crate::identity::ElementId;
use crate::keys::{compare_keys, KeyOrder};
use crate::operation::{apply_operation, apply_step, apply_steps, canonical_steps, steps_of, Change, Operation, Step};
use crate::operation_compose::{normalize, normalize_run, normalized};
use crate::text_buf::push_char;
use crate::transform::transform_text;
use crate::tree::{body_of, lemma_kids_smaller, same_id, valid, Body, Tree, Value};
use crate::value::{chars_of, Text};
use vstd::prelude::*;

verus! {

/// Whether `list` holds `id`.
fn holds_id(list: &Vec<ElementId>, id: ElementId) -> (r: bool) {
    let mut i: usize = 0;
    while i < list.len()
        decreases list.len() - i,
    {
        if same_id(list[i], id) {
            return true;
        }
        i += 1;
    }
    false
}

/// Adds `id` to `list` unless it is there.
fn add_id(list: &mut Vec<ElementId>, id: ElementId) {
    if !holds_id(list, id) {
        list.push(id);
    }
}

/// Removes `id` from `list`.
fn drop_id(list: &mut Vec<ElementId>, id: ElementId) {
    let mut out: Vec<ElementId> = Vec::new();
    let mut i: usize = 0;
    while i < list.len()
        decreases list.len() - i,
    {
        if !same_id(list[i], id) {
            out.push(list[i]);
        }
        i += 1;
    }
    *list = out;
}

/// Whether two lists share an identity.
fn share_id(a: &Vec<ElementId>, b: &Vec<ElementId>) -> (r: bool) {
    let mut i: usize = 0;
    while i < a.len()
        decreases a.len() - i,
    {
        if holds_id(b, a[i]) {
            return true;
        }
        i += 1;
    }
    false
}

/// Appends the identities of `v` in walk order: the element, then its
/// children's.
fn collect_ids(v: &Value, out: &mut Vec<ElementId>)
    decreases v,
{
    out.push(v.id());
    proof {
        lemma_kids_smaller(*v);
    }
    match v.body() {
        Body::List(vs) => {
            let mut i: usize = 0;
            while i < vs.len()
                invariant
                    body_of(*v) == Body::List(*vs),
                decreases vs.len() - i,
            {
                proof {
                    lemma_kids_smaller(*v);
                    assert(body_of(*v)->List_0@[i as int] == vs@[i as int]);
                    assert(decreases_to!(*v => vs@[i as int]));
                }
                collect_ids(&vs[i], out);
                i += 1;
            }
        },
        Body::KeyMap(es) => {
            let mut i: usize = 0;
            while i < es.len()
                invariant
                    body_of(*v) == Body::KeyMap(*es),
                decreases es.len() - i,
            {
                proof {
                    lemma_kids_smaller(*v);
                    assert(body_of(*v)->KeyMap_0@[i as int] == es@[i as int]);
                    assert(decreases_to!(*v => es@[i as int].1));
                }
                collect_ids(&es[i].1, out);
                i += 1;
            }
        },
        _ => {},
    }
}

/// The identities of `v` in walk order.
fn ids_of(v: &Value) -> (r: Vec<ElementId>) {
    let mut out: Vec<ElementId> = Vec::new();
    collect_ids(v, &mut out);
    out
}

/// The position of `key` among Map entries.
fn key_position(es: &Vec<(String, Value)>, key: &str) -> (r: Option<usize>)
    ensures
        r matches Some(i) ==> i < es@.len(),
{
    let mut i: usize = 0;
    while i < es.len()
        decreases es.len() - i,
    {
        if compare_keys(es[i].0.as_str(), key) == KeyOrder::Equal {
            return Some(i);
        }
        i += 1;
    }
    None
}

/// Puts `value` under `key` in entries kept in key order.
fn put_sorted(es: &mut Vec<(String, Value)>, key: String, value: Value) {
    let mut i: usize = 0;
    while i < es.len()
        invariant
            i <= es@.len(),
        decreases es.len() - i,
    {
        match compare_keys(es[i].0.as_str(), key.as_str()) {
            KeyOrder::Less => {
                i += 1;
            },
            KeyOrder::Equal => {
                es.set(i, (key, value));
                return;
            },
            KeyOrder::Greater => {
                break;
            },
        }
    }
    es.insert(i, (key, value));
}

/// The intents of one Change: the last index at which each element moves,
/// the elements it assigns, its composed Text edit of each element, and its
/// summed additions to each element.
struct Intents {
    moved: Vec<(ElementId, usize)>,
    set: Vec<ElementId>,
    text: Vec<(ElementId, TextChange)>,
    added: Vec<(ElementId, i128)>,
}

/// The empty Text change.
fn empty_text() -> (c: TextChange) {
    let ops: Vec<TextOp> = Vec::new();
    proof {
        assert(ops.deep_view() =~= Seq::<crate::model::OpView>::empty());
    }
    TextChange::from_canonical(ops)
}

impl Intents {
    fn moved_index(&self, id: ElementId) -> (r: Option<usize>) {
        let mut i: usize = 0;
        while i < self.moved.len()
            decreases self.moved.len() - i,
        {
            if same_id(self.moved[i].0, id) {
                return Some(self.moved[i].1);
            }
            i += 1;
        }
        None
    }

    fn text_position(&self, id: ElementId) -> (r: Option<usize>)
        ensures
            r matches Some(i) ==> i < self.text@.len(),
    {
        let mut i: usize = 0;
        while i < self.text.len()
            decreases self.text.len() - i,
        {
            if same_id(self.text[i].0, id) {
                return Some(i);
            }
            i += 1;
        }
        None
    }

    fn added_position(&self, id: ElementId) -> (r: Option<usize>)
        ensures
            r matches Some(i) ==> i < self.added@.len(),
    {
        let mut i: usize = 0;
        while i < self.added.len()
            decreases self.added.len() - i,
        {
            if same_id(self.added[i].0, id) {
                return Some(i);
            }
            i += 1;
        }
        None
    }

    /// The composed Text edit of `id`, or the empty one.
    fn text_of(&self, id: ElementId) -> (c: TextChange) {
        match self.text_position(id) {
            Some(i) => self.text[i].1.clone(),
            None => empty_text(),
        }
    }

    fn moves(&self, id: ElementId) -> (b: bool)
        ensures
            b == moves_id(self.moved@, id@),
    {
        let mut i: usize = 0;
        while i < self.moved.len()
            invariant
                i <= self.moved@.len(),
                forall|j: int| 0 <= j < i ==> self.moved@[j].0@ != id@,
            decreases self.moved.len() - i,
        {
            if same_id(self.moved[i].0, id) {
                return true;
            }
            i += 1;
        }
        false
    }

    fn sets(&self, id: ElementId) -> (b: bool) {
        holds_id(&self.set, id)
    }
}

/// The intents of `change`.
fn intents(change: &Change) -> (r: Result<Intents, CollaError>) {
    let ops = change.operations();
    let mut result = Intents { moved: Vec::new(), set: Vec::new(), text: Vec::new(), added: Vec::new() };
    let mut index: usize = 0;
    while index < ops.len()
        decreases ops.len() - index,
    {
        match &ops[index] {
            Operation::Move { target, .. } => {
                let mut i: usize = 0;
                let mut found = false;
                while i < result.moved.len()
                    decreases result.moved.len() - i,
                {
                    if same_id(result.moved[i].0, *target) {
                        result.moved.set(i, (*target, index));
                        found = true;
                    }
                    i += 1;
                }
                if !found {
                    result.moved.push((*target, index));
                }
            },
            Operation::Assign { target, .. } => {
                add_id(&mut result.set, *target);
                if let Some(i) = result.text_position(*target) {
                    result.text.remove(i);
                }
                if let Some(i) = result.added_position(*target) {
                    result.added.remove(i);
                }
            },
            Operation::Text { target, change } => {
                let previous = result.text_of(*target);
                let composed = match compose_text(&previous, change) {
                    Ok(c) => c,
                    Err(_) => {
                        return Err(algebra_error("text changes do not compose"));
                    },
                };
                match result.text_position(*target) {
                    Some(i) => {
                        result.text.set(i, (*target, composed));
                    },
                    None => {
                        result.text.push((*target, composed));
                    },
                }
            },
            Operation::Add { target, delta } => {
                match result.added_position(*target) {
                    Some(i) => {
                        let sum = result.added[i].1.checked_add(*delta as i128);
                        match sum {
                            Some(s) => {
                                result.added.set(i, (*target, s));
                            },
                            None => {
                                return Err(
                                    CollaError::new(ErrorCode::IntegerOverflow, "additions overflow"),
                                );
                            },
                        }
                    },
                    None => {
                        result.added.push((*target, *delta as i128));
                    },
                }
            },
            _ => {},
        }
        index += 1;
    }
    Ok(result)
}

/// Deletes the elements of `ids` that are still present.
fn remove_present(value: Value, ids: &Vec<ElementId>) -> (r: Result<Value, CollaError>) {
    let mut value = value;
    let mut i: usize = 0;
    while i < ids.len()
        decreases ids.len() - i,
    {
        if value.find(ids[i]).is_some() {
            value = apply_operation(&value, &Operation::Delete { target: ids[i] })?;
        }
        i += 1;
    }
    Ok(value)
}

/// The replacement content of an assignment, keeping the children that
/// arrived concurrently in the assigned container.
fn preserve_incoming(current: &Value, replacement: &Value) -> (r: Result<Value, CollaError>) {
    let body = match (current.body(), replacement.body()) {
        (Body::KeyMap(incoming), Body::KeyMap(new)) => {
            let mut map: Vec<(String, Value)> = Vec::new();
            let mut i: usize = 0;
            while i < incoming.len()
                decreases incoming.len() - i,
            {
                map.push((incoming[i].0.clone(), incoming[i].1.copy()));
                i += 1;
            }
            let mut j: usize = 0;
            while j < new.len()
                decreases new.len() - j,
            {
                match key_position(&map, new[j].0.as_str()) {
                    Some(k) => {
                        if !same_id(map[k].1.id(), new[j].1.id()) {
                            return Err(structural("Set and incoming element compete for a Map key"));
                        }
                    },
                    None => {},
                }
                put_sorted(&mut map, new[j].0.clone(), new[j].1.copy());
                j += 1;
            }
            Body::KeyMap(map)
        },
        (Body::List(incoming), Body::List(new)) => {
            let mut new_ids: Vec<ElementId> = Vec::new();
            let mut j: usize = 0;
            while j < new.len()
                decreases new.len() - j,
            {
                new_ids.push(new[j].id());
                j += 1;
            }
            let mut list: Vec<Value> = Vec::new();
            let mut i: usize = 0;
            while i < incoming.len()
                decreases incoming.len() - i,
            {
                if !holds_id(&new_ids, incoming[i].id()) {
                    list.push(incoming[i].copy());
                }
                i += 1;
            }
            let mut k: usize = 0;
            while k < new.len()
                decreases new.len() - k,
            {
                list.push(new[k].copy());
                k += 1;
            }
            Body::List(list)
        },
        (Body::KeyMap(incoming), _) => {
            if incoming.len() > 0 {
                return Err(structural("Set would remove a concurrently incoming element"));
            }
            return Ok(replacement.copy());
        },
        (Body::List(incoming), _) => {
            if incoming.len() > 0 {
                return Err(structural("Set would remove a concurrently incoming element"));
            }
            return Ok(replacement.copy());
        },
        _ => {
            return Ok(replacement.copy());
        },
    };
    Value::with_id(replacement.id(), body)
}

/// `id` is one of the elements that `moved` records as moved.
pub open spec fn moves_id(moved: Seq<(ElementId, usize)>, id: (Seq<u8>, u64)) -> bool {
    exists|j: int| 0 <= j < moved.len() && #[trigger] moved[j].0@ == id
}

/// `id` occurs in `ids`.
pub open spec fn occurs(ids: Seq<ElementId>, id: (Seq<u8>, u64)) -> bool {
    exists|m: int| 0 <= m < ids.len() && #[trigger] ids[m]@ == id
}

/// The element that followed a gap in the base no longer anchors it: it is
/// moved by the other side, or gone.
pub open spec fn no_anchor(moved: Seq<(ElementId, usize)>, current: Seq<ElementId>, id: (Seq<u8>, u64)) -> bool {
    moves_id(moved, id) || !occurs(current, id)
}

/// The position in `current` of the gap that sat before position `index` of
/// `original`: just before the first element from `index` on that still
/// anchors it, or at the end where none does.
fn gap_position(
    original: &Vec<ElementId>,
    current: &Vec<ElementId>,
    index: &usize,
    source: Option<ElementId>,
    high: &Intents,
) -> (position: usize)
    ensures
        position <= current@.len(),
        position == current@.len() ==> forall|k: int|
            *index <= k < original@.len() ==> no_anchor(high.moved@, current@, #[trigger] original@[k]@),
        position < current@.len() ==> exists|k: int|
            #![trigger original@[k]]
            *index <= k < original@.len() && !moves_id(high.moved@, original@[k]@) && current@[position as int]@
                == original@[k]@ && (forall|m: int| 0 <= m < position ==> current@[m]@ != original@[k]@) && (
            forall|k2: int| *index <= k2 < k ==> no_anchor(high.moved@, current@, #[trigger] original@[k2]@)),
{
    let mut position = current.len();
    let mut k: usize = *index;
    while k < original.len()
        invariant_except_break
            position == current@.len(),
        invariant
            *index <= k,
            forall|k2: int| *index <= k2 < k ==> no_anchor(high.moved@, current@, #[trigger] original@[k2]@),
        ensures
            position == current@.len() ==> forall|k2: int|
                *index <= k2 < original@.len() ==> no_anchor(high.moved@, current@, #[trigger] original@[k2]@),
            position < current@.len() ==> {
                &&& k < original@.len()
                &&& *index <= k
                &&& !moves_id(high.moved@, original@[k as int]@)
                &&& current@[position as int]@ == original@[k as int]@
                &&& forall|m: int| 0 <= m < position ==> current@[m]@ != original@[k as int]@
            },
            position <= current@.len(),
        decreases original.len() - k,
    {
        let anchor = original[k];
        if !high.moves(anchor) {
            let mut m: usize = 0;
            let mut found: Option<usize> = None;
            while m < current.len()
                invariant_except_break
                    found is None,
                invariant
                    m <= current@.len(),
                    forall|m2: int| 0 <= m2 < m ==> current@[m2]@ != anchor@,
                ensures
                    found matches Some(f) ==> f < current@.len() && current@[f as int]@ == anchor@
                        && forall|m2: int| 0 <= m2 < f ==> current@[m2]@ != anchor@,
                    found is None ==> forall|m2: int| 0 <= m2 < current@.len() ==> current@[m2]@ != anchor@,
                decreases current.len() - m,
            {
                if same_id(current[m], anchor) {
                    found = Some(m);
                    break;
                }
                m += 1;
            }
            if let Some(f) = found {
                position = f;
                break;
            }
            proof {
                if occurs(current@, anchor@) {
                    let m2 = choose|m2: int| 0 <= m2 < current@.len() && #[trigger] current@[m2]@ == anchor@;
                }
            }
        }
        k += 1;
    }
    proof {
        if position < current@.len() {
            assert(original@[k as int] == original@[k as int]);
        }
    }
    position
}

/// Rewrites a destination recorded against `before` for the content
/// `after`: a Map key stays, a List position keeps the surviving right
/// neighbour of its gap, skipping `source` and elements that `high` moves.
fn rebase_destination(
    before: &Value,
    after: &Value,
    destination: &Destination,
    source: Option<ElementId>,
    high: &Intents,
) -> (r: Result<Destination, CollaError>) {
    let parent = match after.find(destination.parent) {
        Some(p) => p,
        None => {
            return Err(structural("move or insertion destination parent no longer exists"));
        },
    };
    let slot = match (&destination.slot, parent.body()) {
        (Segment::Key(key), Body::KeyMap(_)) => Segment::Key(key.clone()),
        (Segment::Index(index), Body::List(current_all)) => {
            let original_value = before.get(destination.parent)?;
            let original_all = match original_value.body() {
                Body::List(l) => l,
                _ => {
                    return Err(structural("destination parent kind changed"));
                },
            };
            let mut original: Vec<ElementId> = Vec::new();
            let mut i: usize = 0;
            while i < original_all.len()
                decreases original_all.len() - i,
            {
                let id = original_all[i].id();
                let skip = match source {
                    Some(s) => same_id(s, id),
                    None => false,
                };
                if !skip {
                    original.push(id);
                }
                i += 1;
            }
            let mut current: Vec<ElementId> = Vec::new();
            let mut j: usize = 0;
            while j < current_all.len()
                decreases current_all.len() - j,
            {
                let id = current_all[j].id();
                let skip = match source {
                    Some(s) => same_id(s, id),
                    None => false,
                };
                if !skip {
                    current.push(id);
                }
                j += 1;
            }
            Segment::Index(gap_position(&original, &current, index, source, high))
        },
        _ => {
            return Err(structural("destination parent kind changed"));
        },
    };
    Ok(Destination { parent: destination.parent, slot })
}

/// Refuses a Move whose destination parent the other side deleted or turned
/// into another kind of content.
fn check_move_destinations(base: &Value, own: &Change, own_value: &Value, other: &Value) -> (r: Result<
    (),
    CollaError,
>) {
    let intents = intents(own)?;
    let mut i: usize = 0;
    while i < intents.moved.len()
        decreases intents.moved.len() - i,
    {
        let source = intents.moved[i].0;
        let skip = own_value.find(source).is_none() || (base.find(source).is_some() && other.find(
            source,
        ).is_none());
        if !skip {
            let destination = own_value.destination_of(source)?;
            if base.find(destination.parent).is_some() {
                let parent = match other.find(destination.parent) {
                    Some(p) => p,
                    None => {
                        return Err(structural("move destination parent was deleted"));
                    },
                };
                let fits = match (parent.body(), &destination.slot) {
                    (Body::KeyMap(_), Segment::Key(_)) => true,
                    (Body::List(_), Segment::Index(_)) => true,
                    _ => false,
                };
                if !fits {
                    return Err(structural("move destination parent changed kind"));
                }
            }
        }
        i += 1;
    }
    Ok(())
}

/// The identities that an edit of `target` by `low` removes: the element's
/// subtree before the edit, and the descendants it had in `base` that are
/// gone from `low`'s result.
fn removed_ids(base: &Value, low_before: &Value, low_value: &Value, target: ElementId) -> (r: Result<
    Vec<ElementId>,
    CollaError,
>) {
    let node = low_before.get(target)?;
    let mut removed = ids_of(&node);
    if let Some(original) = base.find(target) {
        let all = ids_of(original);
        let mut i: usize = 0;
        while i < all.len()
            decreases all.len() - i,
        {
            if low_value.find(all[i]).is_none() {
                add_id(&mut removed, all[i]);
            }
            i += 1;
        }
    }
    Ok(removed)
}

/// The content that results from `low` applied after `high`, which has
/// precedence: `high`'s result with `low`'s structural operations replayed
/// on it where they still apply, and `low`'s content edits carried over.
fn merge(base: &Value, high: &Change, high_value: &Value, low: &Change, low_value: &Value) -> (r:
    Result<Value, CollaError>) {
    let hi = intents(high)?;
    let lo = intents(low)?;
    let mut merged = high_value.copy();
    let mut low_before = base.copy();
    let ops = low.operations();
    let mut index: usize = 0;
    while index < ops.len()
        decreases ops.len() - index,
    {
        let operation = &ops[index];
        match operation {
            Operation::Insert { destination, value } => {
                if merged.find(destination.parent).is_some() {
                    let destination = rebase_destination(&low_before, &merged, destination, None, &hi)?;
                    merged = apply_operation(
                        &merged,
                        &Operation::Insert { destination, value: value.copy() },
                    )?;
                }
            },
            Operation::Delete { target } => {
                let removed = removed_ids(base, &low_before, low_value, *target)?;
                merged = remove_present(merged, &removed)?;
            },
            Operation::Assign { target, value } => {
                if merged.find(*target).is_some() && !hi.sets(*target) {
                    let mut removed = removed_ids(base, &low_before, low_value, *target)?;
                    drop_id(&mut removed, *target);
                    let kept = ids_of(value);
                    let mut k: usize = 0;
                    while k < kept.len()
                        decreases kept.len() - k,
                    {
                        drop_id(&mut removed, kept[k]);
                        k += 1;
                    }
                    merged = remove_present(merged, &removed)?;
                    let current = merged.get(*target)?;
                    let replacement = preserve_incoming(&current, value)?;
                    merged = apply_operation(
                        &merged,
                        &Operation::Assign { target: *target, value: replacement },
                    )?;
                }
            },
            Operation::Move { target, destination } => {
                let later = match lo.moved_index(*target) {
                    Some(last) => last > index,
                    None => false,
                };
                let parent_gone = merged.find(destination.parent).is_none();
                let into_itself = match merged.find(*target) {
                    Some(source) => source.find(destination.parent).is_some(),
                    None => false,
                };
                if !hi.moves(*target) && merged.find(*target).is_some() && !(low_value.find(
                    *target,
                ).is_none() && parent_gone) && !(later && (parent_gone || into_itself)) {
                    let destination = rebase_destination(
                        &low_before,
                        &merged,
                        destination,
                        Some(*target),
                        &hi,
                    )?;
                    merged = apply_operation(
                        &merged,
                        &Operation::Move { target: *target, destination },
                    )?;
                }
            },
            _ => {},
        }
        low_before = apply_operation(&low_before, operation)?;
        index += 1;
    }
    let mut ids: Vec<ElementId> = Vec::new();
    let mut i: usize = 0;
    while i < lo.text.len()
        decreases lo.text.len() - i,
    {
        add_id(&mut ids, lo.text[i].0);
        i += 1;
    }
    let mut i: usize = 0;
    while i < lo.added.len()
        decreases lo.added.len() - i,
    {
        add_id(&mut ids, lo.added[i].0);
        i += 1;
    }
    let mut i: usize = 0;
    while i < lo.set.len()
        decreases lo.set.len() - i,
    {
        add_id(&mut ids, lo.set[i]);
        i += 1;
    }
    let mut n: usize = 0;
    while n < ids.len()
        decreases ids.len() - n,
    {
        let id = ids[n];
        n += 1;
        let current = match merged.find(id) {
            Some(c) => c.copy(),
            None => {
                continue;
            },
        };
        let low_node = match low_value.find(id) {
            Some(l) => l,
            None => {
                continue;
            },
        };
        if hi.sets(id) {
            continue;
        }
        if lo.sets(id) || base.find(id).is_none() {
            let container = match low_node.body() {
                Body::List(_) => true,
                Body::KeyMap(_) => true,
                _ => false,
            };
            if !container {
                merged = merged.replace_at(id, low_node.copy())?;
            }
            continue;
        }
        if let Some(t) = lo.text_position(id) {
            let text = match current.body() {
                Body::Text(s) => Text::new(s.as_str()),
                _ => {
                    continue;
                },
            };
            let high_text = hi.text_of(id);
            let low_after_high = match transform_text(&high_text, &lo.text[t].1, TieBreak::LeftFirst) {
                Ok((_, y)) => y,
                Err(_) => {
                    return Err(algebra_error("text changes do not transform"));
                },
            };
            let result = match crate::apply::apply_text(&text, &low_after_high) {
                Ok(r) => r,
                Err(e) => {
                    return Err(CollaError::new(e.code(), "text change does not apply"));
                },
            };
            merged = merged.replace_at(id, Value::trusted(id, Body::Text(result.as_str().to_owned())))?;
        } else if let Some(a) = lo.added_position(id) {
            let number = match current.body() {
                Body::Int(x) => *x,
                _ => {
                    continue;
                },
            };
            let delta = lo.added[a].1;
            let total = (number as i128).checked_add(delta);
            let fits = match total {
                Some(v) => i64::MIN as i128 <= v && v <= i64::MAX as i128,
                None => false,
            };
            if !fits {
                return Err(CollaError::new(ErrorCode::IntegerOverflow, "concurrent additions overflow"));
            }
            let value = total.unwrap() as i64;
            merged = merged.replace_at(id, Value::trusted(id, Body::Int(value)))?;
        }
    }
    merged.validate()?;
    Ok(merged)
}

/// The Text edits of each side transformed against each other, for the
/// elements of `base` that neither side assigns.
fn transformed_leaves(base: &Value, left: &Change, right: &Change, priority: Priority) -> (r: Result<
    (Vec<(ElementId, Operation)>, Vec<(ElementId, Operation)>),
    CollaError,
>) {
    let l = intents(left)?;
    let r = intents(right)?;
    let mut ids: Vec<ElementId> = Vec::new();
    let mut i: usize = 0;
    while i < l.text.len()
        decreases l.text.len() - i,
    {
        add_id(&mut ids, l.text[i].0);
        i += 1;
    }
    let mut i: usize = 0;
    while i < r.text.len()
        decreases r.text.len() - i,
    {
        add_id(&mut ids, r.text[i].0);
        i += 1;
    }
    let tie = match priority {
        Priority::Left => TieBreak::LeftFirst,
        Priority::Right => TieBreak::RightFirst,
    };
    let mut left_out: Vec<(ElementId, Operation)> = Vec::new();
    let mut right_out: Vec<(ElementId, Operation)> = Vec::new();
    let mut n: usize = 0;
    while n < ids.len()
        decreases ids.len() - n,
    {
        let id = ids[n];
        n += 1;
        if base.find(id).is_none() || l.sets(id) || r.sets(id) {
            continue;
        }
        let lt = l.text_of(id);
        let rt = r.text_of(id);
        let (x, y) = match transform_text(&lt, &rt, tie) {
            Ok(p) => p,
            Err(_) => {
                return Err(algebra_error("text changes do not transform"));
            },
        };
        if l.text_position(id).is_some() {
            left_out.push((id, Operation::Text { target: id, change: x }));
        }
        if r.text_position(id).is_some() {
            right_out.push((id, Operation::Text { target: id, change: y }));
        }
    }
    Ok((left_out, right_out))
}

/// The key under which a displaced Map entry is parked.
fn park_key(n: usize) -> (k: String) {
    let mut key = String::new();
    push_char(&mut key, '\u{0}');
    push_char(&mut key, 'c');
    push_char(&mut key, 'o');
    push_char(&mut key, 'l');
    push_char(&mut key, 'l');
    push_char(&mut key, 'a');
    push_char(&mut key, ':');
    let mut digits: Vec<char> = Vec::new();
    let mut m: usize = n;
    loop
        decreases m,
    {
        let d = m % 10;
        let c = if d == 0 {
            '0'
        } else if d == 1 {
            '1'
        } else if d == 2 {
            '2'
        } else if d == 3 {
            '3'
        } else if d == 4 {
            '4'
        } else if d == 5 {
            '5'
        } else if d == 6 {
            '6'
        } else if d == 7 {
            '7'
        } else if d == 8 {
            '8'
        } else {
            '9'
        };
        digits.push(c);
        m = m / 10;
        if m == 0 {
            break;
        }
    }
    let mut i: usize = digits.len();
    while i > 0
        invariant
            i <= digits@.len(),
        decreases i,
    {
        i -= 1;
        push_char(&mut key, digits[i]);
    }
    key
}

/// A scalar body copied, or an empty container of the same kind.
fn hollow(b: &Body) -> (r: Body) {
    match b {
        Body::Null => Body::Null,
        Body::Bool(x) => Body::Bool(*x),
        Body::Int(x) => Body::Int(*x),
        Body::Float(x) => Body::Float(*x),
        Body::String(x) => Body::String(x.clone()),
        Body::Text(x) => Body::Text(x.clone()),
        Body::Ref(x) => Body::Ref(*x),
        Body::List(_) => Body::List(Vec::new()),
        Body::KeyMap(_) => Body::KeyMap(Vec::new()),
    }
}

/// Whether two strings are equal.
fn same_text(a: &String, b: &String) -> (r: bool) {
    compare_keys(a.as_str(), b.as_str()) == KeyOrder::Equal
}

/// The operations of an identity-preserving delta, built against the
/// content they reach.
struct Delta {
    value: Value,
    operations: Vec<Operation>,
    leaves: Vec<(ElementId, Operation)>,
    movable: Vec<ElementId>,
    start: Ghost<Tree>,
}

impl Delta {
    /// The operations, applied to the start, reach the current content.
    spec fn reaches(&self) -> bool {
        apply_steps(self.start@, steps_of(self.operations@)) == Ok::<Tree, ErrorCode>(self.value@)
    }

    /// Applies `op`, keeping it where it changes the content.
    fn push(&mut self, op: Operation) -> (r: Result<(), CollaError>)
        requires
            old(self).reaches(),
        ensures
            final(self).reaches(),
            final(self).start == old(self).start,
    {
        let next = apply_operation(&self.value, &op)?;
        if !next.same_value(&self.value) {
            let ghost o = steps_of(self.operations@);
            let ghost step = op@;
            self.operations.push(op);
            proof {
                assert(steps_of(self.operations@) =~= o.push(step));
                assert(o.push(step).drop_last() =~= o);
            }
        }
        self.value = next;
        Ok(())
    }

    /// Deletes the elements of `value` whose subtree holds nothing wanted.
    fn prune(&mut self, value: &Value, wanted: &Vec<ElementId>) -> (r: Result<(), CollaError>)
        requires
            old(self).reaches(),
        ensures
            final(self).reaches(),
            final(self).start == old(self).start,
        decreases value,
    {
        let vids = ids_of(value);
        if !holds_id(wanted, value.id()) && !share_id(&vids, wanted) {
            return self.push(Operation::Delete { target: value.id() });
        }
        proof {
            lemma_kids_smaller(*value);
        }
        match value.body() {
            Body::KeyMap(es) => {
                let mut i: usize = 0;
                while i < es.len()
                    invariant
                        self.reaches(),
                        self.start == old(self).start,
                        body_of(*value) == Body::KeyMap(*es),
                    decreases es.len() - i,
                {
                    proof {
                        lemma_kids_smaller(*value);
                        assert(body_of(*value)->KeyMap_0@[i as int] == es@[i as int]);
                    }
                    self.prune(&es[i].1, wanted)?;
                    i += 1;
                }
            },
            Body::List(vs) => {
                let mut i: usize = 0;
                while i < vs.len()
                    invariant
                        self.reaches(),
                        self.start == old(self).start,
                        body_of(*value) == Body::List(*vs),
                    decreases vs.len() - i,
                {
                    proof {
                        lemma_kids_smaller(*value);
                        assert(body_of(*value)->List_0@[i as int] == vs@[i as int]);
                    }
                    self.prune(&vs[i], wanted)?;
                    i += 1;
                }
            },
            _ => {},
        }
        Ok(())
    }

    /// Moves `id` out of the way to a free slot of the root.
    fn park(&mut self, id: ElementId) -> (r: Result<(), CollaError>)
        requires
            old(self).reaches(),
        ensures
            final(self).reaches(),
            final(self).start == old(self).start,
    {
        let root = self.value.id();
        let slot = match self.value.body() {
            Body::KeyMap(map) => {
                let mut n: usize = 0;
                let mut found: Option<String> = None;
                while n <= map.len()
                    decreases map.len() + 1 - n,
                {
                    let key = park_key(n);
                    if key_position(map, key.as_str()).is_none() {
                        found = Some(key);
                        break;
                    }
                    if n == usize::MAX {
                        break;
                    }
                    n += 1;
                }
                match found {
                    Some(k) => Segment::Key(k),
                    None => {
                        return Err(structural("no free key to park an element under"));
                    },
                }
            },
            Body::List(list) => {
                let d = self.value.destination_of(id)?;
                let len = list.len();
                if same_id(d.parent, root) && len > 0 {
                    Segment::Index(len - 1)
                } else {
                    Segment::Index(len)
                }
            },
            _ => {
                return Err(structural("cannot park an element under a scalar root"));
            },
        };
        self.push(Operation::Move { target: id, destination: Destination { parent: root, slot } })
    }

    /// Puts `desired` at `destination`, by a Move where it exists and by an
    /// Insert of its hollow form where it does not, then aligns its content.
    fn place(&mut self, desired: &Value, destination: Destination) -> (r: Result<(), CollaError>)
        requires
            old(self).reaches(),
        ensures
            final(self).reaches(),
            final(self).start == old(self).start,
        decreases desired, 1nat,
    {
        if let Segment::Key(key) = &destination.slot {
            let parent = self.value.get(destination.parent)?;
            if let Body::KeyMap(map) = parent.body() {
                if let Some(k) = key_position(map, key.as_str()) {
                    let occupied = map[k].1.id();
                    if !same_id(occupied, desired.id()) {
                        self.park(occupied)?;
                    }
                }
            }
        }
        if self.value.find(desired.id()).is_some() {
            let current = self.value.destination_of(desired.id())?;
            if !(same_id(current.parent, destination.parent) && crate::operation::same_segment(
                &current.slot,
                &destination.slot,
            )) {
                self.push(Operation::Move { target: desired.id(), destination })?;
            }
        } else {
            let body = hollow(desired.body());
            self.push(
                Operation::Insert { destination, value: Value::trusted(desired.id(), body) },
            )?;
        }
        self.align(desired)
    }

    /// Brings the element `desired.id()` to the content of `desired`.
    fn align(&mut self, desired: &Value) -> (r: Result<(), CollaError>)
        requires
            old(self).reaches(),
        ensures
            final(self).reaches(),
            final(self).start == old(self).start,
        decreases desired, 0nat,
    {
        let id = desired.id();
        let current = self.value.get(id)?;
        if !current.same_value(desired) {
            let mut p: usize = 0;
            let mut at: Option<usize> = None;
            while p < self.leaves.len()
                decreases self.leaves.len() - p,
            {
                if same_id(self.leaves[p].0, id) {
                    at = Some(p);
                    break;
                }
                p += 1;
            }
            if let Some(p) = at {
              if p < self.leaves.len() {
                let (_, op) = self.leaves.remove(p);
                if let Ok(after) = apply_operation(&self.value, &op) {
                    let hit = match after.find(id) {
                        Some(n) => n.same_value(desired),
                        None => false,
                    };
                    if hit {
                        return self.push(op);
                    }
                }
              }
            }
        }
        proof {
            lemma_kids_smaller(*desired);
        }
        match (current.body(), desired.body()) {
            (Body::KeyMap(_), Body::KeyMap(map)) => {
                let mut i: usize = 0;
                while i < map.len()
                    invariant
                        self.reaches(),
                        self.start == old(self).start,
                        body_of(*desired) == Body::KeyMap(*map),
                        id@ == desired@.id,
                    decreases map.len() - i,
                {
                    proof {
                        lemma_kids_smaller(*desired);
                        assert(body_of(*desired)->KeyMap_0@[i as int] == map@[i as int]);
                    }
                    self.place(
                        &map[i].1,
                        Destination { parent: id, slot: Segment::Key(map[i].0.clone()) },
                    )?;
                    i += 1;
                }
            },
            (Body::List(_), Body::List(list)) => {
                let mut index: usize = 0;
                while index < list.len()
                    invariant
                        self.reaches(),
                        self.start == old(self).start,
                        body_of(*desired) == Body::List(*list),
                    decreases list.len() - index,
                {
                    proof {
                        lemma_kids_smaller(*desired);
                        assert(body_of(*desired)->List_0@[index as int] == list@[index as int]);
                    }
                    let child = &list[index];
                    let in_place = !holds_id(&self.movable, child.id()) && match self.value.destination_of(
                        child.id(),
                    ) {
                        Ok(d) => same_id(d.parent, id),
                        Err(_) => false,
                    };
                    if in_place {
                        self.align(child)?;
                    } else {
                        let parent = self.value.get(id)?;
                        let mut current_ids: Vec<ElementId> = Vec::new();
                        match parent.body() {
                            Body::List(l) => {
                                let mut j: usize = 0;
                                while j < l.len()
                                    decreases l.len() - j,
                                {
                                    if !same_id(l[j].id(), child.id()) {
                                        current_ids.push(l[j].id());
                                    }
                                    j += 1;
                                }
                            },
                            _ => {
                                return Err(structural("aligned List changed kind"));
                            },
                        }
                        let mut position = current_ids.len();
                        let mut j: usize = index + 1;
                        while j < list.len()
                            decreases list.len() - j,
                        {
                            let anchor = list[j].id();
                            if !holds_id(&self.movable, anchor) {
                                let mut m: usize = 0;
                                let mut found: Option<usize> = None;
                                while m < current_ids.len()
                                    decreases current_ids.len() - m,
                                {
                                    if same_id(current_ids[m], anchor) {
                                        found = Some(m);
                                        break;
                                    }
                                    m += 1;
                                }
                                if let Some(f) = found {
                                    position = f;
                                    break;
                                }
                            }
                            j += 1;
                        }
                        self.place(child, Destination { parent: id, slot: Segment::Index(position) })?;
                    }
                    index += 1;
                }
            },
            (Body::Text(a), Body::Text(b)) => {
                if !same_text(a, b) {
                    let x = chars_of(a.as_str());
                    let y = chars_of(b.as_str());
                    let mut prefix: usize = 0;
                    while prefix < x.len() && prefix < y.len() && x[prefix] == y[prefix]
                        invariant
                            prefix <= x@.len(),
                            prefix <= y@.len(),
                        decreases x.len() - prefix,
                    {
                        prefix += 1;
                    }
                    let mut suffix: usize = 0;
                    while suffix < x.len() - prefix && suffix < y.len() - prefix && x[x.len() - 1
                        - suffix] == y[y.len() - 1 - suffix]
                        invariant
                            prefix <= x@.len(),
                            prefix <= y@.len(),
                            suffix <= x@.len() - prefix,
                            suffix <= y@.len() - prefix,
                        decreases x.len() - suffix,
                    {
                        suffix += 1;
                    }
                    let mut inserted = String::new();
                    let mut k: usize = prefix;
                    let stop: usize = y.len() - suffix;
                    while k < stop
                        invariant
                            stop <= y@.len(),
                        decreases stop - k,
                    {
                        push_char(&mut inserted, y[k]);
                        k += 1;
                    }
                    let removed: usize = x.len() - prefix - suffix;
                    let mut ops: Vec<TextOp> = Vec::new();
                    ops.push(TextOp::Retain(prefix));
                    ops.push(TextOp::Delete(removed));
                    ops.push(TextOp::Insert(inserted));
                    let change = match TextChange::from_ops(ops) {
                        Ok(c) => c,
                        Err(e) => {
                            return Err(CollaError::new(e.code(), "text change does not fit"));
                        },
                    };
                    self.push(Operation::Text { target: id, change })?;
                } else if !current.same_value(desired) {
                    self.push(Operation::Assign { target: id, value: desired.copy() })?;
                }
            },
            (Body::Int(a), Body::Int(b)) => {
                if *a != *b {
                    let mut delta: i128 = (*b as i128) - (*a as i128);
                    while delta != 0
                        invariant
                            self.reaches(),
                            self.start == old(self).start,
                            -0x1_0000_0000_0000_0000i128 <= delta <= 0x1_0000_0000_0000_0000i128,
                        decreases (if delta >= 0 { delta as int } else { 0 - delta as int }),
                    {
                        let step: i64 = if delta > i64::MAX as i128 {
                            i64::MAX
                        } else if delta < i64::MIN as i128 {
                            i64::MIN
                        } else {
                            delta as i64
                        };
                        self.push(Operation::Add { target: id, delta: step })?;
                        delta = delta - step as i128;
                    }
                } else if !current.same_value(desired) {
                    self.push(Operation::Assign { target: id, value: desired.copy() })?;
                }
            },
            _ => {
                if !current.same_value(desired) {
                    self.push(Operation::Assign { target: id, value: desired.copy() })?;
                }
            },
        }
        Ok(())
    }

    /// Deletes the children that `desired` does not have.
    fn clean(&mut self, desired: &Value) -> (r: Result<(), CollaError>)
        requires
            old(self).reaches(),
        ensures
            final(self).reaches(),
            final(self).start == old(self).start,
        decreases desired,
    {
        let current = self.value.get(desired.id())?;
        proof {
            lemma_kids_smaller(*desired);
        }
        match (current.body(), desired.body()) {
            (Body::KeyMap(map), Body::KeyMap(wanted)) => {
                let mut i: usize = 0;
                while i < map.len()
                    invariant
                        self.reaches(),
                        self.start == old(self).start,
                    decreases map.len() - i,
                {
                    if key_position(wanted, map[i].0.as_str()).is_none() {
                        self.push(Operation::Delete { target: map[i].1.id() })?;
                    }
                    i += 1;
                }
                let mut j: usize = 0;
                while j < wanted.len()
                    invariant
                        self.reaches(),
                        self.start == old(self).start,
                        body_of(*desired) == Body::KeyMap(*wanted),
                    decreases wanted.len() - j,
                {
                    proof {
                        lemma_kids_smaller(*desired);
                        assert(body_of(*desired)->KeyMap_0@[j as int] == wanted@[j as int]);
                    }
                    self.clean(&wanted[j].1)?;
                    j += 1;
                }
            },
            (Body::List(list), Body::List(wanted)) => {
                let mut i: usize = wanted.len();
                while i < list.len()
                    invariant
                        self.reaches(),
                        self.start == old(self).start,
                    decreases list.len() - i,
                {
                    self.push(Operation::Delete { target: list[i].id() })?;
                    i += 1;
                }
                let mut j: usize = 0;
                while j < wanted.len()
                    invariant
                        self.reaches(),
                        self.start == old(self).start,
                        body_of(*desired) == Body::List(*wanted),
                    decreases wanted.len() - j,
                {
                    proof {
                        lemma_kids_smaller(*desired);
                        assert(body_of(*desired)->List_0@[j as int] == wanted@[j as int]);
                    }
                    self.clean(&wanted[j])?;
                    j += 1;
                }
            },
            _ => {},
        }
        Ok(())
    }
}

/// An identity-preserving Change from `before` to `after`: elements keep
/// their identities, reordering is expressed with Moves, and `leaves` offers
/// Text edits to try first. Fails where no such Change is found.
fn difference(before: &Value, after: &Value, leaves: Vec<(ElementId, Operation)>, original: &Change) -> (r:
    Result<Change, CollaError>)
    ensures
        valid(before@) && r is Ok ==> apply_steps(before@, r->Ok_0@) == Ok::<Tree, ErrorCode>(after@),
{
    if !same_id(before.id(), after.id()) {
        return Err(structural("document root identity changed"));
    }
    let wanted = ids_of(after);
    let previous = ids_of(before);
    let mut movable: Vec<ElementId> = Vec::new();
    let mut i: usize = 0;
    while i < wanted.len()
        decreases wanted.len() - i,
    {
        if !holds_id(&previous, wanted[i]) {
            add_id(&mut movable, wanted[i]);
        }
        i += 1;
    }
    let ops = original.operations();
    let mut k: usize = 0;
    while k < ops.len()
        decreases ops.len() - k,
    {
        if let Operation::Move { target, .. } = &ops[k] {
            if holds_id(&wanted, *target) {
                add_id(&mut movable, *target);
            }
        }
        k += 1;
    }
    let mut state = Delta {
        value: before.copy(),
        operations: Vec::new(),
        leaves,
        movable,
        start: Ghost(before@),
    };
    proof {
        assert(steps_of(state.operations@) =~= Seq::<Step>::empty());
    }
    state.prune(before, &wanted)?;
    state.align(after)?;
    state.clean(after)?;
    if !state.value.same_value(after) {
        return Err(structural("cannot construct identity-preserving delta"));
    }
    let ghost steps = steps_of(state.operations@);
    let change = Change::new(state.operations)?;
    let (kept, _) = normalize(before, change.operations())?;
    proof {
        if valid(before@) {
            crate::operation_compose_law::lemma_canonical_effect(before@, steps);
            crate::operation_laws::law_normalized_keeps_effect(before@, change@);
        }
    }
    Ok(Change::from_vec(kept))
}

/// Whether running `a` and `b` after each other in either order succeeds
/// and gives the same content; then the normalized pair `(a after b, b
/// after a)`.
pub open spec fn commuting(t: Tree, a: Seq<Step>, b: Seq<Step>) -> Option<(Seq<Step>, Seq<Step>)> {
    match (normalized(t, a), normalized(t, b)) {
        (Ok(na), Ok(nb)) => {
            let va = normalize_run(t, a)->Ok_0.0;
            let vb = normalize_run(t, b)->Ok_0.0;
            match (normalized(vb, na), normalized(va, nb)) {
                (Ok(x), Ok(y)) => if normalize_run(vb, na)->Ok_0.0 == normalize_run(va, nb)->Ok_0.0 {
                    Some((x, y))
                } else {
                    None
                },
                _ => None,
            }
        },
        _ => None,
    }
}

/// A run normalizes exactly when it applies, with the same failure.
pub(crate) proof fn lemma_normalize_run_err(t: Tree, ops: Seq<Step>)
    ensures
        normalize_run(t, ops) is Ok <==> apply_steps(t, ops) is Ok,
        normalize_run(t, ops) is Err ==> normalize_run(t, ops)->Err_0 == apply_steps(t, ops)->Err_0,
    decreases ops.len(),
{
    if ops.len() > 0 {
        lemma_normalize_run_err(t, ops.drop_last());
        if normalize_run(t, ops.drop_last()) is Ok {
            crate::operation_laws::lemma_normalize_run_effect(t, ops.drop_last());
        }
    }
}

/// Transforms concurrent Changes `left` and `right` of `base`, returning
/// `(left after right, right after left)`. Where both apply after each other
/// in either order with the same result, that normalized pair is returned.
/// Otherwise both are merged into one content, `priority` deciding
/// competing intents, and each side receives the identity-preserving delta
/// from its own result to the merged one; structural conflicts fail. On
/// valid content the two transformed paths converge (TP1). Which merged
/// content results where the two compete is not stated.
pub fn transform(base: &Value, left: &Change, right: &Change, priority: Priority) -> (r: Result<
    (Change, Change),
    CollaError,
>)
    ensures
        apply_steps(base@, left@) is Err ==> r is Err && r->Err_0.code == apply_steps(
            base@,
            left@,
        )->Err_0,
        apply_steps(base@, left@) is Ok && apply_steps(base@, right@) is Err ==> r is Err
            && r->Err_0.code == apply_steps(base@, right@)->Err_0,
        commuting(base@, left@, right@) matches Some(p) ==> r is Ok && r->Ok_0.0@ == p.0
            && r->Ok_0.1@ == p.1,
        r is Ok && (valid(base@) || commuting(base@, left@, right@) is Some) ==> {
            &&& apply_steps(base@, left@ + r->Ok_0.1@) is Ok
            &&& apply_steps(base@, left@ + r->Ok_0.1@) == apply_steps(base@, right@ + r->Ok_0.0@)
        },
{
    proof {
        lemma_normalize_run_err(base@, left@);
        lemma_normalize_run_err(base@, right@);
    }
    let (l_ops, lv) = normalize(base, left.operations())?;
    let l = Change::from_vec(l_ops);
    let (r_ops, rv) = normalize(base, right.operations())?;
    let r = Change::from_vec(r_ops);
    proof {
        crate::operation_laws::lemma_normalize_run_effect(base@, left@);
        crate::operation_laws::lemma_normalize_run_effect(base@, right@);
        crate::operation_laws::law_apply_in_turn(base@, left@, Seq::<Step>::empty());
    }
    let fast = match (normalize(&rv, l.operations()), normalize(&lv, r.operations())) {
        (Ok((la, a)), Ok((ra, b))) => if a.same_value(&b) {
            Some((la, ra))
        } else {
            None
        },
        _ => None,
    };
    if let Some((la, ra)) = fast {
        let x = Change::from_vec(la);
        let y = Change::from_vec(ra);
        proof {
            crate::operation_laws::law_normalized_keeps_effect(rv@, l@);
            crate::operation_laws::lemma_normalize_run_effect(rv@, l@);
            crate::operation_laws::law_normalized_keeps_effect(lv@, r@);
            crate::operation_laws::lemma_normalize_run_effect(lv@, r@);
            crate::operation_laws::law_apply_in_turn(base@, left@, y@);
            crate::operation_laws::law_apply_in_turn(base@, right@, x@);
        }
        return Ok((x, y));
    }
    proof {
        if commuting(base@, left@, right@) is Some {
            lemma_normalize_run_err(rv@, l@);
            lemma_normalize_run_err(lv@, r@);
        }
    }
    check_move_destinations(base, &l, &lv, &rv)?;
    check_move_destinations(base, &r, &rv, &lv)?;
    let merged = match priority {
        Priority::Left => merge(base, &l, &lv, &r, &rv)?,
        Priority::Right => merge(base, &r, &rv, &l, &lv)?,
    };
    let (left_leaves, right_leaves) = transformed_leaves(base, &l, &r, priority)?;
    let x = difference(&rv, &merged, left_leaves, &l)?;
    let y = difference(&lv, &merged, right_leaves, &r)?;
    proof {
        if valid(base@) {
            crate::operation_laws::law_changes_keep_content_valid(base@, left@);
            crate::operation_laws::law_changes_keep_content_valid(base@, right@);
            crate::operation_laws::law_apply_in_turn(base@, left@, y@);
            crate::operation_laws::law_apply_in_turn(base@, right@, x@);
        }
    }
    Ok((x, y))
}

} // verus!
