//! Composition of identity-addressed Changes keeps their effect.
use crate::error::ErrorCode;
use crate::operation::{apply_step, apply_steps, canonical_steps, keeps_step, Step};
use crate::model::compose_units;
use crate::operation_compose::{compose_spec, merge_run, merge_with, normalize_run, normalized};
use crate::operation_laws::{law_changes_keep_content_valid, law_normalized_keeps_effect};
use crate::tree::{node_of, path_to, replace_path, valid, Shape, Tree};
use crate::tree_laws::{
    lemma_locate_facts, lemma_locate_replaced, lemma_replace_same, lemma_replace_twice,
    lemma_valid_keyed,
};
use vstd::prelude::*;

verus! {

/// Adding zero to an element of valid content leaves the content as it is.
proof fn lemma_add_zero(x: Tree, id: (Seq<u8>, u64))
    requires
        valid(x),
        apply_step(x, Step::Add(id, 0)) is Ok,
    ensures
        apply_step(x, Step::Add(id, 0)) == Ok::<Tree, ErrorCode>(x),
{
    reveal(apply_step);
    lemma_valid_keyed(x);
    lemma_locate_facts(x, id);
    let n = node_of(x, id)->Some_0;
    let p = path_to(x, id)->Some_0;
    assert(Tree { id, shape: Shape::Int(n.shape->Int_0) } == n);
    lemma_replace_same(x, p);
}

/// An empty Text edit of an element of valid content leaves the content as
/// it is.
proof fn lemma_empty_text(x: Tree, id: (Seq<u8>, u64), ch: Seq<crate::model::OpView>)
    requires
        valid(x),
        ch.len() == 0,
        apply_step(x, Step::Text(id, ch)) is Ok,
    ensures
        apply_step(x, Step::Text(id, ch)) == Ok::<Tree, ErrorCode>(x),
{
    reveal(apply_step);
    lemma_valid_keyed(x);
    lemma_locate_facts(x, id);
    let n = node_of(x, id)->Some_0;
    let p = path_to(x, id)->Some_0;
    assert(crate::model::expand(ch) =~= Seq::<crate::model::Unit<char>>::empty());
    assert(crate::model::apply_ops(ch, n.shape->Text_0) == Some(n.shape->Text_0));
    assert(Tree { id, shape: Shape::Text(n.shape->Text_0) } == n);
    lemma_replace_same(x, p);
}

/// Dropping the operations that canonical form drops (zero Adds and empty
/// Text edits) keeps the effect of a run that succeeds on valid content.
pub(crate) proof fn lemma_canonical_effect(t: Tree, ops: Seq<Step>)
    requires
        valid(t),
        apply_steps(t, ops) is Ok,
        canonical_steps(ops) is Ok,
    ensures
        apply_steps(t, canonical_steps(ops)->Ok_0) == apply_steps(t, ops),
    decreases ops.len(),
{
    if ops.len() > 0 {
        let init = ops.drop_last();
        lemma_canonical_effect(t, init);
        let kept = canonical_steps(init)->Ok_0;
        let x = apply_steps(t, init)->Ok_0;
        if keeps_step(ops.last()) == Ok::<bool, ErrorCode>(true) {
            assert(kept.push(ops.last()).drop_last() =~= kept);
        } else {
            law_changes_keep_content_valid(t, init);
            let op = ops.last();
            if op is Add {
                lemma_add_zero(x, op->Add_0);
            } else {
                lemma_empty_text(x, op->Text_0, op->Text_1);
            }
        }
    }
}

/// Moving an element twice has the effect of moving it once to the second
/// destination.
#[verifier::rlimit(80)]
proof fn lemma_merge_moves(
    y: Tree,
    id: (Seq<u8>, u64),
    p1: (Seq<u8>, u64),
    s1: crate::tree::Slot,
    p2: (Seq<u8>, u64),
    s2: crate::tree::Slot,
)
    requires
        valid(y),
        apply_step(y, Step::Move(id, p1, s1)) is Ok,
        apply_step(apply_step(y, Step::Move(id, p1, s1))->Ok_0, Step::Move(id, p2, s2)) is Ok,
    ensures
        apply_step(y, Step::Move(id, p2, s2)) == apply_step(
            apply_step(y, Step::Move(id, p1, s1))->Ok_0,
            Step::Move(id, p2, s2),
        ),
{
    reveal(apply_step);
    lemma_valid_keyed(y);
    let x = apply_step(y, Step::Move(id, p1, s1))->Ok_0;
    let d1 = crate::tree::destination_of(y, id)->Ok_0;
    if d1 != (p1, s1) {
        crate::structure_laws::lemma_reattach(y, id);
        let r = crate::tree::detach(y, id)->Ok_0;
        let y1 = r.0;
        let n = r.1;
        assert(x == crate::tree::attach(y1, p1, s1, n)->Ok_0);
        crate::structure_laws::lemma_detach_attached(y1, p1, s1, n);
        assert(node_of(x, id) == Some(n));
        assert(crate::tree::destination_of(x, id) == Ok::<((Seq<u8>, u64), crate::tree::Slot), crate::error::ErrorCode>((p1, s1)));
        if (p1, s1) != (p2, s2) {
            assert(crate::tree::detach(x, id) == Ok::<(Tree, Tree), crate::error::ErrorCode>((y1, n)));
            crate::structure_laws::lemma_attach_holds(y1, p1, s1, n, p2);
            lemma_locate_facts(y, id);
            let q1 = path_to(y, id)->Some_0.drop_last();
            let par = crate::tree::at_path(y, q1)->Some_0;
            crate::unique_ids::lemma_valid_locate(y, q1);
            let i = crate::tree::slot_index(par, d1.1)->Some_0;
            let w = crate::tree::without_kid(par, i);
            assert(y1 == replace_path(y, q1, w));
            crate::structure_laws::lemma_replaced_holds(y, q1, w, p2);
            if crate::tree::locate(w, p2) is Some {
                crate::structure_laws::lemma_without_kid_holds(par, i, p2);
                crate::structure_laws::lemma_path_holds(y, q1, p2);
            }
            assert(node_of(y, p2) is Some);
            assert(node_of(n, p2) is None);
            if d1 == (p2, s2) {
                assert(crate::tree::attach(y1, p2, s2, n) == Ok::<Tree, crate::error::ErrorCode>(y));
            }
        }
    }
}

/// Two merged operations have the effect of the pair.
proof fn lemma_merge_pair(y: Tree, l: Step, op: Step)
    requires
        valid(y),
        merge_with(l, op) matches Some(Ok(_)),
        apply_step(y, l) is Ok,
        apply_step(apply_step(y, l)->Ok_0, op) is Ok,
    ensures
        apply_step(y, merge_with(l, op)->Some_0->Ok_0) == apply_step(apply_step(y, l)->Ok_0, op),
{
    reveal(apply_step);
    lemma_valid_keyed(y);
    let x = apply_step(y, l)->Ok_0;
    match (l, op) {
        (Step::Move(id, p1, s1), Step::Move(_, p2, s2)) => {
            lemma_merge_moves(y, id, p1, s1, p2, s2);
        },
        (Step::Add(id, a), Step::Add(_, b)) => {
            let n = node_of(y, id)->Some_0;
            let p = path_to(y, id)->Some_0;
            let v = n.shape->Int_0;
            let n1 = Tree { id, shape: Shape::Int((v + a) as i64) };
            let n2 = Tree { id, shape: Shape::Int((v + a + b) as i64) };
            lemma_locate_facts(y, id);
            lemma_locate_replaced(y, id, n1);
            assert(x == replace_path(y, p, n1));
            assert(node_of(x, id) == Some(n1));
            assert(path_to(x, id) == Some(p));
            lemma_replace_twice(y, p, n1, n2);
        },
        (Step::Text(id, e1), Step::Text(_, e2)) => {
            let n = node_of(y, id)->Some_0;
            let p = path_to(y, id)->Some_0;
            let s0 = n.shape->Text_0;
            let s1 = crate::model::apply_ops(e1, s0)->Some_0;
            let n1 = Tree { id, shape: Shape::Text(s1) };
            lemma_locate_facts(y, id);
            lemma_locate_replaced(y, id, n1);
            assert(x == replace_path(y, p, n1));
            assert(node_of(x, id) == Some(n1));
            assert(path_to(x, id) == Some(p));
            let s2 = crate::model::apply_ops(e2, s1)->Some_0;
            let n2 = Tree { id, shape: Shape::Text(s2) };
            lemma_replace_twice(y, p, n1, n2);
            let u = compose_units(crate::model::expand(e1), crate::model::expand(e2));
            crate::model::lemma_compose_run(crate::model::expand(e1), crate::model::expand(e2), s0);
            crate::model::lemma_normal_run(u, s0);
            let v = crate::transform_change::text_of_units(u);
            assert(crate::model::expand(v) == crate::model::normal_units(u));
            assert(crate::model::apply_ops(v, s0) == Some(s2));
        },
        (Step::Assign(id, v1), Step::Assign(_, v2)) => {
            let p = path_to(y, id)->Some_0;
            lemma_locate_facts(y, id);
            lemma_locate_replaced(y, id, v1);
            assert(x == replace_path(y, p, v1));
            assert(path_to(x, id) == Some(p));
            lemma_replace_twice(y, p, v1, v2);
        },
        _ => {},
    }
}

/// Merging keeps the effect of a run that succeeds on valid content.
proof fn lemma_merge_effect(t: Tree, ops: Seq<Step>)
    requires
        valid(t),
        apply_steps(t, ops) is Ok,
        merge_run(ops) is Ok,
    ensures
        apply_steps(t, merge_run(ops)->Ok_0) == apply_steps(t, ops),
    decreases ops.len(),
{
    if ops.len() > 0 {
        let init = ops.drop_last();
        let op = ops.last();
        lemma_merge_effect(t, init);
        let out = merge_run(init)->Ok_0;
        if out.len() == 0 {
            assert(out.push(op).drop_last() =~= out);
        } else {
            match merge_with(out.last(), op) {
                None => {
                    assert(out.push(op).drop_last() =~= out);
                },
                Some(Ok(m)) => {
                    let front = out.drop_last();
                    assert(front.push(m).drop_last() =~= front);
                    law_changes_keep_content_valid(t, front);
                    lemma_merge_pair(apply_steps(t, front)->Ok_0, out.last(), op);
                },
                _ => {},
            }
        }
    }
}

/// Composing two Changes keeps their effect: where applying `first` and then
/// `second` to valid content succeeds and their composition succeeds,
/// applying the composition gives the same content, and where the two leave
/// the content as it was, the composition is empty.
pub proof fn law_compose_applies_in_turn(t: Tree, first: Seq<Step>, second: Seq<Step>)
    requires
        valid(t),
        apply_steps(t, first + second) is Ok,
        compose_spec(t, first, second) is Ok,
    ensures
        apply_steps(t, compose_spec(t, first, second)->Ok_0) == apply_steps(t, first + second),
        apply_steps(t, first + second) == Ok::<Tree, ErrorCode>(t) ==> compose_spec(t, first, second)->Ok_0.len() == 0,
{
    let all = first + second;
    let a = canonical_steps(all)->Ok_0;
    lemma_canonical_effect(t, all);
    let b = normalized(t, a)->Ok_0;
    law_normalized_keeps_effect(t, a);
    let c = merge_run(b)->Ok_0;
    lemma_merge_effect(t, b);
    let d = canonical_steps(c)->Ok_0;
    lemma_canonical_effect(t, c);
    law_normalized_keeps_effect(t, d);
    crate::operation_laws::lemma_normalize_run_effect(t, d);
}

/// Replacing at a path puts the replacement there.
proof fn lemma_at_replaced(t: Tree, p: Seq<crate::tree::Slot>, r: Tree)
    requires
        crate::tree::at_path(t, p) is Some,
    ensures
        crate::tree::at_path(replace_path(t, p, r), p) == Some(r),
    decreases p.len(),
{
    if p.len() > 0 {
        let i = crate::tree::slot_index(t, p[0])->Some_0;
        lemma_at_replaced(crate::tree::kid(t, i), p.drop_first(), r);
        let u = replace_path(t, p, r);
        match t.shape {
            Shape::KeyMap(es) => {
                assert(crate::tree::keys_of(u.shape->KeyMap_0) =~= crate::tree::keys_of(es));
            },
            _ => {},
        }
        assert(crate::tree::slot_index(u, p[0]) == Some(i));
    }
}

/// An operation that succeeds on valid content is accepted by canonical form.
proof fn lemma_applied_accepted(t: Tree, op: Step)
    requires
        valid(t),
        apply_step(t, op) is Ok,
    ensures
        keeps_step(op) is Ok,
{
    reveal(apply_step);
    lemma_valid_keyed(t);
    match op {
        Step::Assign(id, v) => {
            lemma_locate_facts(t, id);
            let p = path_to(t, id)->Some_0;
            lemma_at_replaced(t, p, v);
            crate::unique_ids::lemma_valid_sub(replace_path(t, p, v), p);
        },
        Step::Insert(pid, s, v) => {
            crate::structure_laws::lemma_detach_attached(t, pid, s, v);
        },
        _ => {},
    }
}

/// Every operation of a Change that succeeds on valid content is accepted
/// by canonical form.
proof fn lemma_run_accepted(t: Tree, ops: Seq<Step>)
    requires
        valid(t),
        apply_steps(t, ops) is Ok,
    ensures
        crate::operation_laws::accepted_steps(ops),
    decreases ops.len(),
{
    if ops.len() > 0 {
        let init = ops.drop_last();
        lemma_run_accepted(t, init);
        law_changes_keep_content_valid(t, init);
        lemma_applied_accepted(apply_steps(t, init)->Ok_0, ops.last());
        assert forall|i: int| 0 <= i < ops.len() implies #[trigger] keeps_step(ops[i]) is Ok by {
            if i < init.len() {
                assert(ops[i] == init[i]);
            }
        }
    }
}

/// A run that applies normalizes, keeping no more operations.
proof fn lemma_normalize_ok(t: Tree, ops: Seq<Step>)
    requires
        apply_steps(t, ops) is Ok,
    ensures
        normalize_run(t, ops) is Ok,
        normalize_run(t, ops)->Ok_0.1.len() <= ops.len(),
    decreases ops.len(),
{
    if ops.len() > 0 {
        let init = ops.drop_last();
        lemma_normalize_ok(t, init);
        crate::operation_laws::lemma_normalize_run_effect(t, init);
    }
}

/// Two Text edits of one element that apply in turn to valid content merge.
proof fn lemma_text_merge_ok(y: Tree, id: (Seq<u8>, u64), e1: Seq<crate::model::OpView>, e2: Seq<crate::model::OpView>)
    requires
        valid(y),
        apply_step(y, Step::Text(id, e1)) is Ok,
        apply_step(apply_step(y, Step::Text(id, e1))->Ok_0, Step::Text(id, e2)) is Ok,
    ensures
        merge_with(Step::Text(id, e1), Step::Text(id, e2)) matches Some(Ok(_)),
{
    reveal(apply_step);
    lemma_valid_keyed(y);
    let x = apply_step(y, Step::Text(id, e1))->Ok_0;
    let n = node_of(y, id)->Some_0;
    let p = path_to(y, id)->Some_0;
    let s0 = n.shape->Text_0;
    let s1 = crate::model::apply_ops(e1, s0)->Some_0;
    let n1 = Tree { id, shape: Shape::Text(s1) };
    lemma_locate_facts(y, id);
    lemma_locate_replaced(y, id, n1);
    assert(x == replace_path(y, p, n1));
    assert(node_of(x, id) == Some(n1));
    let s2 = crate::model::apply_ops(e2, s1)->Some_0;
    let u = compose_units(crate::model::expand(e1), crate::model::expand(e2));
    crate::model::lemma_compose_run(crate::model::expand(e1), crate::model::expand(e2), s0);
    crate::tree_laws::lemma_valid_text_small(y, p);
    crate::richtext::lemma_utf16_len_le_bytes(s0);
    crate::normal_fit::lemma_normalizes_within(u, s0);
    crate::normal_fit::lemma_canonical_exists(u);
    assert(crate::operation_compose::text_of_units_exists(u));
}

/// Merging a run that applies to valid content succeeds and gives no more
/// operations.
proof fn lemma_merge_ok(t: Tree, ops: Seq<Step>)
    requires
        valid(t),
        apply_steps(t, ops) is Ok,
    ensures
        merge_run(ops) is Ok,
        merge_run(ops)->Ok_0.len() <= ops.len(),
    decreases ops.len(),
{
    if ops.len() > 0 {
        let init = ops.drop_last();
        let op = ops.last();
        lemma_merge_ok(t, init);
        lemma_merge_effect(t, init);
        let out = merge_run(init)->Ok_0;
        if out.len() > 0 {
            if let (Step::Text(a, e1), Step::Text(b, e2)) = (out.last(), op) {
                if a == b {
                    let front = out.drop_last();
                    assert(front.push(out.last()) =~= out);
                    law_changes_keep_content_valid(t, front);
                    lemma_text_merge_ok(apply_steps(t, front)->Ok_0, a, e1, e2);
                }
            }
        }
    }
}

/// Composing two Changes that apply in turn to valid content succeeds where
/// they have at most a million operations together.
pub proof fn law_compose_succeeds(t: Tree, first: Seq<Step>, second: Seq<Step>)
    requires
        valid(t),
        apply_steps(t, first + second) is Ok,
        first.len() + second.len() <= 1_000_000,
    ensures
        compose_spec(t, first, second) is Ok,
{
    let all = first + second;
    lemma_run_accepted(t, all);
    crate::operation_laws::lemma_canonical_accepts(all);
    let a = canonical_steps(all)->Ok_0;
    lemma_canonical_effect(t, all);
    lemma_normalize_ok(t, a);
    crate::operation_laws::lemma_canonical_len(all);
    let b = normalized(t, a)->Ok_0;
    law_normalized_keeps_effect(t, a);
    lemma_merge_ok(t, b);
    let c = merge_run(b)->Ok_0;
    lemma_merge_effect(t, b);
    lemma_run_accepted(t, c);
    crate::operation_laws::lemma_canonical_accepts(c);
    let d = canonical_steps(c)->Ok_0;
    lemma_canonical_effect(t, c);
    lemma_normalize_ok(t, d);
}

} // verus!
