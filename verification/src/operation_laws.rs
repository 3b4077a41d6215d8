//! Laws of identity-addressed Changes.
use crate::operation::{apply_step, apply_steps, canonical_steps, keeps_step, Step};
use crate::operation_compose::{normalize_run, normalized};
use crate::operation_invert::{invert_run, invert_spec, inverse_of, rev_flat};
use crate::tree::{locate, node_of, path_to, replace_path, valid, Shape, Tree};
use crate::tree_laws::{lemma_locate_facts, lemma_locate_replaced, lemma_replace_same, lemma_replace_twice, lemma_walk_replace_int};
use vstd::prelude::*;

verus! {

/// Applying no operations leaves the content as it is.
pub proof fn law_apply_noop(t: Tree)
    ensures
        apply_steps(t, Seq::empty()) == Ok::<Tree, crate::error::ErrorCode>(t),
{
}

/// Applying the operations of `a` followed by those of `b` is applying `a`
/// and then applying `b` to its result; a failure of `a` is the failure of
/// the whole.
pub proof fn law_apply_in_turn(t: Tree, a: Seq<Step>, b: Seq<Step>)
    ensures
        apply_steps(t, a + b) == match apply_steps(t, a) {
            Ok(x) => apply_steps(x, b),
            Err(e) => Err(e),
        },
    decreases b.len(),
{
    if b.len() == 0 {
        assert(a + b =~= a);
    } else {
        law_apply_in_turn(t, a, b.drop_last());
        assert((a + b).drop_last() =~= a + b.drop_last());
        assert((a + b).last() == b.last());
    }
}

/// Every operation that succeeds on valid content gives valid content: unique
/// identities, bounded depth and size, sorted Map keys, bounded strings.
pub proof fn law_operations_keep_content_valid(t: Tree, op: Step)
    requires
        valid(t),
        apply_step(t, op) is Ok,
    ensures
        valid(apply_step(t, op)->Ok_0),
{
    reveal(apply_step);
}

/// A Change that succeeds on valid content gives valid content.
pub proof fn law_changes_keep_content_valid(t: Tree, ops: Seq<Step>)
    requires
        valid(t),
        apply_steps(t, ops) is Ok,
    ensures
        valid(apply_steps(t, ops)->Ok_0),
    decreases ops.len(),
{
    if ops.len() > 0 {
        law_changes_keep_content_valid(t, ops.drop_last());
        law_operations_keep_content_valid(apply_steps(t, ops.drop_last())->Ok_0, ops.last());
    }
}

/// The kept operations of a run have the run's effect.
pub(crate) proof fn lemma_normalize_run_effect(t: Tree, ops: Seq<Step>)
    requires
        normalize_run(t, ops) is Ok,
    ensures
        apply_steps(t, ops) == Ok::<Tree, crate::error::ErrorCode>(normalize_run(t, ops)->Ok_0.0),
        apply_steps(t, normalize_run(t, ops)->Ok_0.1) == Ok::<Tree, crate::error::ErrorCode>(
            normalize_run(t, ops)->Ok_0.0,
        ),
    decreases ops.len(),
{
    if ops.len() > 0 {
        lemma_normalize_run_effect(t, ops.drop_last());
        let r = normalize_run(t, ops.drop_last())->Ok_0;
        let n = apply_step(r.0, ops.last())->Ok_0;
        if n != r.0 {
            let k = r.1.push(ops.last());
            assert(k.drop_last() =~= r.1);
        }
    }
}

/// Dropping the operations that change nothing keeps a Change's effect.
pub proof fn law_normalized_keeps_effect(t: Tree, ops: Seq<Step>)
    requires
        normalized(t, ops) is Ok,
    ensures
        apply_steps(t, normalized(t, ops)->Ok_0) == apply_steps(t, ops),
{
    lemma_normalize_run_effect(t, ops);
}

/// The inverse of an Add restores the content.
#[verifier::rlimit(80)]
proof fn lemma_add_inverse(t: Tree, id: (Seq<u8>, u64), d: i64)
    requires
        valid(t),
        crate::tree_laws::well_keyed(t),
        d != i64::MIN,
        apply_step(t, Step::Add(id, d)) is Ok,
    ensures
        inverse_of(t, Step::Add(id, d)) is Ok,
        apply_steps(apply_step(t, Step::Add(id, d))->Ok_0, inverse_of(t, Step::Add(id, d))->Ok_0)
            == Ok::<Tree, crate::error::ErrorCode>(t),
{
    reveal(apply_step);
    let inv = inverse_of(t, Step::Add(id, d))->Ok_0;
    let a = apply_step(t, Step::Add(id, d))->Ok_0;
    let n = node_of(t, id)->Some_0;
    let p = path_to(t, id)->Some_0;
    let x = n.shape->Int_0;
    let n1 = Tree { id, shape: Shape::Int((x + d) as i64) };
    let n0 = Tree { id, shape: Shape::Int(x) };
    lemma_locate_facts(t, id);
    lemma_locate_replaced(t, id, n1);
    assert(a == replace_path(t, p, n1));
    assert(node_of(a, id) == Some(n1));
    assert(path_to(a, id) == Some(p));
    assert(n0 == n);
    lemma_replace_same(t, p);
    assert(inv.drop_last() =~= Seq::<Step>::empty());
    assert(inv.last() == Step::Add(id, (-d) as i64));
    lemma_replace_twice(t, p, n1, n0);
    assert(apply_step(a, inv.last()) == Ok::<Tree, crate::error::ErrorCode>(t));
    assert(inv.len() == 1);
    assert(apply_steps(a, inv.drop_last()) == Ok::<Tree, crate::error::ErrorCode>(a));
    assert(apply_steps(a, inv) == apply_step(a, inv.last()));
}

/// The two-step inverse of an Add of `i64::MIN` restores the content.
#[verifier::rlimit(80)]
proof fn lemma_add_min_inverse(t: Tree, id: (Seq<u8>, u64), d: i64)
    requires
        valid(t),
        crate::tree_laws::well_keyed(t),
        d == i64::MIN,
        apply_step(t, Step::Add(id, d)) is Ok,
    ensures
        inverse_of(t, Step::Add(id, d)) is Ok,
        apply_steps(apply_step(t, Step::Add(id, d))->Ok_0, inverse_of(t, Step::Add(id, d))->Ok_0)
            == Ok::<Tree, crate::error::ErrorCode>(t),
{
    reveal(apply_step);
    let inv = inverse_of(t, Step::Add(id, d))->Ok_0;
    let a = apply_step(t, Step::Add(id, d))->Ok_0;
    let n = node_of(t, id)->Some_0;
    let p = path_to(t, id)->Some_0;
    let x = n.shape->Int_0;
    let n1 = Tree { id, shape: Shape::Int((x + d) as i64) };
    let n0 = Tree { id, shape: Shape::Int(x) };
    lemma_locate_facts(t, id);
    lemma_locate_replaced(t, id, n1);
    assert(a == replace_path(t, p, n1));
    assert(node_of(a, id) == Some(n1));
    assert(path_to(a, id) == Some(p));
    assert(n0 == n);
    lemma_replace_same(t, p);
    let n2 = Tree { id, shape: Shape::Int((x - 1) as i64) };
    lemma_replace_twice(t, p, n1, n2);
    lemma_walk_replace_int(t, p, n2, Seq::empty(), 1);
    let a2 = replace_path(t, p, n2);
    assert(apply_step(a, Step::Add(id, i64::MAX)) == Ok::<Tree, crate::error::ErrorCode>(a2));
    lemma_locate_replaced(t, id, n2);
    assert(node_of(a2, id) == Some(n2));
    assert(path_to(a2, id) == Some(p));
    lemma_replace_twice(t, p, n2, n0);
    assert(apply_step(a2, Step::Add(id, 1)) == Ok::<Tree, crate::error::ErrorCode>(t));
    assert(inv.drop_last() =~= seq![Step::Add(id, i64::MAX)]);
    assert(inv.drop_last().drop_last() =~= Seq::<Step>::empty());
    assert(apply_steps(a, inv.drop_last().drop_last()) == Ok::<Tree, crate::error::ErrorCode>(a));
    assert(inv.drop_last().last() == Step::Add(id, i64::MAX));
    assert(apply_steps(a, inv.drop_last()) == Ok::<Tree, crate::error::ErrorCode>(a2));
    assert(apply_steps(a, inv) == apply_step(a2, Step::Add(id, 1)));
}

/// The inverse of an Assign restores the content.
#[verifier::rlimit(80)]
proof fn lemma_assign_inverse(t: Tree, id: (Seq<u8>, u64), v: Tree)
    requires
        valid(t),
        crate::tree_laws::well_keyed(t),
        apply_step(t, Step::Assign(id, v)) is Ok,
    ensures
        inverse_of(t, Step::Assign(id, v)) is Ok,
        apply_steps(apply_step(t, Step::Assign(id, v))->Ok_0, inverse_of(t, Step::Assign(id, v))->Ok_0)
            == Ok::<Tree, crate::error::ErrorCode>(t),
{
    reveal(apply_step);
    let inv = inverse_of(t, Step::Assign(id, v))->Ok_0;
    let a = apply_step(t, Step::Assign(id, v))->Ok_0;
    let n = node_of(t, id)->Some_0;
    let p = path_to(t, id)->Some_0;
    lemma_locate_facts(t, id);
    lemma_locate_replaced(t, id, v);
    assert(a == replace_path(t, p, v));
    assert(inv.drop_last() =~= Seq::<Step>::empty());
    assert(inv.last() == Step::Assign(id, n));
    assert(path_to(a, id) == Some(p));
    lemma_replace_twice(t, p, v, n);
    lemma_replace_same(t, p);
    assert(apply_step(a, inv.last()) == Ok::<Tree, crate::error::ErrorCode>(t));

    assert(inv.len() == 1);
    assert(apply_steps(a, inv.drop_last()) == Ok::<Tree, crate::error::ErrorCode>(a));
    assert(apply_steps(a, inv) == apply_step(a, inv.last()));
}

/// A Text edit that succeeds on valid content has a canonical inverse.
proof fn lemma_text_inverse_exists(t: Tree, id: (Seq<u8>, u64), ch: Seq<crate::model::OpView>)
    requires
        valid(t),
        apply_step(t, Step::Text(id, ch)) is Ok,
    ensures
        inverse_of(t, Step::Text(id, ch)) is Ok,
{
    reveal(apply_step);
    crate::tree_laws::lemma_valid_keyed(t);
    lemma_locate_facts(t, id);
    let n = node_of(t, id)->Some_0;
    let p = path_to(t, id)->Some_0;
    let x = n.shape->Text_0;
    let y = crate::model::apply_ops(ch, x)->Some_0;
    let u = crate::model::invert_units(crate::model::expand(ch), x);
    crate::model::lemma_invert_run(crate::model::expand(ch), x);
    crate::tree_laws::lemma_valid_text_small(t, p);
    crate::richtext::lemma_utf16_len_le_bytes(y);
    crate::normal_fit::lemma_normalizes_within(u, y);
    crate::normal_fit::lemma_canonical_exists(u);
    assert(crate::invert_change::text_inverse_exists(ch, x));
}

/// The inverse of a Text edit restores the content.
#[verifier::rlimit(80)]
proof fn lemma_text_inverse(t: Tree, id: (Seq<u8>, u64), ch: Seq<crate::model::OpView>)
    requires
        valid(t),
        crate::tree_laws::well_keyed(t),
        apply_step(t, Step::Text(id, ch)) is Ok,
    ensures
        inverse_of(t, Step::Text(id, ch)) is Ok,
        apply_steps(apply_step(t, Step::Text(id, ch))->Ok_0, inverse_of(t, Step::Text(id, ch))->Ok_0)
            == Ok::<Tree, crate::error::ErrorCode>(t),
{
    lemma_text_inverse_exists(t, id, ch);
    reveal(apply_step);
    let inv = inverse_of(t, Step::Text(id, ch))->Ok_0;
    let a = apply_step(t, Step::Text(id, ch))->Ok_0;
    let n = node_of(t, id)->Some_0;
    let p = path_to(t, id)->Some_0;
    let x = n.shape->Text_0;
    let y = crate::model::apply_ops(ch, x)->Some_0;
    let n1 = Tree { id, shape: Shape::Text(y) };
    let n0 = Tree { id, shape: Shape::Text(x) };
    lemma_locate_facts(t, id);
    lemma_locate_replaced(t, id, n1);
    assert(a == replace_path(t, p, n1));
    assert(node_of(a, id) == Some(n1));
    assert(path_to(a, id) == Some(p));
    let v = crate::invert_change::text_inverse(ch, x);
    let u = crate::model::expand(ch);
    crate::model::lemma_invert_run(u, x);
    crate::model::lemma_normal_run(crate::model::invert_units(u, x), y);
    assert(crate::model::expand(v) == crate::model::normal_units(crate::model::invert_units(u, x)));
    assert(crate::model::apply_ops(v, y) == Some(x));
    crate::tree_laws::lemma_valid_text_small(t, p);
    assert(n0 == n);
    lemma_replace_twice(t, p, n1, n0);
    lemma_replace_same(t, p);
    assert(inv.last() == Step::Text(id, v));
    assert(apply_step(a, inv.last()) == Ok::<Tree, crate::error::ErrorCode>(t));
    assert(inv.len() == 1);
    assert(apply_steps(a, inv.drop_last()) == Ok::<Tree, crate::error::ErrorCode>(a));
    assert(apply_steps(a, inv) == apply_step(a, inv.last()));
}

/// The inverse of a Delete restores the content.
proof fn lemma_delete_inverse(t: Tree, id: (Seq<u8>, u64))
    requires
        valid(t),
        apply_step(t, Step::Delete(id)) is Ok,
    ensures
        inverse_of(t, Step::Delete(id)) is Ok,
        apply_steps(apply_step(t, Step::Delete(id))->Ok_0, inverse_of(t, Step::Delete(id))->Ok_0)
            == Ok::<Tree, crate::error::ErrorCode>(t),
{
    reveal(apply_step);
    crate::structure_laws::lemma_reattach(t, id);
    let inv = inverse_of(t, Step::Delete(id))->Ok_0;
    let a = apply_step(t, Step::Delete(id))->Ok_0;
    assert(a == crate::tree::detach(t, id)->Ok_0.0);
    assert(apply_step(a, inv.last()) == Ok::<Tree, crate::error::ErrorCode>(t));
    assert(inv.len() == 1);
    assert(apply_steps(a, inv.drop_last()) == Ok::<Tree, crate::error::ErrorCode>(a));
    assert(apply_steps(a, inv) == apply_step(a, inv.last()));
}

/// The inverse of an Insert restores the content.
proof fn lemma_insert_inverse(t: Tree, pid: (Seq<u8>, u64), s: crate::tree::Slot, v: Tree)
    requires
        valid(t),
        apply_step(t, Step::Insert(pid, s, v)) is Ok,
    ensures
        apply_steps(apply_step(t, Step::Insert(pid, s, v))->Ok_0, inverse_of(t, Step::Insert(pid, s, v))->Ok_0)
            == Ok::<Tree, crate::error::ErrorCode>(t),
{
    reveal(apply_step);
    let inv = inverse_of(t, Step::Insert(pid, s, v))->Ok_0;
    let a = apply_step(t, Step::Insert(pid, s, v))->Ok_0;
    assert(a == crate::tree::attach(t, pid, s, v)->Ok_0);
    crate::tree_laws::lemma_valid_keyed(t);
    crate::structure_laws::lemma_detach_attached(t, pid, s, v);
    assert(apply_step(a, inv.last()) == Ok::<Tree, crate::error::ErrorCode>(t));
    assert(inv.len() == 1);
    assert(apply_steps(a, inv.drop_last()) == Ok::<Tree, crate::error::ErrorCode>(a));
    assert(apply_steps(a, inv) == apply_step(a, inv.last()));
}

/// The inverse of a Move restores the content.
#[verifier::rlimit(80)]
proof fn lemma_move_inverse(t: Tree, id: (Seq<u8>, u64), p2: (Seq<u8>, u64), s2: crate::tree::Slot)
    requires
        valid(t),
        apply_step(t, Step::Move(id, p2, s2)) is Ok,
    ensures
        inverse_of(t, Step::Move(id, p2, s2)) is Ok,
        apply_steps(apply_step(t, Step::Move(id, p2, s2))->Ok_0, inverse_of(t, Step::Move(id, p2, s2))->Ok_0)
            == Ok::<Tree, crate::error::ErrorCode>(t),
{
    reveal(apply_step);
    let op = Step::Move(id, p2, s2);
    let a = apply_step(t, op)->Ok_0;
    let d = crate::tree::destination_of(t, id)->Ok_0;
    let inv = inverse_of(t, op)->Ok_0;
    assert(inv == seq![Step::Move(id, d.0, d.1)]);
    if d == (p2, s2) {
        assert(inv.last() == op);
        assert(apply_step(a, inv.last()) == Ok::<Tree, crate::error::ErrorCode>(t));
    } else {
        crate::structure_laws::lemma_reattach(t, id);
        let x = crate::tree::detach(t, id)->Ok_0;
        let t1 = x.0;
        let n = x.1;
        assert(a == crate::tree::attach(t1, p2, s2, n)->Ok_0);
        crate::structure_laws::lemma_detach_attached(t1, p2, s2, n);
        crate::tree_laws::lemma_valid_keyed(a);
        let par = node_of(a, p2)->Some_0;
        let qa = crate::tree::path_to(a, p2)->Some_0;
        lemma_locate_facts(a, p2);
        let j = crate::tree::slot_index(par, s2)->Some_0;
        let wa = crate::tree::without_kid(par, j);
        assert(t1 == replace_path(a, qa, wa));
        assert(node_of(t1, d.0) is Some);
        crate::structure_laws::lemma_replaced_holds(a, qa, wa, d.0);
        if crate::tree::locate(wa, d.0) is Some {
            crate::structure_laws::lemma_without_kid_holds(par, j, d.0);
            crate::structure_laws::lemma_path_holds(a, qa, d.0);
        }
        assert(node_of(a, d.0) is Some);
        assert(node_of(a, id) == Some(n));
        assert(apply_step(a, inv.last()) == Ok::<Tree, crate::error::ErrorCode>(t));
    }
    assert(inv.len() == 1);
    assert(apply_steps(a, inv.drop_last()) == Ok::<Tree, crate::error::ErrorCode>(a));
    assert(apply_steps(a, inv) == apply_step(a, inv.last()));
}

/// Undoing an operation restores the content and its identities: after any
/// operation that succeeds on valid content, its inverse computed against
/// the content before it exists, and applying it gives that content back.
pub proof fn law_inverse_restores(t: Tree, op: Step)
    requires
        valid(t),
        apply_step(t, op) is Ok,
    ensures
        inverse_of(t, op) is Ok,
        apply_steps(apply_step(t, op)->Ok_0, inverse_of(t, op)->Ok_0) == Ok::<
            Tree,
            crate::error::ErrorCode,
        >(t),
{
    crate::tree_laws::lemma_valid_keyed(t);
    match op {
        Step::Add(id, d) => if d == i64::MIN {
            lemma_add_min_inverse(t, id, d)
        } else {
            lemma_add_inverse(t, id, d)
        },
        Step::Assign(id, v) => lemma_assign_inverse(t, id, v),
        Step::Text(id, ch) => lemma_text_inverse(t, id, ch),
        Step::Delete(id) => lemma_delete_inverse(t, id),
        Step::Insert(pid, s, v) => lemma_insert_inverse(t, pid, s, v),
        Step::Move(id, p2, s2) => lemma_move_inverse(t, id, p2, s2),
    }
}

/// Joining a last group in front of the others, in reverse.
proof fn lemma_rev_flat_push(s: Seq<Seq<Step>>, x: Seq<Step>)
    ensures
        rev_flat(s.push(x)) =~= x + rev_flat(s),
    decreases s.len(),
{
    if s.len() == 0 {
        assert(s.push(x).drop_first() =~= Seq::<Seq<Step>>::empty());
        assert(rev_flat(s.push(x)) == rev_flat(s.push(x).drop_first()) + s.push(x)[0]);
        assert(rev_flat(Seq::<Seq<Step>>::empty()) =~= Seq::<Step>::empty());
    } else {
        assert(s.push(x).drop_first() =~= s.drop_first().push(x));
        lemma_rev_flat_push(s.drop_first(), x);
        assert(s.push(x)[0] == s[0]);
        assert(rev_flat(s.push(x)) == rev_flat(s.drop_first().push(x)) + s[0]);
        assert((x + rev_flat(s.drop_first())) + s[0] =~= x + (rev_flat(s.drop_first()) + s[0]));
    }
}

/// The content that the run of `invert_run` reaches is the content after the
/// operations, and applying the inverse groups from last to first to that
/// content gives `t` back.
proof fn lemma_invert_run_restores(t: Tree, ops: Seq<Step>)
    requires
        valid(t),
        invert_run(t, ops) is Ok,
    ensures
        apply_steps(t, ops) == Ok::<Tree, crate::error::ErrorCode>(invert_run(t, ops)->Ok_0.0),
        apply_steps(invert_run(t, ops)->Ok_0.0, rev_flat(invert_run(t, ops)->Ok_0.1)) == Ok::<
            Tree,
            crate::error::ErrorCode,
        >(t),
    decreases ops.len(),
{
    if ops.len() == 0 {
        assert(rev_flat(Seq::<Seq<Step>>::empty()) =~= Seq::<Step>::empty());
    } else {
        let init = ops.drop_last();
        let op = ops.last();
        lemma_invert_run_restores(t, init);
        let r = invert_run(t, init)->Ok_0;
        let inv = inverse_of(r.0, op)->Ok_0;
        law_changes_keep_content_valid(t, init);
        law_inverse_restores(r.0, op);
        let a = apply_step(r.0, op)->Ok_0;
        lemma_rev_flat_push(r.1, inv);
        law_apply_in_turn(a, inv, rev_flat(r.1));
    }
}

/// Undoing a Change restores the content and every element identity: where
/// a Change succeeds on valid content and its inverse computed against that
/// content exists, applying the inverse to the result gives the content back.
pub proof fn law_invert_restores(t: Tree, ops: Seq<Step>)
    requires
        valid(t),
        invert_spec(t, ops) is Ok,
    ensures
        apply_steps(t, ops) is Ok,
        apply_steps(apply_steps(t, ops)->Ok_0, invert_spec(t, ops)->Ok_0) == Ok::<
            Tree,
            crate::error::ErrorCode,
        >(t),
{
    lemma_invert_run_restores(t, ops);
    let r = invert_run(t, ops)->Ok_0;
    law_changes_keep_content_valid(t, ops);
    crate::operation_compose_law::lemma_canonical_effect(r.0, rev_flat(r.1));
}

/// A Move keeps the moved element with its whole subtree and every identity
/// in it, and puts it at the requested destination.
pub proof fn law_move_keeps_subtree(t: Tree, id: (Seq<u8>, u64), p: (Seq<u8>, u64), s: crate::tree::Slot)
    requires
        valid(t),
        apply_step(t, Step::Move(id, p, s)) is Ok,
    ensures
        node_of(t, id) is Some,
        node_of(apply_step(t, Step::Move(id, p, s))->Ok_0, id) == node_of(t, id),
        crate::tree::destination_of(apply_step(t, Step::Move(id, p, s))->Ok_0, id) == Ok::<
            ((Seq<u8>, u64), crate::tree::Slot),
            crate::error::ErrorCode,
        >((p, s)),
{
    reveal(apply_step);
    crate::tree_laws::lemma_valid_keyed(t);
    let a = apply_step(t, Step::Move(id, p, s))->Ok_0;
    let d = crate::tree::destination_of(t, id)->Ok_0;
    if d != (p, s) {
        crate::structure_laws::lemma_reattach(t, id);
        let x = crate::tree::detach(t, id)->Ok_0;
        assert(a == crate::tree::attach(x.0, p, s, x.1)->Ok_0);
        crate::structure_laws::lemma_detach_attached(x.0, p, s, x.1);
    }
}

/// Canonical form accepts each operation of `ops` on its own.
pub open spec fn accepted_steps(ops: Seq<Step>) -> bool {
    forall|i: int| 0 <= i < ops.len() ==> #[trigger] keeps_step(ops[i]) is Ok
}

/// Canonical form keeps no more operations than it is given.
pub(crate) proof fn lemma_canonical_len(ops: Seq<Step>)
    requires
        canonical_steps(ops) is Ok,
    ensures
        canonical_steps(ops)->Ok_0.len() <= ops.len(),
    decreases ops.len(),
{
    if ops.len() > 0 {
        lemma_canonical_len(ops.drop_last());
    }
}

/// Canonical form succeeds on accepted operations that number at most a
/// million.
pub proof fn lemma_canonical_accepts(ops: Seq<Step>)
    requires
        accepted_steps(ops),
        ops.len() <= 1_000_000,
    ensures
        canonical_steps(ops) is Ok,
    decreases ops.len(),
{
    if ops.len() > 0 {
        let init = ops.drop_last();
        assert forall|i: int| 0 <= i < init.len() implies #[trigger] keeps_step(init[i]) is Ok by {
            assert(init[i] == ops[i]);
        }
        lemma_canonical_accepts(init);
        lemma_canonical_len(init);
        assert(keeps_step(ops[ops.len() - 1]) is Ok);
    }
}

/// An inverse computed against valid content is accepted by canonical form,
/// and has at most two operations.
proof fn lemma_inverse_accepted(t: Tree, op: Step)
    requires
        valid(t),
        inverse_of(t, op) is Ok,
    ensures
        accepted_steps(inverse_of(t, op)->Ok_0),
        inverse_of(t, op)->Ok_0.len() <= 2,
{
    crate::tree_laws::lemma_valid_keyed(t);
    let inv = inverse_of(t, op)->Ok_0;
    match op {
        Step::Delete(id) => {
            lemma_locate_facts(t, id);
            crate::unique_ids::lemma_valid_sub(t, path_to(t, id)->Some_0);
            assert(keeps_step(inv[0]) is Ok);
        },
        Step::Assign(id, _) => {
            lemma_locate_facts(t, id);
            crate::unique_ids::lemma_valid_sub(t, path_to(t, id)->Some_0);
            assert(keeps_step(inv[0]) is Ok);
        },
        _ => {},
    }
}

proof fn lemma_accepted_concat(a: Seq<Step>, b: Seq<Step>)
    requires
        accepted_steps(a),
        accepted_steps(b),
    ensures
        accepted_steps(a + b),
{
    assert forall|i: int| 0 <= i < (a + b).len() implies #[trigger] keeps_step((a + b)[i]) is Ok by {
        if i < a.len() {
            assert((a + b)[i] == a[i]);
        } else {
            assert((a + b)[i] == b[i - a.len()]);
        }
    }
}

/// The run of a Change that applies to valid content gives inverse groups that canonical form accepts, at most two per
/// operation.
proof fn lemma_invert_run_succeeds(t: Tree, ops: Seq<Step>)
    requires
        valid(t),
        apply_steps(t, ops) is Ok,
    ensures
        invert_run(t, ops) is Ok,
        accepted_steps(rev_flat(invert_run(t, ops)->Ok_0.1)),
        rev_flat(invert_run(t, ops)->Ok_0.1).len() <= 2 * ops.len(),
    decreases ops.len(),
{
    if ops.len() == 0 {
        assert(rev_flat(Seq::<Seq<Step>>::empty()) =~= Seq::<Step>::empty());
    } else {
        let init = ops.drop_last();
        let op = ops.last();
        lemma_invert_run_succeeds(t, init);
        lemma_invert_run_restores(t, init);
        let r = invert_run(t, init)->Ok_0;
        law_changes_keep_content_valid(t, init);
        law_inverse_restores(r.0, op);
        let inv = inverse_of(r.0, op)->Ok_0;
        lemma_inverse_accepted(r.0, op);
        lemma_rev_flat_push(r.1, inv);
        lemma_accepted_concat(inv, rev_flat(r.1));
    }
}

/// Inverting a Change that applies to valid content succeeds where it has
/// at most half a million operations.
pub proof fn law_invert_succeeds(t: Tree, ops: Seq<Step>)
    requires
        valid(t),
        apply_steps(t, ops) is Ok,
        ops.len() <= 500_000,
    ensures
        invert_spec(t, ops) is Ok,
{
    lemma_invert_run_succeeds(t, ops);
    lemma_canonical_accepts(rev_flat(invert_run(t, ops)->Ok_0.1));
}

} // verus!
