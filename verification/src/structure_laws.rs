//! Detaching and attaching owning elements undo each other.
use crate::error::ErrorCode;
use crate::keys::{key_lt, lemma_key_lt_asymmetric};
use crate::tree::{
    kid_count, locate_among, with_kid, lemma_among_stable, at_path, attach, destination_of, detach, is_key_pos, is_key_pos_in, keys_of, kid, key_pos,
    lemma_key_pos_unique, locate, node_of, path_to, replace_path, slot_index, valid,
    without_kid, Shape, Slot, Tree,
};
use crate::tree_laws::{
    keys_ascend, kids_keyed, kid_slot, lemma_among_hit, lemma_kid_keyed, lemma_locate_facts, lemma_locate_replaced, lemma_replace_same,
    lemma_replace_twice, lemma_sorted_slot, lemma_valid_keyed, well_keyed,
};
use crate::unique_ids::{lemma_at_path_keyed, lemma_at_path_push, lemma_valid_locate};
use vstd::prelude::*;

verus! {

/// Some position is where `k` is, or would go, among any keys.
proof fn lemma_key_pos_exists(ks: Seq<Seq<char>>, k: Seq<char>)
    ensures
        exists|i: int| is_key_pos_in(ks, k, i),
    decreases ks.len(),
{
    if ks.len() == 0 {
        assert(is_key_pos_in(ks, k, 0));
    } else {
        let init = ks.drop_last();
        lemma_key_pos_exists(init, k);
        let i0 = choose|i: int| is_key_pos_in(init, k, i);
        assert forall|j: int| 0 <= j < i0 implies key_lt(#[trigger] ks[j], k) by {
            assert(ks[j] == init[j]);
        }
        if i0 < init.len() {
            assert(ks[i0] == init[i0]);
            assert(is_key_pos_in(ks, k, i0));
        } else if !key_lt(ks.last(), k) {
            assert(is_key_pos_in(ks, k, i0));
        } else {
            assert forall|j: int| 0 <= j < ks.len() implies key_lt(#[trigger] ks[j], k) by {
                if j < init.len() {
                    assert(ks[j] == init[j]);
                }
            }
            assert(is_key_pos_in(ks, k, ks.len() as int));
        }
    }
}

/// `key_pos` lies within the entries and their end.
proof fn lemma_key_pos_range(es: Seq<(Seq<char>, Tree)>, k: Seq<char>)
    ensures
        is_key_pos(es, k, key_pos(es, k)),
        0 <= key_pos(es, k) <= es.len(),
{
    lemma_key_pos_exists(keys_of(es), k);
}

/// Putting a detached element back where it was restores the content.
pub proof fn lemma_reattach(t: Tree, id: (Seq<u8>, u64))
    requires
        valid(t),
        detach(t, id) is Ok,
    ensures
        destination_of(t, id) is Ok,
        node_of(t, id) is Some,
        detach(t, id)->Ok_0.1 == node_of(t, id)->Some_0,
        node_of(t, id)->Some_0.id == id,
        well_keyed(detach(t, id)->Ok_0.0),
        detach(t, id)->Ok_0.0.id == t.id,
        node_of(node_of(t, id)->Some_0, destination_of(t, id)->Ok_0.0) is None,
        attach(detach(t, id)->Ok_0.0, destination_of(t, id)->Ok_0.0, destination_of(t, id)->Ok_0.1, detach(t, id)->Ok_0.1)
            == Ok::<Tree, ErrorCode>(t),
{
    lemma_valid_keyed(t);
    lemma_locate_facts(t, id);
    let p = path_to(t, id)->Some_0;
    let n = node_of(t, id)->Some_0;
    let q = p.drop_last();
    let s = p.last();
    let par = at_path(t, q)->Some_0;
    let pid = par.id;
    assert(p =~= q.push(s));
    lemma_at_path_push(t, q, s);
    let i = slot_index(par, s)->Some_0;
    assert(kid(par, i) == n);
    lemma_valid_locate(t, q);
    assert(node_of(t, pid) == Some(par));
    assert(path_to(t, pid) == Some(q));
    let w = without_kid(par, i);
    let t1 = replace_path(t, q, w);
    assert(detach(t, id) == Ok::<(Tree, Tree), ErrorCode>((t1, n)));
    lemma_locate_replaced(t, pid, w);
    assert(node_of(t1, pid) == Some(w));
    lemma_at_path_keyed(t, q);
    lemma_without_kid_keyed(par, i);
    lemma_replace_keyed(t, q, w);
    crate::tree_laws::lemma_replace_root(t, q, w);
    if locate(n, pid) is Some {
        lemma_at_path_keyed(t, p);
        lemma_locate_facts(n, pid);
        let r = locate(n, pid)->Some_0.0;
        lemma_at_path_concat(t, p, r);
        lemma_valid_locate(t, p + r);
        assert((p + r).len() > q.len());
    }
    assert(path_to(t1, pid) == Some(q));
    lemma_at_path_keyed(t, q);
    lemma_replace_twice(t, q, w, par);
    lemma_replace_same(t, q);
    match par.shape {
        Shape::List(cs) => {
            assert(cs.remove(i).insert(i, n) =~= cs);
        },
        Shape::KeyMap(es) => {
            let k = es[i].0;
            let es1 = es.remove(i);
            assert(keys_ascend(par));
            assert forall|j: int| 0 <= j < i implies key_lt(#[trigger] keys_of(es1)[j], k) by {
                assert(keys_of(es1)[j] == es[j].0);
            }
            if i < es1.len() {
                assert(keys_of(es1)[i] == es[i + 1].0);
                assert(key_lt(es[i].0, es[i + 1].0));
                lemma_key_lt_asymmetric(k, es[i + 1].0);
            }
            assert(is_key_pos(es1, k, i));
            lemma_key_pos_unique(es1, k, i);
            assert(slot_index(w, s) is None);
            assert(es1.insert(i, (k, n)) =~= es);
        },
        _ => {},
    }
}

/// An attached element is found at the slot it was attached to, and
/// detaching it restores the content.
pub proof fn lemma_detach_attached(t: Tree, pid: (Seq<u8>, u64), s: Slot, v: Tree)
    requires
        well_keyed(t),
        attach(t, pid, s, v) is Ok,
        valid(attach(t, pid, s, v)->Ok_0),
    ensures
        destination_of(attach(t, pid, s, v)->Ok_0, v.id) == Ok::<((Seq<u8>, u64), Slot), ErrorCode>((pid, s)),
        detach(attach(t, pid, s, v)->Ok_0, v.id) == Ok::<(Tree, Tree), ErrorCode>((t, v)),
        node_of(attach(t, pid, s, v)->Ok_0, v.id) == Some(v),
        valid(v),
        attach(t, pid, s, v)->Ok_0.id == t.id,
{
    let a = attach(t, pid, s, v)->Ok_0;
    lemma_valid_keyed(a);
    lemma_locate_facts(t, pid);
    let par = node_of(t, pid)->Some_0;
    let q0 = path_to(t, pid)->Some_0;
    let par1 = match par.shape {
        Shape::KeyMap(es) => Tree {
            id: pid,
            shape: Shape::KeyMap(es.insert(key_pos(es, s->Key_0), (s->Key_0, v))),
        },
        Shape::List(cs) => Tree { id: pid, shape: Shape::List(cs.insert(s->Index_0, v)) },
        _ => par,
    };
    assert(a == replace_path(t, q0, par1));
    lemma_locate_replaced(t, pid, par1);
    lemma_locate_facts(a, pid);
    assert(at_path(a, q0) == Some(par1));
    lemma_at_path_keyed(a, q0);
    let idx: int = match par.shape {
        Shape::KeyMap(es) => key_pos(es, s->Key_0),
        _ => s->Index_0,
    };
    match par.shape {
        Shape::KeyMap(es) => {
            lemma_key_pos_range(es, s->Key_0);
            assert(kid_slot(par1, idx) == s);
            lemma_sorted_slot(par1, idx);
            assert(es.insert(idx, (s->Key_0, v)).remove(idx) =~= es);
        },
        Shape::List(cs) => {
            assert(cs.insert(idx, v).remove(idx) =~= cs);
        },
        _ => {},
    }
    assert(slot_index(par1, s) == Some(idx));
    assert(kid(par1, idx) == v);
    assert(without_kid(par1, idx) == par);
    lemma_at_path_push(a, q0, s);
    lemma_valid_locate(a, q0.push(s));
    crate::unique_ids::lemma_valid_sub(a, q0.push(s));
    assert(q0.push(s).drop_last() =~= q0);
    assert(locate(a, pid) == Some((q0, par1)));
    lemma_replace_twice(t, q0, par1, par);
    lemma_replace_same(t, q0);
    crate::tree_laws::lemma_replace_root(t, q0, par1);
}

/// Children that are all sorted make `kids_keyed` hold.
proof fn lemma_kids_keyed_from(t: Tree, k: nat)
    requires
        k <= kid_count(t),
        forall|j: int| 0 <= j < k ==> well_keyed(#[trigger] kid(t, j)),
    ensures
        kids_keyed(t, k),
    decreases k,
{
    if k > 0 {
        lemma_kids_keyed_from(t, (k - 1) as nat);
        assert(well_keyed(kid(t, k - 1)));
    }
}

/// Replacing an element of sorted content by a sorted element keeps it sorted.
pub proof fn lemma_replace_keyed(t: Tree, q: Seq<Slot>, r: Tree)
    requires
        well_keyed(t),
        well_keyed(r),
        at_path(t, q) is Some,
    ensures
        well_keyed(replace_path(t, q, r)),
    decreases q.len(),
{
    if q.len() > 0 {
        let i = slot_index(t, q[0])->Some_0;
        let c = replace_path(kid(t, i), q.drop_first(), r);
        lemma_kid_keyed(t, i);
        lemma_replace_keyed(kid(t, i), q.drop_first(), r);
        let u = with_kid(t, i, c);
        assert(kid_count(u) == kid_count(t));
        assert forall|j: int| 0 <= j < kid_count(u) implies well_keyed(#[trigger] kid(u, j)) by {
            if j != i {
                lemma_kid_keyed(t, j);
            }
        }
        lemma_kids_keyed_from(u, kid_count(u));
        if let Shape::KeyMap(es) = t.shape {
            let es1 = u.shape->KeyMap_0;
            assert forall|a: int, b: int| 0 <= a < b < es1.len() implies key_lt(
                #[trigger] es1[a].0,
                #[trigger] es1[b].0,
            ) by {
                assert(es1[a].0 == es[a].0 && es1[b].0 == es[b].0);
            }
        }
    }
}

/// Removing a child of a sorted element keeps it sorted.
pub proof fn lemma_without_kid_keyed(t: Tree, i: int)
    requires
        well_keyed(t),
        0 <= i < kid_count(t),
    ensures
        well_keyed(without_kid(t, i)),
{
    let w = without_kid(t, i);
    assert(kid_count(w) == kid_count(t) - 1);
    assert forall|j: int| 0 <= j < kid_count(w) implies well_keyed(#[trigger] kid(w, j)) by {
        if j < i {
            lemma_kid_keyed(t, j);
            assert(kid(w, j) == kid(t, j));
        } else {
            lemma_kid_keyed(t, j + 1);
            assert(kid(w, j) == kid(t, j + 1));
        }
    }
    lemma_kids_keyed_from(w, kid_count(w));
    if let Shape::KeyMap(es) = t.shape {
        let es1 = es.remove(i);
        assert forall|a: int, b: int| 0 <= a < b < es1.len() implies key_lt(
            #[trigger] es1[a].0,
            #[trigger] es1[b].0,
        ) by {
            let a1 = if a < i { a } else { a + 1 };
            let b1 = if b < i { b } else { b + 1 };
            assert(es1[a] == es[a1] && es1[b] == es[b1]);
        }
    }
}

/// An element that holds what one of its children holds.
pub proof fn lemma_kid_holds(t: Tree, j: int, x: (Seq<u8>, u64))
    requires
        0 <= j < kid_count(t),
        locate(kid(t, j), x) is Some,
    ensures
        locate(t, x) is Some,
{
    if t.id != x {
        assert(locate_among(t, (j + 1) as nat, x) is Some);
        lemma_among_stable(t, (j + 1) as nat, kid_count(t), x);
    }
}

/// Content holds what each of its elements holds.
pub proof fn lemma_path_holds(t: Tree, q: Seq<Slot>, x: (Seq<u8>, u64))
    requires
        at_path(t, q) is Some,
        locate(at_path(t, q)->Some_0, x) is Some,
    ensures
        locate(t, x) is Some,
    decreases q.len(),
{
    if q.len() > 0 {
        let i = slot_index(t, q[0])->Some_0;
        lemma_path_holds(kid(t, i), q.drop_first(), x);
        lemma_kid_holds(t, i, x);
    }
}

/// What content holds after a replacement, it held before or the
/// replacement holds.
pub proof fn lemma_replaced_holds(t: Tree, q: Seq<Slot>, r: Tree, x: (Seq<u8>, u64))
    requires
        at_path(t, q) is Some,
        locate(replace_path(t, q, r), x) is Some,
    ensures
        locate(t, x) is Some || locate(r, x) is Some,
    decreases q.len(),
{
    if q.len() > 0 {
        let i = slot_index(t, q[0])->Some_0;
        let c = replace_path(kid(t, i), q.drop_first(), r);
        let u = with_kid(t, i, c);
        assert(replace_path(t, q, r) == u);
        if u.id != x {
            let j = lemma_among_hit(u, kid_count(u), x);
            if j == i {
                assert(kid(u, i) == c);
                lemma_replaced_holds(kid(t, i), q.drop_first(), r, x);
                if locate(kid(t, i), x) is Some {
                    lemma_kid_holds(t, i, x);
                }
            } else {
                assert(kid(u, j) == kid(t, j));
                lemma_kid_holds(t, j, x);
            }
        }
    }
}

/// An element without one child holds only what it held.
pub proof fn lemma_without_kid_holds(t: Tree, i: int, x: (Seq<u8>, u64))
    requires
        0 <= i < kid_count(t),
        locate(without_kid(t, i), x) is Some,
    ensures
        locate(t, x) is Some,
{
    let w = without_kid(t, i);
    if w.id != x {
        let j = lemma_among_hit(w, kid_count(w), x);
        if j < i {
            assert(kid(w, j) == kid(t, j));
            lemma_kid_holds(t, j, x);
        } else {
            assert(kid(w, j) == kid(t, j + 1));
            lemma_kid_holds(t, j + 1, x);
        }
    }
}

/// Following a joined path is following its parts in turn.
pub proof fn lemma_at_path_concat(t: Tree, a: Seq<Slot>, b: Seq<Slot>)
    ensures
        at_path(t, a + b) == match at_path(t, a) {
            Some(m) => at_path(m, b),
            None => None,
        },
    decreases a.len(),
{
    if a.len() == 0 {
        assert(a + b =~= b);
    } else {
        assert((a + b).drop_first() =~= a.drop_first() + b);
        assert((a + b)[0] == a[0]);
        if let Some(i) = slot_index(t, a[0]) {
            lemma_at_path_concat(kid(t, i), a.drop_first(), b);
        }
    }
}

/// What content holds after an attachment, it held before or the attached
/// element holds.
pub proof fn lemma_attach_holds(t: Tree, pid: (Seq<u8>, u64), s: Slot, v: Tree, x: (Seq<u8>, u64))
    requires
        well_keyed(t),
        attach(t, pid, s, v) is Ok,
        locate(attach(t, pid, s, v)->Ok_0, x) is Some,
        locate(v, x) is None,
    ensures
        locate(t, x) is Some,
{
    let a = attach(t, pid, s, v)->Ok_0;
    lemma_locate_facts(t, pid);
    let par = node_of(t, pid)->Some_0;
    let q0 = path_to(t, pid)->Some_0;
    let par1 = match par.shape {
        Shape::KeyMap(es) => Tree {
            id: pid,
            shape: Shape::KeyMap(es.insert(key_pos(es, s->Key_0), (s->Key_0, v))),
        },
        Shape::List(cs) => Tree { id: pid, shape: Shape::List(cs.insert(s->Index_0, v)) },
        _ => par,
    };
    assert(a == replace_path(t, q0, par1));
    lemma_replaced_holds(t, q0, par1, x);
    if locate(t, x) is None {
        assert(locate(par1, x) is Some);
        if par1.id == x {
            assert(par.id == x);
            lemma_path_holds(t, q0, x);
        } else {
            let idx: int = match par.shape {
                Shape::KeyMap(es) => key_pos(es, s->Key_0),
                _ => s->Index_0,
            };
            if let Shape::KeyMap(es) = par.shape {
                lemma_key_pos_range(es, s->Key_0);
            }
            let j = lemma_among_hit(par1, kid_count(par1), x);
            if j < idx {
                assert(kid(par1, j) == kid(par, j));
                lemma_kid_holds(par, j, x);
                lemma_path_holds(t, q0, x);
            } else if j > idx {
                assert(kid(par1, j) == kid(par, j - 1));
                lemma_kid_holds(par, j - 1, x);
                lemma_path_holds(t, q0, x);
            } else {
                assert(kid(par1, j) == v);
            }
        }
    }
}

} // verus!
