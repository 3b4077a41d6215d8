//! Facts about finding and replacing elements by identity.
use crate::change::byte_len;
use crate::keys::{key_lt, lemma_key_lt_asymmetric, lemma_key_lt_transitive};
use crate::tree::{
    at_path, is_key_pos, keys_of, kid, kid_count, key_pos, lemma_key_pos_unique, locate,
    locate_among, max_string_bytes, replace_path, slot_index, valid, walk, walk_kids, with_kid,
    Shape, Slot, Tree,
};
use vstd::prelude::*;

verus! {

/// The keys of the Map `t`, if it is one, strictly ascend.
pub open spec fn keys_ascend(t: Tree) -> bool {
    match t.shape {
        Shape::KeyMap(es) => forall|i: int, j: int|
            0 <= i < j < es.len() ==> key_lt(#[trigger] es[i].0, #[trigger] es[j].0),
        _ => true,
    }
}

/// Every Map in `t` holds its keys in strictly ascending order.
pub open spec fn well_keyed(t: Tree) -> bool
    decreases t, 1nat, 0nat,
{
    keys_ascend(t) && kids_keyed(t, kid_count(t))
}

/// The first `k` children of `t` are `well_keyed`.
pub open spec fn kids_keyed(t: Tree, k: nat) -> bool
    decreases t, 0nat, k,
{
    if k == 0 || k > kid_count(t) {
        true
    } else {
        kids_keyed(t, (k - 1) as nat) && match t.shape {
            Shape::List(cs) => well_keyed(cs[k - 1]),
            Shape::KeyMap(es) => well_keyed(es[k - 1].1),
            _ => true,
        }
    }
}

proof fn lemma_kids_keyed(t: Tree, k: nat, i: int)
    requires
        k <= kid_count(t),
        kids_keyed(t, k),
        0 <= i < k,
    ensures
        well_keyed(kid(t, i)),
    decreases k,
{
    if i < k - 1 {
        lemma_kids_keyed(t, (k - 1) as nat, i);
    }
}

/// The slot of the `i`-th child of `t`.
pub open spec fn kid_slot(t: Tree, i: int) -> Slot {
    match t.shape {
        Shape::KeyMap(es) => Slot::Key(es[i].0),
        _ => Slot::Index(i),
    }
}

/// The first hit among the first `k` children is the hit in child `i`, and
/// no child before `i` holds the identity.
pub proof fn lemma_among_hit(t: Tree, k: nat, id: (Seq<u8>, u64)) -> (i: int)
    requires
        locate_among(t, k, id) is Some,
    ensures
        0 <= i < k <= kid_count(t),
        locate(kid(t, i), id) is Some,
        locate_among(t, k, id) == Some(
            (
                seq![kid_slot(t, i)] + locate(kid(t, i), id)->Some_0.0,
                locate(kid(t, i), id)->Some_0.1,
            ),
        ),
        locate_among(t, i as nat, id) is None,
    decreases k,
{
    if locate_among(t, (k - 1) as nat, id) is Some {
        lemma_among_hit(t, (k - 1) as nat, id)
    } else {
        (k - 1) as int
    }
}

/// The search among the first `k` children depends on those children only.
pub proof fn lemma_among_prefix(t: Tree, u: Tree, k: nat, id: (Seq<u8>, u64))
    requires
        k <= kid_count(t),
        k <= kid_count(u),
        t.shape is List ==> u.shape is List,
        t.shape is KeyMap ==> u.shape is KeyMap,
        forall|j: int| 0 <= j < k ==> kid(t, j) == kid(u, j) && kid_slot(t, j) == kid_slot(u, j),
    ensures
        locate_among(t, k, id) == locate_among(u, k, id),
    decreases k,
{
    if k > 0 {
        lemma_among_prefix(t, u, (k - 1) as nat, id);
        assert(kid(t, k - 1) == kid(u, k - 1) && kid_slot(t, k - 1) == kid_slot(u, k - 1));
    }
}

/// In sorted entries, each key is found at its own position.
pub proof fn lemma_sorted_slot(t: Tree, i: int)
    requires
        well_keyed(t),
        0 <= i < kid_count(t),
    ensures
        slot_index(t, kid_slot(t, i)) == Some(i),
{
    if let Shape::KeyMap(es) = t.shape {
        let ks = keys_of(es);
        assert forall|j: int| 0 <= j < i implies key_lt(#[trigger] ks[j], es[i].0) by {
            assert(key_lt(es[j].0, es[i].0));
        }
        lemma_key_lt_asymmetric(es[i].0, es[i].0);
        assert(is_key_pos(es, es[i].0, i));
        lemma_key_pos_unique(es, es[i].0, i);
    }
}

/// A child of a sorted element is sorted, and smaller.
pub proof fn lemma_kid_keyed(t: Tree, i: int)
    requires
        well_keyed(t),
        0 <= i < kid_count(t),
    ensures
        well_keyed(kid(t, i)),
        decreases_to!(t => kid(t, i)),
{
    match t.shape {
        Shape::List(cs) => {
            lemma_kids_keyed(t, kid_count(t), i);
            assert(decreases_to!(t => t.shape));
            assert(decreases_to!(t.shape => cs));
            assert(decreases_to!(cs => cs[i]));
        },
        Shape::KeyMap(es) => {
            lemma_kids_keyed(t, kid_count(t), i);
            assert(decreases_to!(t => t.shape));
            assert(decreases_to!(t.shape => es));
            assert(decreases_to!(es => es[i]));
            assert(decreases_to!(es[i] => es[i].1));
        },
        _ => {},
    }
}

/// The search's path leads to the element found, which has the identity.
pub proof fn lemma_locate_facts(t: Tree, id: (Seq<u8>, u64))
    requires
        well_keyed(t),
        locate(t, id) is Some,
    ensures
        at_path(t, locate(t, id)->Some_0.0) == Some(locate(t, id)->Some_0.1),
        locate(t, id)->Some_0.1.id == id,
        t.id != id ==> locate(t, id)->Some_0.0.len() > 0,
    decreases t,
{
    if t.id != id {
        let i = lemma_among_hit(t, kid_count(t), id);
        lemma_kid_keyed(t, i);
        lemma_locate_facts(kid(t, i), id);
        lemma_sorted_slot(t, i);
        let q = locate(kid(t, i), id)->Some_0.0;
        let p = seq![kid_slot(t, i)] + q;
        assert(p.drop_first() =~= q);
        assert(p[0] == kid_slot(t, i));
    }
}

/// Replacing the element found by an element with the same identity leaves
/// it found at the same path.
pub proof fn lemma_locate_replaced(t: Tree, id: (Seq<u8>, u64), r: Tree)
    requires
        well_keyed(t),
        locate(t, id) is Some,
        r.id == id,
    ensures
        locate(replace_path(t, locate(t, id)->Some_0.0, r), id) == Some(
            (locate(t, id)->Some_0.0, r),
        ),
    decreases t,
{
    if t.id != id {
        let n = kid_count(t);
        let i = lemma_among_hit(t, n, id);
        lemma_kid_keyed(t, i);
        lemma_locate_replaced(kid(t, i), id, r);
        lemma_sorted_slot(t, i);
        let q = locate(kid(t, i), id)->Some_0.0;
        let p = seq![kid_slot(t, i)] + q;
        assert(p.drop_first() =~= q);
        assert(p[0] == kid_slot(t, i));
        let c = replace_path(kid(t, i), q, r);
        let u = replace_path(t, p, r);
        assert(u == with_kid(t, i, c));
        assert(kid_count(u) == n);
        assert forall|j: int| 0 <= j < i implies kid(t, j) == kid(u, j) && kid_slot(t, j) == kid_slot(
            u,
            j,
        ) by {}
        lemma_among_prefix(t, u, i as nat, id);
        assert(kid(u, i) == c);
        assert(kid_slot(u, i) == kid_slot(t, i));
        assert(locate_among(u, (i + 1) as nat, id) == Some((p, r)));
        crate::tree::lemma_among_stable(u, (i + 1) as nat, n, id);
    }
}

/// Replacing at a path twice is replacing once with the second element.
pub proof fn lemma_replace_twice(t: Tree, p: Seq<Slot>, a: Tree, b: Tree)
    requires
        at_path(t, p) is Some,
    ensures
        replace_path(replace_path(t, p, a), p, b) == replace_path(t, p, b),
    decreases p.len(),
{
    if p.len() > 0 {
        let i = slot_index(t, p[0])->Some_0;
        let q = p.drop_first();
        lemma_replace_twice(kid(t, i), q, a, b);
        let c = replace_path(kid(t, i), q, a);
        let u = with_kid(t, i, c);
        match t.shape {
            Shape::List(cs) => {
                assert(cs.update(i, c).update(i, replace_path(c, q, b)) =~= cs.update(
                    i,
                    replace_path(c, q, b),
                ));
            },
            Shape::KeyMap(es) => {
                let es1 = es.update(i, (es[i].0, c));
                assert(keys_of(es1) =~= keys_of(es));
                assert(es1.update(i, (es1[i].0, replace_path(c, q, b))) =~= es.update(
                    i,
                    (es[i].0, replace_path(c, q, b)),
                ));
            },
            _ => {},
        }
        assert(slot_index(u, p[0]) == Some(i));
        assert(kid(u, i) == c);
    }
}

/// Replacing the element at a path by itself changes nothing.
pub proof fn lemma_replace_same(t: Tree, p: Seq<Slot>)
    requires
        at_path(t, p) is Some,
    ensures
        replace_path(t, p, at_path(t, p)->Some_0) == t,
    decreases p.len(),
{
    if p.len() > 0 {
        let i = slot_index(t, p[0])->Some_0;
        let q = p.drop_first();
        lemma_replace_same(kid(t, i), q);
        match t.shape {
            Shape::List(cs) => {
                assert(cs.update(i, cs[i]) =~= cs);
            },
            Shape::KeyMap(es) => {
                assert(es.update(i, (es[i].0, es[i].1)) =~= es);
            },
            _ => {},
        }
    }
}

/// Content that passes the walk has sorted Map keys.
proof fn lemma_walk_keyed(t: Tree, seen: Seq<(Seq<u8>, u64)>, depth: int)
    requires
        walk(t, seen, depth) is Ok,
    ensures
        well_keyed(t),
    decreases t, 1nat, 0nat,
{
    if t.shape is List || t.shape is KeyMap {
        let next = seen.push(t.id);
        lemma_walk_kids_keyed(t, kid_count(t), next, depth + 1);
    }
}

/// Children that pass the walk are sorted, and so are the keys among them.
proof fn lemma_walk_kids_keyed(t: Tree, k: nat, seen: Seq<(Seq<u8>, u64)>, depth: int)
    requires
        k <= kid_count(t),
        walk_kids(t, k, seen, depth) is Ok,
    ensures
        kids_keyed(t, k),
        t.shape matches Shape::KeyMap(es) ==> forall|i: int, j: int|
            0 <= i < j < k ==> key_lt(#[trigger] es[i].0, #[trigger] es[j].0),
    decreases t, 0nat, k,
{
    if k > 0 {
        lemma_walk_kids_keyed(t, (k - 1) as nat, seen, depth);
        let s = walk_kids(t, (k - 1) as nat, seen, depth)->Ok_0;
        match t.shape {
            Shape::List(cs) => {
                assert(decreases_to!(t => t.shape));
                assert(decreases_to!(t.shape => cs));
                assert(decreases_to!(cs => cs[k - 1]));
                lemma_walk_keyed(cs[k - 1], s, depth);
            },
            Shape::KeyMap(es) => {
                assert(decreases_to!(t => t.shape));
                assert(decreases_to!(t.shape => es));
                assert(decreases_to!(es => es[k - 1]));
                assert(decreases_to!(es[k - 1] => es[k - 1].1));
                lemma_walk_keyed(es[k - 1].1, s, depth);
                assert forall|i: int, j: int| 0 <= i < j < k implies key_lt(
                    #[trigger] es[i].0,
                    #[trigger] es[j].0,
                ) by {
                    if j == k - 1 && i < k - 2 {
                        lemma_key_lt_transitive(es[i].0, es[k - 2].0, es[k - 1].0);
                    }
                }
            },
            _ => {},
        }
    }
}

/// Valid content has sorted Map keys.
pub proof fn lemma_valid_keyed(t: Tree)
    requires
        valid(t),
    ensures
        well_keyed(t),
{
    lemma_walk_keyed(t, Seq::empty(), 1);
}

/// Two elements that the walk treats alike: the same identity, and integer
/// content on both sides.
pub open spec fn int_twins(n: Tree, r: Tree) -> bool {
    n.id == r.id && n.shape is Int && r.shape is Int
}

/// Replacing an integer element by another integer element with the same
/// identity does not change the outcome of the walk.
pub proof fn lemma_walk_replace_int(
    t: Tree,
    p: Seq<Slot>,
    r: Tree,
    seen: Seq<(Seq<u8>, u64)>,
    depth: int,
)
    requires
        at_path(t, p) is Some,
        int_twins(at_path(t, p)->Some_0, r),
    ensures
        walk(replace_path(t, p, r), seen, depth) == walk(t, seen, depth),
    decreases p.len(), 1nat, 0nat,
{
    if p.len() > 0 {
        let i = slot_index(t, p[0])->Some_0;
        let c = replace_path(kid(t, i), p.drop_first(), r);
        let u = with_kid(t, i, c);
        assert(replace_path(t, p, r) == u);
        lemma_walk_kids_replace_int(t, p, r, kid_count(t), seen.push(t.id), depth + 1);
    }
}

/// `lemma_walk_replace_int` over the first `k` children.
proof fn lemma_walk_kids_replace_int(
    t: Tree,
    p: Seq<Slot>,
    r: Tree,
    k: nat,
    seen: Seq<(Seq<u8>, u64)>,
    depth: int,
)
    requires
        p.len() > 0,
        at_path(t, p) is Some,
        int_twins(at_path(t, p)->Some_0, r),
        k <= kid_count(t),
    ensures
        walk_kids(replace_path(t, p, r), k, seen, depth) == walk_kids(t, k, seen, depth),
    decreases p.len(), 0nat, k,
{
    let i = slot_index(t, p[0])->Some_0;
    let c = replace_path(kid(t, i), p.drop_first(), r);
    let u = with_kid(t, i, c);
    assert(replace_path(t, p, r) == u);
    if k > 0 {
        lemma_walk_kids_replace_int(t, p, r, (k - 1) as nat, seen, depth);
        match walk_kids(t, (k - 1) as nat, seen, depth) {
            Ok(s) => {
                if k - 1 == i {
                    lemma_walk_replace_int(kid(t, i), p.drop_first(), r, s, depth);
                }
                match t.shape {
                    Shape::List(cs) => {
                        assert(u.shape->List_0[k - 1] == if k - 1 == i { c } else { cs[k - 1] });
                    },
                    Shape::KeyMap(es) => {
                        assert(u.shape->KeyMap_0[k - 1].0 == es[k - 1].0);
                        assert(u.shape->KeyMap_0[k - 1].1 == if k - 1 == i { c } else { es[k - 1].1 });
                        if k >= 2 {
                            assert(u.shape->KeyMap_0[k - 2].0 == es[k - 2].0);
                        }
                    },
                    _ => {},
                }
            },
            Err(_) => {},
        }
    }
}

/// A walk that passes over `k` children passes over each of the first ones.
pub(crate) proof fn lemma_walk_kids_prefix(t: Tree, j: nat, k: nat, seen: Seq<(Seq<u8>, u64)>, depth: int)
    requires
        j < k <= kid_count(t),
        walk_kids(t, k, seen, depth) is Ok,
    ensures
        walk_kids(t, j, seen, depth) is Ok,
        walk(kid(t, j as int), walk_kids(t, j, seen, depth)->Ok_0, depth) is Ok,
    decreases k,
{
    if j + 1 < k {
        lemma_walk_kids_prefix(t, j, (k - 1) as nat, seen, depth);
    }
}

/// Every Text element of content that passes the walk holds at most 16 MiB.
proof fn lemma_walk_text_small(t: Tree, p: Seq<Slot>, seen: Seq<(Seq<u8>, u64)>, depth: int)
    requires
        walk(t, seen, depth) is Ok,
        at_path(t, p) matches Some(n) && n.shape is Text,
    ensures
        byte_len(at_path(t, p)->Some_0.shape->Text_0) <= max_string_bytes(),
    decreases p.len(),
{
    if p.len() > 0 {
        let i = slot_index(t, p[0])->Some_0;
        let next = seen.push(t.id);
        lemma_walk_kids_prefix(t, i as nat, kid_count(t), next, depth + 1);
        lemma_walk_text_small(kid(t, i), p.drop_first(), walk_kids(t, i as nat, next, depth + 1)->Ok_0, depth + 1);
    }
}

/// Every Text element of valid content holds at most 16 MiB.
pub proof fn lemma_valid_text_small(t: Tree, p: Seq<Slot>)
    requires
        valid(t),
        at_path(t, p) matches Some(n) && n.shape is Text,
    ensures
        byte_len(at_path(t, p)->Some_0.shape->Text_0) <= max_string_bytes(),
{
    lemma_walk_text_small(t, p, Seq::empty(), 1);
}

/// Replacing an element by one with the same identity keeps the root's identity.
pub proof fn lemma_replace_root(t: Tree, p: Seq<Slot>, r: Tree)
    requires
        at_path(t, p) is Some,
        r.id == at_path(t, p)->Some_0.id,
    ensures
        replace_path(t, p, r).id == t.id,
{
}

} // verus!
