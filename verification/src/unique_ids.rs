//! In valid content each identity names one element: the search by identity
//! finds the element at its path.
use crate::tree::{at_path, kid, kid_count, lemma_among_stable, locate, locate_among, slot_index, walk, walk_kids, Shape, Slot, Tree};
use crate::tree_laws::{
    kid_slot, lemma_kid_keyed, lemma_locate_facts, lemma_walk_kids_prefix,
    well_keyed,
};
use vstd::prelude::*;

verus! {

/// The walk only adds identities to those already seen.
proof fn lemma_walk_grows(t: Tree, seen: Seq<(Seq<u8>, u64)>, depth: int)
    requires
        walk(t, seen, depth) is Ok,
    ensures
        forall|x: (Seq<u8>, u64)| seen.contains(x) ==> walk(t, seen, depth)->Ok_0.contains(x),
    decreases t, 1nat, 0nat,
{
    let next = seen.push(t.id);
    assert forall|x: (Seq<u8>, u64)| seen.contains(x) implies next.contains(x) by {
        let j = choose|j: int| 0 <= j < seen.len() && seen[j] == x;
        assert(next[j] == x);
    }
    if t.shape is List || t.shape is KeyMap {
        lemma_walk_kids_grows(t, kid_count(t), next, depth + 1);
    }
}

/// The walk over children only adds identities to those already seen.
proof fn lemma_walk_kids_grows(t: Tree, k: nat, seen: Seq<(Seq<u8>, u64)>, depth: int)
    requires
        k <= kid_count(t),
        walk_kids(t, k, seen, depth) is Ok,
    ensures
        forall|x: (Seq<u8>, u64)| seen.contains(x) ==> walk_kids(t, k, seen, depth)->Ok_0.contains(x),
    decreases t, 0nat, k,
{
    if k > 0 {
        lemma_walk_kids_grows(t, (k - 1) as nat, seen, depth);
        let s = walk_kids(t, (k - 1) as nat, seen, depth)->Ok_0;
        match t.shape {
            Shape::List(cs) => {
                assert(decreases_to!(t => t.shape));
                assert(decreases_to!(t.shape => cs));
                assert(decreases_to!(cs => cs[k - 1]));
                lemma_walk_grows(cs[k - 1], s, depth);
            },
            Shape::KeyMap(es) => {
                assert(decreases_to!(t => t.shape));
                assert(decreases_to!(t.shape => es));
                assert(decreases_to!(es => es[k - 1]));
                assert(decreases_to!(es[k - 1] => es[k - 1].1));
                lemma_walk_grows(es[k - 1].1, s, depth);
            },
            _ => {},
        }
    }
}

/// Walking more children only adds identities.
proof fn lemma_walk_kids_mono(t: Tree, j: nat, k: nat, seen: Seq<(Seq<u8>, u64)>, depth: int)
    requires
        j <= k <= kid_count(t),
        walk_kids(t, k, seen, depth) is Ok,
    ensures
        walk_kids(t, j, seen, depth) is Ok,
        forall|x: (Seq<u8>, u64)|
            walk_kids(t, j, seen, depth)->Ok_0.contains(x) ==> walk_kids(t, k, seen, depth)->Ok_0.contains(x),
    decreases k,
{
    if j < k {
        lemma_walk_kids_mono(t, j, (k - 1) as nat, seen, depth);
        lemma_walk_kids_prefix(t, (k - 1) as nat, k, seen, depth);
        let s = walk_kids(t, (k - 1) as nat, seen, depth)->Ok_0;
        lemma_walk_grows(kid(t, k - 1), s, depth);
        assert(walk_kids(t, k, seen, depth) == walk(kid(t, k - 1), s, depth));
    }
}

/// An element at a path of walked content was not seen before the walk, and
/// is seen after it; below the root it differs from the root.
pub proof fn lemma_walk_sees(t: Tree, q: Seq<Slot>, seen: Seq<(Seq<u8>, u64)>, depth: int)
    requires
        walk(t, seen, depth) is Ok,
        at_path(t, q) is Some,
    ensures
        !seen.contains(at_path(t, q)->Some_0.id),
        walk(t, seen, depth)->Ok_0.contains(at_path(t, q)->Some_0.id),
        q.len() > 0 ==> at_path(t, q)->Some_0.id != t.id,
    decreases q.len(),
{
    let next = seen.push(t.id);
    lemma_walk_grows(t, seen, depth);
    assert(next[seen.len() as int] == t.id);
    assert(next.contains(t.id));
    if t.shape is List || t.shape is KeyMap {
        lemma_walk_kids_grows(t, kid_count(t), next, depth + 1);
        assert(walk(t, seen, depth) == walk_kids(t, kid_count(t), next, depth + 1));
    }
    if q.len() > 0 {
        let i = slot_index(t, q[0])->Some_0;
        let n = kid_count(t);
        let id = at_path(t, q)->Some_0.id;
        lemma_walk_kids_prefix(t, i as nat, n, next, depth + 1);
        let si = walk_kids(t, i as nat, next, depth + 1)->Ok_0;
        lemma_walk_sees(kid(t, i), q.drop_first(), si, depth + 1);
        lemma_walk_kids_grows(t, i as nat, next, depth + 1);
        assert(next.contains(t.id));
        assert forall|x: (Seq<u8>, u64)| seen.contains(x) implies next.contains(x) by {
            let j = choose|j: int| 0 <= j < seen.len() && seen[j] == x;
            assert(next[j] == x);
        }
        lemma_walk_kids_mono(t, (i + 1) as nat, n, next, depth + 1);
        assert(walk_kids(t, (i + 1) as nat, next, depth + 1) == walk(kid(t, i), si, depth + 1));
    }
}

/// With no hit in any of the first `k` children, the search among them fails.
proof fn lemma_among_none(t: Tree, k: nat, id: (Seq<u8>, u64))
    requires
        k <= kid_count(t),
        forall|j: int| 0 <= j < k ==> #[trigger] locate(kid(t, j), id) is None,
    ensures
        locate_among(t, k, id) is None,
    decreases k,
{
    if k > 0 {
        lemma_among_none(t, (k - 1) as nat, id);
        assert(locate(kid(t, k - 1), id) is None);
    }
}

/// In walked content with sorted keys, the search by identity finds each
/// element at its path.
pub proof fn lemma_unique_locate(t: Tree, q: Seq<Slot>, seen: Seq<(Seq<u8>, u64)>, depth: int)
    requires
        walk(t, seen, depth) is Ok,
        well_keyed(t),
        at_path(t, q) is Some,
    ensures
        locate(t, at_path(t, q)->Some_0.id) == Some((q, at_path(t, q)->Some_0)),
    decreases q.len(),
{
    let m = at_path(t, q)->Some_0;
    let id = m.id;
    if q.len() == 0 {
    } else {
        lemma_walk_sees(t, q, seen, depth);
        let next = seen.push(t.id);
        let i = slot_index(t, q[0])->Some_0;
        let n = kid_count(t);
        let q1 = q.drop_first();
        lemma_walk_kids_prefix(t, i as nat, n, next, depth + 1);
        let si = walk_kids(t, i as nat, next, depth + 1)->Ok_0;
        lemma_kid_keyed(t, i);
        lemma_walk_sees(kid(t, i), q1, si, depth + 1);
        lemma_unique_locate(kid(t, i), q1, si, depth + 1);
        assert forall|j: int| 0 <= j < i implies #[trigger] locate(kid(t, j), id) is None by {
            if locate(kid(t, j), id) is Some {
                lemma_kid_keyed(t, j);
                lemma_locate_facts(kid(t, j), id);
                let qj = locate(kid(t, j), id)->Some_0.0;
                lemma_walk_kids_prefix(t, j as nat, n, next, depth + 1);
                let sj = walk_kids(t, j as nat, next, depth + 1)->Ok_0;
                lemma_walk_sees(kid(t, j), qj, sj, depth + 1);
                lemma_walk_kids_mono(t, (j + 1) as nat, n, next, depth + 1);
                assert(walk_kids(t, (j + 1) as nat, next, depth + 1) == walk(kid(t, j), sj, depth + 1));
                lemma_walk_kids_mono(t, (j + 1) as nat, i as nat, next, depth + 1);
            }
        }
        lemma_among_none(t, i as nat, id);
        assert(kid_slot(t, i) == q[0]);
        assert(q =~= seq![q[0]] + q1);
        assert(locate_among(t, (i + 1) as nat, id) == Some((q, m)));
        lemma_among_stable(t, (i + 1) as nat, n, id);
    }
}

/// In valid content, the search by identity finds each element at its path.
pub proof fn lemma_valid_locate(t: Tree, q: Seq<Slot>)
    requires
        crate::tree::valid(t),
        at_path(t, q) is Some,
    ensures
        locate(t, at_path(t, q)->Some_0.id) == Some((q, at_path(t, q)->Some_0)),
{
    crate::tree_laws::lemma_valid_keyed(t);
    lemma_unique_locate(t, q, Seq::empty(), 1);
}

/// A path with one more step leads to a child of the element at the path.
pub proof fn lemma_at_path_push(t: Tree, q: Seq<Slot>, s: Slot)
    ensures
        at_path(t, q.push(s)) == match at_path(t, q) {
            Some(n) => match slot_index(n, s) {
                Some(i) => Some(kid(n, i)),
                None => None,
            },
            None => None,
        },
    decreases q.len(),
{
    if q.len() == 0 {
        assert(q.push(s) =~= seq![s]);
        assert(seq![s].drop_first() =~= Seq::<Slot>::empty());
        assert(at_path(t, q) == Some(t));
        if let Some(i) = slot_index(t, s) {
            assert(at_path(kid(t, i), Seq::<Slot>::empty()) == Some(kid(t, i)));
            assert(at_path(t, seq![s]) == at_path(kid(t, i), seq![s].drop_first()));
        }
    } else {
        assert(q.push(s).drop_first() =~= q.drop_first().push(s));
        assert(q.push(s)[0] == q[0]);
        if let Some(i) = slot_index(t, q[0]) {
            lemma_at_path_push(kid(t, i), q.drop_first(), s);
        }
    }
}

/// Every element of content with sorted keys has sorted keys.
pub proof fn lemma_at_path_keyed(t: Tree, q: Seq<Slot>)
    requires
        well_keyed(t),
        at_path(t, q) is Some,
    ensures
        well_keyed(at_path(t, q)->Some_0),
    decreases q.len(),
{
    if q.len() > 0 {
        let i = slot_index(t, q[0])->Some_0;
        lemma_kid_keyed(t, i);
        lemma_at_path_keyed(kid(t, i), q.drop_first());
    }
}

/// The identities of `t` in walk order: the element, then its children's.
pub open spec fn walk_ids(t: Tree) -> Seq<(Seq<u8>, u64)>
    decreases t, 1nat, 0nat,
{
    seq![t.id] + kids_ids(t, kid_count(t))
}

/// The identities of the first `k` children of `t` in walk order.
pub open spec fn kids_ids(t: Tree, k: nat) -> Seq<(Seq<u8>, u64)>
    decreases t, 0nat, k,
{
    if k == 0 || k > kid_count(t) {
        Seq::empty()
    } else {
        kids_ids(t, (k - 1) as nat) + match t.shape {
            Shape::List(cs) => walk_ids(cs[k - 1]),
            Shape::KeyMap(es) => walk_ids(es[k - 1].1),
            _ => Seq::empty(),
        }
    }
}

/// Every identity of `small` is one of `big`, and `small` is no longer.
pub open spec fn covered(small: Seq<(Seq<u8>, u64)>, big: Seq<(Seq<u8>, u64)>) -> bool {
    small.len() <= big.len() && forall|x: (Seq<u8>, u64)| small.contains(x) ==> big.contains(x)
}

proof fn lemma_covered_append(a: Seq<(Seq<u8>, u64)>, b: Seq<(Seq<u8>, u64)>, x: Seq<(Seq<u8>, u64)>)
    requires
        covered(a, b),
    ensures
        covered(a + x, b + x),
{
    assert forall|y: (Seq<u8>, u64)| (a + x).contains(y) implies (b + x).contains(y) by {
        let j = choose|j: int| 0 <= j < (a + x).len() && (a + x)[j] == y;
        if j < a.len() {
            assert(a[j] == y);
            assert(a.contains(y));
            let k = choose|k: int| 0 <= k < b.len() && b[k] == y;
            assert((b + x)[k] == y);
        } else {
            assert((b + x)[b.len() + (j - a.len())] == y);
        }
    }
}

/// A walk that passes from `seen` at `depth` also passes from fewer seen
/// identities at a smaller depth, and adds the same identities.
proof fn lemma_walk_from_less(
    t: Tree,
    seen: Seq<(Seq<u8>, u64)>,
    depth: int,
    less: Seq<(Seq<u8>, u64)>,
    d: int,
)
    requires
        walk(t, seen, depth) is Ok,
        covered(less, seen),
        d <= depth,
    ensures
        walk(t, seen, depth) == Ok::<Seq<(Seq<u8>, u64)>, crate::error::ErrorCode>(seen + walk_ids(t)),
        walk(t, less, d) == Ok::<Seq<(Seq<u8>, u64)>, crate::error::ErrorCode>(less + walk_ids(t)),
    decreases t, 1nat, 0nat,
{
    let next = seen.push(t.id);
    let lnext = less.push(t.id);
    lemma_covered_append(less, seen, seq![t.id]);
    assert(next =~= seen + seq![t.id]);
    assert(lnext =~= less + seq![t.id]);
    lemma_walk_kids_from_less(t, kid_count(t), next, depth + 1, lnext, d + 1);
    let ks = kids_ids(t, kid_count(t));
    assert(seen + walk_ids(t) =~= next + ks);
    assert(less + walk_ids(t) =~= lnext + ks);
    if !(t.shape is List || t.shape is KeyMap) {
        assert(ks =~= Seq::<(Seq<u8>, u64)>::empty());
    }
}

/// `lemma_walk_from_less` over the first `k` children.
proof fn lemma_walk_kids_from_less(
    t: Tree,
    k: nat,
    seen: Seq<(Seq<u8>, u64)>,
    depth: int,
    less: Seq<(Seq<u8>, u64)>,
    d: int,
)
    requires
        k <= kid_count(t),
        (t.shape is List || t.shape is KeyMap) ==> walk_kids(t, k, seen, depth) is Ok,
        covered(less, seen),
        d <= depth,
    ensures
        (t.shape is List || t.shape is KeyMap) ==> walk_kids(t, k, seen, depth) == Ok::<
            Seq<(Seq<u8>, u64)>,
            crate::error::ErrorCode,
        >(seen + kids_ids(t, k)),
        (t.shape is List || t.shape is KeyMap) ==> walk_kids(t, k, less, d) == Ok::<
            Seq<(Seq<u8>, u64)>,
            crate::error::ErrorCode,
        >(less + kids_ids(t, k)),
    decreases t, 0nat, k,
{
    if k == 0 {
        assert(seen + kids_ids(t, k) =~= seen);
        assert(less + kids_ids(t, k) =~= less);
    } else if t.shape is List || t.shape is KeyMap {
        lemma_walk_kids_from_less(t, (k - 1) as nat, seen, depth, less, d);
        let ks = kids_ids(t, (k - 1) as nat);
        let s = seen + ks;
        let l = less + ks;
        lemma_covered_append(less, seen, ks);
        match t.shape {
            Shape::List(cs) => {
                assert(decreases_to!(t => t.shape));
                assert(decreases_to!(t.shape => cs));
                assert(decreases_to!(cs => cs[k - 1]));
                lemma_walk_from_less(cs[k - 1], s, depth, l, d);
                assert(s + walk_ids(cs[k - 1]) =~= seen + kids_ids(t, k));
                assert(l + walk_ids(cs[k - 1]) =~= less + kids_ids(t, k));
            },
            Shape::KeyMap(es) => {
                assert(decreases_to!(t => t.shape));
                assert(decreases_to!(t.shape => es));
                assert(decreases_to!(es => es[k - 1]));
                assert(decreases_to!(es[k - 1] => es[k - 1].1));
                lemma_walk_from_less(es[k - 1].1, s, depth, l, d);
                assert(s + walk_ids(es[k - 1].1) =~= seen + kids_ids(t, k));
                assert(l + walk_ids(es[k - 1].1) =~= less + kids_ids(t, k));
            },
            _ => {},
        }
    }
}

/// Every element of walked content passes the walk on its own.
proof fn lemma_walk_sub(t: Tree, q: Seq<Slot>, seen: Seq<(Seq<u8>, u64)>, depth: int)
    requires
        walk(t, seen, depth) is Ok,
        at_path(t, q) is Some,
        depth >= 1,
    ensures
        walk(at_path(t, q)->Some_0, Seq::empty(), 1) is Ok,
    decreases q.len(),
{
    if q.len() == 0 {
        lemma_walk_from_less(t, seen, depth, Seq::empty(), 1);
    } else {
        let i = slot_index(t, q[0])->Some_0;
        let next = seen.push(t.id);
        lemma_walk_kids_prefix(t, i as nat, kid_count(t), next, depth + 1);
        lemma_walk_sub(kid(t, i), q.drop_first(), walk_kids(t, i as nat, next, depth + 1)->Ok_0, depth + 1);
    }
}

/// Every element of valid content is valid on its own.
pub proof fn lemma_valid_sub(t: Tree, q: Seq<Slot>)
    requires
        crate::tree::valid(t),
        at_path(t, q) is Some,
    ensures
        crate::tree::valid(at_path(t, q)->Some_0),
{
    lemma_walk_sub(t, q, Seq::empty(), 1);
}

} // verus!
