//! Maps keyed by text, held as entries in strictly increasing key order.
use crate::keys::{compare_keys, key_lt, lemma_key_lt_asymmetric, lemma_key_lt_transitive, KeyOrder};
use vstd::prelude::*;

verus! {

/// An entry with its key taken as text.
pub open spec fn keyed<V>(e: (String, V)) -> (Seq<char>, V) {
    (e.0@, e.1)
}

/// The entries of `v` with their keys taken as text.
pub open spec fn keyed_entries<V>(v: Seq<(String, V)>) -> Seq<(Seq<char>, V)> {
    v.map_values(|e: (String, V)| keyed(e))
}

/// Keys strictly increase, so each key occurs once.
pub open spec fn keys_sorted<V>(s: Seq<(Seq<char>, V)>) -> bool {
    forall|i: int, j: int| 0 <= i < j < s.len() ==> key_lt(#[trigger] s[i].0, #[trigger] s[j].0)
}

/// The map that a sequence of entries denotes; a later entry wins.
pub open spec fn entry_map<V>(s: Seq<(Seq<char>, V)>) -> Map<Seq<char>, V>
    decreases s.len(),
{
    if s.len() == 0 {
        Map::empty()
    } else {
        entry_map(s.drop_last()).insert(s.last().0, s.last().1)
    }
}

/// In sorted entries every entry is in the map, and the map holds nothing else.
pub proof fn lemma_entry_map<V>(s: Seq<(Seq<char>, V)>)
    requires
        keys_sorted(s),
    ensures
        forall|i: int|
            0 <= i < s.len() ==> #[trigger] entry_map(s).contains_key(s[i].0) && entry_map(s)[s[i].0]
                == s[i].1,
        forall|k: Seq<char>|
            #[trigger] entry_map(s).contains_key(k) ==> exists|i: int|
                0 <= i < s.len() && #[trigger] s[i].0 == k,
        entry_map(s).dom().finite(),
    decreases s.len(),
{
    if s.len() > 0 {
        let init = s.drop_last();
        assert forall|i: int, j: int| 0 <= i < j < init.len() implies key_lt(
            #[trigger] init[i].0,
            #[trigger] init[j].0,
        ) by {
            assert(init[i] == s[i] && init[j] == s[j]);
        }
        lemma_entry_map(init);
        let last = s.last();
        assert forall|i: int| 0 <= i < s.len() implies #[trigger] entry_map(s).contains_key(s[i].0)
            && entry_map(s)[s[i].0] == s[i].1 by {
            if i < s.len() - 1 {
                assert(init[i] == s[i]);
                assert(key_lt(s[i].0, s[s.len() - 1].0));
                lemma_key_lt_asymmetric(s[i].0, s[i].0);
            }
        }
        assert forall|k: Seq<char>| #[trigger] entry_map(s).contains_key(k) implies exists|i: int|
            0 <= i < s.len() && #[trigger] s[i].0 == k by {
            if k == last.0 {
                assert(s[s.len() - 1].0 == k);
            } else {
                assert(entry_map(init).contains_key(k));
                let i = choose|i: int| 0 <= i < init.len() && #[trigger] init[i].0 == k;
                assert(s[i].0 == k);
            }
        }
    }
}

/// Sorted entries denote a map with one key per entry.
pub proof fn lemma_sorted_entry_map_len<V>(s: Seq<(Seq<char>, V)>)
    requires
        keys_sorted(s),
    ensures
        entry_map(s).dom().finite(),
        entry_map(s).dom().len() == s.len(),
    decreases s.len(),
{
    lemma_entry_map(s);
    if s.len() > 0 {
        let init = s.drop_last();
        assert(keys_sorted(init)) by {
            assert forall|i: int, j: int| 0 <= i < j < init.len() implies key_lt(
                #[trigger] init[i].0,
                #[trigger] init[j].0,
            ) by {
                assert(init[i] == s[i] && init[j] == s[j]);
            }
        }
        lemma_sorted_entry_map_len(init);
        lemma_entry_map(init);
        if entry_map(init).contains_key(s.last().0) {
            let i = choose|i: int| 0 <= i < init.len() && #[trigger] init[i].0 == s.last().0;
            assert(s[i].0 == init[i].0);
            assert(key_lt(s[i].0, s[s.len() - 1].0));
            lemma_key_lt_asymmetric(s.last().0, s.last().0);
        }
    }
}

/// Where `key` is, or would go, in sorted entries.
pub(crate) fn locate_key<V>(entries: &Vec<(String, V)>, key: &str) -> (r: (usize, bool))
    ensures
        r.0 <= entries@.len(),
        forall|j: int| 0 <= j < r.0 ==> key_lt(#[trigger] keyed_entries(entries@)[j].0, key@),
        r.1 ==> r.0 < entries@.len() && keyed_entries(entries@)[r.0 as int].0 == key@,
        !r.1 ==> (r.0 < entries@.len() ==> key_lt(key@, keyed_entries(entries@)[r.0 as int].0)),
{
    let ghost s = keyed_entries(entries@);
    let mut i: usize = 0;
    while i < entries.len()
        invariant
            s == keyed_entries(entries@),
            i <= entries@.len(),
            forall|j: int| 0 <= j < i ==> key_lt(#[trigger] s[j].0, key@),
        decreases entries@.len() - i,
    {
        let order = compare_keys(entries[i].0.as_str(), key);
        match order {
            KeyOrder::Less => {
                i = i + 1;
            },
            KeyOrder::Equal => {
                return (i, true);
            },
            KeyOrder::Greater => {
                return (i, false);
            },
        }
    }
    (i, false)
}

/// Keys before `i` sort before `key`, keys from `i` (or after it, when `i`
/// holds `key`) sort after it.
pub proof fn lemma_split_at_key<V>(s: Seq<(Seq<char>, V)>, i: int, key: Seq<char>, found: bool)
    requires
        keys_sorted(s),
        0 <= i <= s.len(),
        forall|j: int| 0 <= j < i ==> key_lt(#[trigger] s[j].0, key),
        found ==> i < s.len() && s[i].0 == key,
        !found ==> (i < s.len() ==> key_lt(key, s[i].0)),
    ensures
        forall|j: int| 0 <= j < s.len() && (j > i || (j == i && !found)) ==> key_lt(key, #[trigger] s[j].0),
{
    assert forall|j: int| 0 <= j < s.len() && (j > i || (j == i && !found)) implies key_lt(
        key,
        #[trigger] s[j].0,
    ) by {
        if j > i {
            assert(key_lt(s[i].0, s[j].0));
            if !found {
                lemma_key_lt_transitive(key, s[i].0, s[j].0);
            }
        }
    }
}

/// Sets `key` to `value` in sorted entries.
pub(crate) fn put_entry<V>(entries: &mut Vec<(String, V)>, key: String, value: V)
    requires
        keys_sorted(keyed_entries(old(entries)@)),
    ensures
        keys_sorted(keyed_entries(final(entries)@)),
        entry_map(keyed_entries(final(entries)@)) == entry_map(keyed_entries(old(entries)@)).insert(
            key@,
            value,
        ),
{
    let ghost s = keyed_entries(entries@);
    let ghost k = key@;
    let (i, found) = locate_key(entries, key.as_str());
    if found {
        let _ = entries.remove(i);
    }
    entries.insert(i, (key, value));
    proof {
        let n = keyed_entries(entries@);
        lemma_split_at_key(s, i as int, k, found);
        if found {
            assert(n =~= s.update(i as int, (k, value)));
        } else {
            assert(n =~= s.insert(i as int, (k, value)));
        }
        assert forall|a: int, b: int| 0 <= a < b < n.len() implies key_lt(
            #[trigger] n[a].0,
            #[trigger] n[b].0,
        ) by {
            if found {
                if a != i && b != i {
                    assert(key_lt(s[a].0, s[b].0));
                }
            } else {
                if a < i && b > i {
                    lemma_key_lt_transitive(s[a].0, k, s[b - 1].0);
                } else if a > i {
                    assert(key_lt(s[a - 1].0, s[b - 1].0));
                } else if b < i {
                    assert(key_lt(s[a].0, s[b].0));
                }
            }
        }
        lemma_entry_map(s);
        lemma_entry_map(n);
        let m = entry_map(s).insert(k, value);
        assert forall|q: Seq<char>| #[trigger] entry_map(n).contains_key(q) <==> m.contains_key(q) by {
            if entry_map(n).contains_key(q) && q != k {
                let w = choose|w: int| 0 <= w < n.len() && #[trigger] n[w].0 == q;
                let o = if !found && w > i {
                    w - 1
                } else {
                    w
                };
                assert(s[o].0 == q);
            }
            if m.contains_key(q) && q != k {
                let w = choose|w: int| 0 <= w < s.len() && #[trigger] s[w].0 == q;
                if !found && w >= i {
                    assert(n[w + 1].0 == q);
                } else {
                    assert(n[w].0 == q);
                }
            }
            if q == k {
                assert(n[i as int].0 == k);
            }
        }
        assert forall|q: Seq<char>| #[trigger] entry_map(n).contains_key(q) implies entry_map(n)[q]
            == m[q] by {
            let w = choose|w: int| 0 <= w < n.len() && #[trigger] n[w].0 == q;
            if w == i {
                assert(n[w] == (k, value));
            } else {
                let o = if !found && w > i {
                    w - 1
                } else {
                    w
                };
                assert(n[w] == s[o]);
                if q == k {
                    lemma_key_lt_asymmetric(k, k);
                }
            }
        }
        assert(entry_map(n) =~= m);
    }
}

/// Removes `key` from sorted entries.
pub(crate) fn remove_entry<V>(entries: &mut Vec<(String, V)>, key: &str)
    requires
        keys_sorted(keyed_entries(old(entries)@)),
    ensures
        keys_sorted(keyed_entries(final(entries)@)),
        entry_map(keyed_entries(final(entries)@)) == entry_map(keyed_entries(old(entries)@)).remove(
            key@,
        ),
{
    let ghost s = keyed_entries(entries@);
    let ghost k = key@;
    let (i, found) = locate_key(entries, key);
    proof {
        lemma_split_at_key(s, i as int, k, found);
        lemma_entry_map(s);
    }
    if found {
        let _ = entries.remove(i);
        proof {
            let n = keyed_entries(entries@);
            assert(n =~= s.remove(i as int));
            assert forall|a: int, b: int| 0 <= a < b < n.len() implies key_lt(
                #[trigger] n[a].0,
                #[trigger] n[b].0,
            ) by {
                if b < i {
                    assert(key_lt(s[a].0, s[b].0));
                } else if a < i {
                    assert(key_lt(s[a].0, s[b + 1].0));
                } else {
                    assert(key_lt(s[a + 1].0, s[b + 1].0));
                }
            }
            lemma_entry_map(n);
            let m = entry_map(s).remove(k);
            assert forall|q: Seq<char>| #[trigger] entry_map(n).contains_key(q) <==> m.contains_key(q) by {
                if entry_map(n).contains_key(q) {
                    let w = choose|w: int| 0 <= w < n.len() && #[trigger] n[w].0 == q;
                    let o = if w >= i {
                        w + 1
                    } else {
                        w
                    };
                    assert(s[o].0 == q);
                    if q == k {
                        lemma_key_lt_asymmetric(k, k);
                    }
                }
                if m.contains_key(q) {
                    let w = choose|w: int| 0 <= w < s.len() && #[trigger] s[w].0 == q;
                    if w > i {
                        assert(n[w - 1].0 == q);
                    } else {
                        assert(n[w].0 == q);
                    }
                }
            }
            assert forall|q: Seq<char>| #[trigger] entry_map(n).contains_key(q) implies entry_map(
                n,
            )[q] == m[q] by {
                let w = choose|w: int| 0 <= w < n.len() && #[trigger] n[w].0 == q;
                let o = if w >= i {
                    w + 1
                } else {
                    w
                };
                assert(n[w] == s[o]);
            }
            assert(entry_map(n) =~= m);
        }
    } else {
        proof {
            assert forall|w: int| 0 <= w < s.len() implies #[trigger] s[w].0 != k by {
                lemma_key_lt_asymmetric(k, k);
            }
            assert(entry_map(s).remove(k) =~= entry_map(s));
        }
    }
}

} // verus!

verus! {

/// A value that can be duplicated exactly.
pub trait ExactCopy: Sized {
    /// Returns a value equal to `self`.
    fn exact_copy(&self) -> (c: Self)
        ensures
            c == *self,
    ;
}

/// No key occurs twice.
pub open spec fn distinct_keys<V>(s: Seq<(Seq<char>, V)>) -> bool {
    forall|i: int, j: int| 0 <= i < j < s.len() ==> #[trigger] s[i].0 != #[trigger] s[j].0
}

/// Entry `j` repeats the key of an earlier entry.
pub open spec fn repeats_key<V>(s: Seq<(Seq<char>, V)>, j: int) -> bool {
    exists|i: int| 0 <= i < j && #[trigger] s[i].0 == s[j].0
}

/// `key` is the key of the first entry that repeats an earlier one.
pub open spec fn first_repeated_key<V>(s: Seq<(Seq<char>, V)>, key: Seq<char>) -> bool {
    exists|j: int|
        0 <= j < s.len() && #[trigger] repeats_key(s, j) && s[j].0 == key && (forall|k: int|
            0 <= k < j ==> !#[trigger] repeats_key(s, k))
}

/// The keys of any entry sequence are exactly its map's keys.
pub proof fn lemma_entry_map_keys<V>(t: Seq<(Seq<char>, V)>)
    ensures
        forall|k: Seq<char>|
            #[trigger] entry_map(t).contains_key(k) <==> exists|j: int|
                0 <= j < t.len() && #[trigger] t[j].0 == k,
    decreases t.len(),
{
    if t.len() > 0 {
        let init = t.drop_last();
        lemma_entry_map_keys(init);
        assert forall|k: Seq<char>| #[trigger] entry_map(t).contains_key(k) <==> exists|j: int|
            0 <= j < t.len() && #[trigger] t[j].0 == k by {
            if entry_map(t).contains_key(k) {
                if k == t.last().0 {
                    assert(t[t.len() - 1].0 == k);
                } else {
                    assert(entry_map(init).contains_key(k));
                    let j = choose|j: int| 0 <= j < init.len() && #[trigger] init[j].0 == k;
                    assert(init[j] == t[j]);
                    assert(t[j].0 == k);
                }
            }
            if exists|j: int| 0 <= j < t.len() && #[trigger] t[j].0 == k {
                let j = choose|j: int| 0 <= j < t.len() && #[trigger] t[j].0 == k;
                if j < t.len() - 1 {
                    assert(init[j] == t[j]);
                    assert(init[j].0 == k);
                    assert(entry_map(init).contains_key(k));
                } else {
                    assert(t.last().0 == k);
                }
                assert(entry_map(t).contains_key(k));
            }
        }
    }
}

/// Every value of an entry map is the value of some entry.
pub proof fn lemma_entry_map_value<V>(t: Seq<(Seq<char>, V)>, k: Seq<char>)
    requires
        entry_map(t).contains_key(k),
    ensures
        exists|j: int| 0 <= j < t.len() && #[trigger] t[j].0 == k && t[j].1 == entry_map(t)[k],
    decreases t.len(),
{
    let init = t.drop_last();
    if k == t.last().0 {
        assert(t[t.len() - 1].0 == k);
    } else {
        lemma_entry_map_value(init, k);
        let j = choose|j: int| 0 <= j < init.len() && #[trigger] init[j].0 == k && init[j].1 == entry_map(init)[k];
        assert(t[j] == init[j]);
    }
}

/// Copies entries exactly.
pub(crate) fn copy_entries<V: ExactCopy>(entries: &Vec<(String, V)>) -> (r: Vec<(String, V)>)
    ensures
        keyed_entries(r@) == keyed_entries(entries@),
{
    let mut out: Vec<(String, V)> = Vec::new();
    let mut i: usize = 0;
    proof {
        assert(keyed_entries(out@) =~= keyed_entries(entries@).take(0));
    }
    while i < entries.len()
        invariant
            i <= entries@.len(),
            keyed_entries(out@) == keyed_entries(entries@).take(i as int),
        decreases entries@.len() - i,
    {
        let key = entries[i].0.clone();
        let value = entries[i].1.exact_copy();
        let ghost before = out@;
        out.push((key, value));
        proof {
            assert(out@ == before.push((key, value)));
            assert(keyed((key, value)) == keyed(entries@[i as int]));
            assert(keyed_entries(out@) =~= keyed_entries(before).push(keyed(entries@[i as int])));
            assert(keyed_entries(entries@).take(i + 1) =~= keyed_entries(entries@).take(i as int).push(
                keyed(entries@[i as int]),
            ));
        }
        i = i + 1;
    }
    proof {
        assert(keyed_entries(entries@).take(i as int) =~= keyed_entries(entries@));
    }
    out
}

/// Sorts `entries` by key, refusing a key that occurs twice.
pub(crate) fn sorted_entries_from<V>(entries: Vec<(String, V)>) -> (r: Result<
    Vec<(String, V)>,
    crate::error::ValueError,
>)
    ensures
        r is Ok <==> distinct_keys(keyed_entries(entries@)),
        r matches Ok(v) ==> keys_sorted(keyed_entries(v@)) && entry_map(keyed_entries(v@))
            == entry_map(keyed_entries(entries@)),
        r matches Err(e) ==> e matches crate::error::ValueError::DuplicateKey(k)
            && first_repeated_key(keyed_entries(entries@), k@),
{
    let ghost s = keyed_entries(entries@);
    let mut out: Vec<(String, V)> = Vec::new();
    proof {
        assert(keyed_entries(out@) =~= Seq::<(Seq<char>, V)>::empty());
        assert(s.take(0) =~= Seq::<(Seq<char>, V)>::empty());
    }
    for entry in it: entries.into_iter()
        invariant
            it.seq() == entries@,
            s == keyed_entries(entries@),
            it.index() <= s.len(),
            keys_sorted(keyed_entries(out@)),
            entry_map(keyed_entries(out@)) == entry_map(s.take(it.index() as int)),
            distinct_keys(s.take(it.index() as int)),
            forall|k: int| 0 <= k < it.index() ==> !#[trigger] repeats_key(s, k),
    {
        let ghost i = it.index() as int;
        let ghost o = keyed_entries(out@);
        let ghost t = s.take(i);
        let ghost key = s[i].0;
        let (k, v) = entry;
        proof {
            assert(keyed((k, v)) == s[i]);
        }
        let (at, found) = locate_key(&out, k.as_str());
        proof {
            lemma_entry_map(o);
            lemma_entry_map_keys(t);
            assert(t.take(i) =~= t);
        }
        if found {
            proof {
                assert(entry_map(o).contains_key(key));
                let j = choose|j: int| 0 <= j < t.len() && #[trigger] t[j].0 == key;
                assert(s[j].0 == key);
                assert(repeats_key(s, i));
                if distinct_keys(s) {
                    assert(s[j].0 != s[i].0);
                }
                assert(first_repeated_key(s, key));
            }
            return Err(crate::error::ValueError::DuplicateKey(k));
        }
        proof {
            assert forall|j: int| 0 <= j < t.len() implies #[trigger] t[j].0 != key by {
                if t[j].0 == key {
                    assert(entry_map(t).contains_key(key));
                    let w = choose|w: int| 0 <= w < o.len() && #[trigger] o[w].0 == key;
                    if w < at {
                        crate::keys::lemma_key_lt_asymmetric(key, key);
                    } else {
                        lemma_split_at_key(o, at as int, key, false);
                        crate::keys::lemma_key_lt_asymmetric(key, key);
                    }
                }
            }
            assert forall|j: int| 0 <= j < i implies #[trigger] s[j].0 != s[i].0 by {
                assert(t[j] == s[j]);
            }
            assert(!repeats_key(s, i));
        }
        put_entry(&mut out, k, v);
        proof {
            let t1 = s.take(i + 1);
            assert(t1.drop_last() =~= t);
            assert(t1.last() == s[i]);
            assert forall|a: int, b: int| 0 <= a < b < t1.len() implies #[trigger] t1[a].0
                != #[trigger] t1[b].0 by {
                if b < i {
                    assert(t[a] == t1[a] && t[b] == t1[b]);
                } else {
                    assert(t[a] == t1[a]);
                }
            }
        }
    }
    proof {
        assert(s.take(s.len() as int) =~= s);
    }
    Ok(out)
}

} // verus!
