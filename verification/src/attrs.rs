//! RichText attribute values, attribute sets and attribute patches.
use crate::error::ValueError;
use crate::keyed::{
    copy_entries, distinct_keys, entry_map, first_repeated_key, keyed_entries, keys_sorted,
    put_entry, remove_entry, sorted_entries_from, ExactCopy,
};
use crate::value::FiniteF64;
use vstd::prelude::*;

verus! {

/// An atomic RichText attribute value.
#[derive(Debug, Clone, PartialEq, Eq, Hash)]
pub enum AttrValue {
    /// Boolean attribute value.
    Bool(bool),
    /// Signed 64-bit integer attribute value.
    Int(i64),
    /// Canonical finite floating-point attribute value.
    Float(FiniteF64),
    /// UTF-8 string attribute value.
    String(String),
}

impl AttrValue {
    /// Creates a string attribute value.
    pub fn string(value: &str) -> (a: AttrValue)
        ensures
            a matches AttrValue::String(s) && s@ == value@,
    {
        AttrValue::String(value.to_owned())
    }

    /// Returns an equal value.
    pub fn copy(&self) -> (c: AttrValue)
        ensures
            c == *self,
    {
        match self {
            AttrValue::Bool(b) => AttrValue::Bool(*b),
            AttrValue::Int(i) => AttrValue::Int(*i),
            AttrValue::Float(f) => AttrValue::Float(*f),
            AttrValue::String(s) => AttrValue::String(s.clone()),
        }
    }
}

/// A change to one RichText attribute key.
#[derive(Debug, Clone, PartialEq, Eq, Hash)]
pub enum AttrChange {
    /// Assigns or overwrites the attribute value.
    Assign(AttrValue),
    /// Removes the attribute if present.
    Remove,
}

impl AttrChange {
    /// Returns an equal change.
    pub fn copy(&self) -> (c: AttrChange)
        ensures
            c == *self,
    {
        match self {
            AttrChange::Assign(v) => AttrChange::Assign(v.copy()),
            AttrChange::Remove => AttrChange::Remove,
        }
    }
}

/// Attributes after a patch: assigned keys take the new value, removed keys
/// are gone, other keys are kept.
pub open spec fn patched(
    attrs: Map<Seq<char>, AttrValue>,
    patch: Map<Seq<char>, AttrChange>,
) -> Map<Seq<char>, AttrValue> {
    Map::new(
        |k: Seq<char>|
            if patch.contains_key(k) {
                patch[k] is Assign
            } else {
                attrs.contains_key(k)
            },
        |k: Seq<char>|
            if patch.contains_key(k) {
                patch[k]->Assign_0
            } else {
                attrs[k]
            },
    )
}

impl ExactCopy for AttrValue {
    fn exact_copy(&self) -> (c: AttrValue) {
        self.copy()
    }
}

impl ExactCopy for AttrChange {
    fn exact_copy(&self) -> (c: AttrChange) {
        self.copy()
    }
}

/// An immutable, canonically ordered set of RichText attributes.
#[derive(Debug, PartialEq, Eq, Hash)]
pub struct Attrs {
    entries: Vec<(String, AttrValue)>,
}

impl View for Attrs {
    type V = Seq<(Seq<char>, AttrValue)>;

    closed spec fn view(&self) -> Seq<(Seq<char>, AttrValue)> {
        keyed_entries(self.entries@)
    }
}

impl Attrs {
    #[verifier::type_invariant]
    closed spec fn in_key_order(self) -> bool {
        keys_sorted(keyed_entries(self.entries@))
    }

    /// The attributes as a map from key to value.
    pub open spec fn map(&self) -> Map<Seq<char>, AttrValue> {
        entry_map(self@)
    }

    /// Creates an empty attribute set.
    pub fn new() -> (a: Attrs)
        ensures
            a@.len() == 0,
            a.map() == Map::<Seq<char>, AttrValue>::empty(),
    {
        let a = Attrs { entries: Vec::new() };
        proof {
            assert(a@ =~= Seq::<(Seq<char>, AttrValue)>::empty());
        }
        a
    }

    /// Creates an attribute set and rejects duplicate keys.
    pub fn from_entries(entries: Vec<(String, AttrValue)>) -> (r: Result<Attrs, ValueError>)
        ensures
            r is Ok <==> distinct_keys(keyed_entries(entries@)),
            r matches Ok(a) ==> keys_sorted(a@) && a.map() == entry_map(keyed_entries(entries@)),
            r matches Err(e) ==> e matches ValueError::DuplicateKey(k) && first_repeated_key(
                keyed_entries(entries@),
                k@,
            ),
    {
        let sorted = sorted_entries_from(entries)?;
        Ok(Attrs { entries: sorted })
    }

    /// The entries in canonical key order.
    pub fn entries(&self) -> (e: &[(String, AttrValue)])
        ensures
            keyed_entries(e@) == self@,
            keys_sorted(self@),
    {
        proof {
            use_type_invariant(self);
        }
        self.entries.as_slice()
    }

    /// Returns whether no attributes are set.
    pub fn is_empty(&self) -> (b: bool)
        ensures
            b == (self@.len() == 0),
    {
        self.entries.len() == 0
    }

    /// Returns the number of attributes.
    pub fn len(&self) -> (n: usize)
        ensures
            n == self@.len(),
    {
        self.entries.len()
    }

    /// Returns the value assigned to `key`, if present.
    pub fn get(&self, key: &str) -> (r: Option<&AttrValue>)
        ensures
            r is Some <==> self.map().contains_key(key@),
            r matches Some(v) ==> *v == self.map()[key@],
    {
        proof {
            use_type_invariant(self);
            crate::keyed::lemma_entry_map(self@);
        }
        let (at, found) = crate::keyed::locate_key(&self.entries, key);
        if found {
            Some(&self.entries[at].1)
        } else {
            proof {
                if self.map().contains_key(key@) {
                    let w = choose|w: int| 0 <= w < self@.len() && #[trigger] self@[w].0 == key@;
                    if w >= at {
                        crate::keyed::lemma_split_at_key(self@, at as int, key@, false);
                    }
                    crate::keys::lemma_key_lt_asymmetric(key@, key@);
                }
            }
            None
        }
    }

    /// Applies a patch and returns a new attribute set.
    pub fn apply_patch(&self, patch: &AttrPatch) -> (a: Attrs)
        ensures
            a.map() == patched(self.map(), patch.map()),
    {
        proof {
            use_type_invariant(self);
            use_type_invariant(patch);
        }
        let mut out = copy_entries(&self.entries);
        let changes = patch.entries();
        let ghost p = patch@;
        let mut i: usize = 0;
        proof {
            assert(p.take(0) =~= Seq::<(Seq<char>, AttrChange)>::empty());
            assert(patched(self.map(), Map::empty()) =~= self.map());
        }
        while i < changes.len()
            invariant
                keyed_entries(changes@) == p,
                p == patch@,
                i <= p.len(),
                keys_sorted(keyed_entries(out@)),
                entry_map(keyed_entries(out@)) == patched(self.map(), entry_map(p.take(i as int))),
            decreases p.len() - i,
        {
            let ghost before = entry_map(p.take(i as int));
            proof {
                assert(p.take(i + 1).drop_last() =~= p.take(i as int));
                assert(p.take(i + 1).last() == p[i as int]);
            }
            let key = &changes[i].0;
            match &changes[i].1 {
                AttrChange::Assign(v) => {
                    put_entry(&mut out, key.clone(), v.copy());
                    proof {
                        assert(patched(self.map(), before.insert(key@, AttrChange::Assign(*v)))
                            =~= patched(self.map(), before).insert(key@, *v));
                    }
                },
                AttrChange::Remove => {
                    remove_entry(&mut out, key.as_str());
                    proof {
                        assert(patched(self.map(), before.insert(key@, AttrChange::Remove))
                            =~= patched(self.map(), before).remove(key@));
                    }
                },
            }
            i = i + 1;
        }
        proof {
            assert(p.take(i as int) =~= p);
        }
        Attrs { entries: out }
    }
}

impl Clone for Attrs {
    fn clone(&self) -> (c: Attrs)
        ensures
            c@ == self@,
    {
        proof {
            use_type_invariant(self);
        }
        Attrs { entries: copy_entries(&self.entries) }
    }
}

/// An immutable, canonically ordered RichText attribute patch.
#[derive(Debug, PartialEq, Eq, Hash)]
pub struct AttrPatch {
    entries: Vec<(String, AttrChange)>,
}

impl View for AttrPatch {
    type V = Seq<(Seq<char>, AttrChange)>;

    closed spec fn view(&self) -> Seq<(Seq<char>, AttrChange)> {
        keyed_entries(self.entries@)
    }
}

impl AttrPatch {
    #[verifier::type_invariant]
    closed spec fn in_key_order(self) -> bool {
        keys_sorted(keyed_entries(self.entries@))
    }

    /// The patch as a map from key to change.
    pub open spec fn map(&self) -> Map<Seq<char>, AttrChange> {
        entry_map(self@)
    }

    /// Creates an empty patch.
    pub fn new() -> (p: AttrPatch)
        ensures
            p@.len() == 0,
            p.map() == Map::<Seq<char>, AttrChange>::empty(),
    {
        let p = AttrPatch { entries: Vec::new() };
        proof {
            assert(p@ =~= Seq::<(Seq<char>, AttrChange)>::empty());
        }
        p
    }

    /// Creates a patch and rejects duplicate keys.
    pub fn from_entries(entries: Vec<(String, AttrChange)>) -> (r: Result<AttrPatch, ValueError>)
        ensures
            r is Ok <==> distinct_keys(keyed_entries(entries@)),
            r matches Ok(p) ==> keys_sorted(p@) && p.map() == entry_map(keyed_entries(entries@)),
            r matches Err(e) ==> e matches ValueError::DuplicateKey(k) && first_repeated_key(
                keyed_entries(entries@),
                k@,
            ),
    {
        let sorted = sorted_entries_from(entries)?;
        Ok(AttrPatch { entries: sorted })
    }

    /// The changes in canonical key order.
    pub fn entries(&self) -> (e: &[(String, AttrChange)])
        ensures
            keyed_entries(e@) == self@,
            keys_sorted(self@),
    {
        proof {
            use_type_invariant(self);
        }
        self.entries.as_slice()
    }

    /// Returns whether the patch changes no keys.
    pub fn is_empty(&self) -> (b: bool)
        ensures
            b == (self@.len() == 0),
    {
        self.entries.len() == 0
    }

    /// Returns the number of changed keys.
    pub fn len(&self) -> (n: usize)
        ensures
            n == self@.len(),
    {
        self.entries.len()
    }
}

impl Clone for AttrPatch {
    fn clone(&self) -> (c: AttrPatch)
        ensures
            c@ == self@,
    {
        proof {
            use_type_invariant(self);
        }
        AttrPatch { entries: copy_entries(&self.entries) }
    }
}

/// Composes two patches: a key changed by `right` takes its change, other
/// keys keep the change of `left`.
pub fn compose_attr_patch(left: &AttrPatch, right: &AttrPatch) -> (p: AttrPatch)
    ensures
        p.map() == left.map().union_prefer_right(right.map()),
{
    proof {
        use_type_invariant(left);
        use_type_invariant(right);
    }
    let mut out = copy_entries(&left.entries);
    let changes = right.entries();
    let ghost r = right@;
    let mut i: usize = 0;
    proof {
        assert(r.take(0) =~= Seq::<(Seq<char>, AttrChange)>::empty());
        assert(left.map().union_prefer_right(Map::empty()) =~= left.map());
    }
    while i < changes.len()
        invariant
            keyed_entries(changes@) == r,
            r == right@,
            i <= r.len(),
            keys_sorted(keyed_entries(out@)),
            entry_map(keyed_entries(out@)) == left.map().union_prefer_right(
                entry_map(r.take(i as int)),
            ),
        decreases r.len() - i,
    {
        let ghost before = entry_map(r.take(i as int));
        proof {
            assert(r.take(i + 1).drop_last() =~= r.take(i as int));
            assert(r.take(i + 1).last() == r[i as int]);
        }
        let key = changes[i].0.clone();
        let change = changes[i].1.copy();
        put_entry(&mut out, key, change);
        proof {
            assert(left.map().union_prefer_right(before.insert(key@, change)) =~= left.map().union_prefer_right(
                before,
            ).insert(key@, change));
        }
        i = i + 1;
    }
    proof {
        assert(r.take(i as int) =~= r);
    }
    AttrPatch { entries: out }
}

/// Applying two patches in turn is applying their composition.
pub proof fn law_patch_composition(
    attrs: Map<Seq<char>, AttrValue>,
    first: Map<Seq<char>, AttrChange>,
    second: Map<Seq<char>, AttrChange>,
)
    ensures
        patched(patched(attrs, first), second) == patched(attrs, first.union_prefer_right(second)),
{
    assert(patched(patched(attrs, first), second) =~= patched(
        attrs,
        first.union_prefer_right(second),
    ));
}

} // verus!
