//! Immutable Core Values: the recursive content model that Changes apply to.
use crate::error::ValueError;
use crate::keyed::{
    distinct_keys, entry_map, first_repeated_key, keyed, keyed_entries, keys_sorted, lemma_entry_map,
    locate_key, sorted_entries_from,
};
use crate::path::{Path, PathSeg, SegView};
use crate::value::{FiniteF64, Text, ValueType};
use vstd::prelude::*;

verus! {

/// The mathematical content of a Value.
pub enum Content {
    Null,
    Bool(bool),
    Int(i64),
    Float(u64),
    Str(Seq<char>),
    Text(Seq<char>),
    List(Seq<Content>),
    KeyMap(Map<Seq<char>, Content>),
}

/// The closed recursive content model stored by [`Value`].
#[derive(Debug, PartialEq, Eq, Hash)]
pub enum ValueKind {
    /// Null value.
    Null,
    /// Boolean value.
    Bool(bool),
    /// Signed 64-bit integer value.
    Int(i64),
    /// Canonical finite floating-point value.
    Float(FiniteF64),
    /// Atomic UTF-8 string value.
    String(String),
    /// Collaborative text value.
    Text(Text),
    /// Ordered List value.
    List(List),
    /// String-keyed Map value.
    KeyMap(KeyMap),
}

/// An immutable Core Value, used as a complete Snapshot or nested inside
/// another Value.
#[derive(Debug, PartialEq, Eq, Hash)]
pub struct Value {
    kind: Box<ValueKind>,
}

/// An immutable ordered collection of Values.
#[derive(Debug, PartialEq, Eq, Hash)]
pub struct List {
    items: Vec<Value>,
}

/// An immutable map from unique string keys to Values, in key order.
#[derive(Debug, PartialEq, Eq, Hash)]
pub struct KeyMap {
    entries: Vec<(String, Value)>,
}

/// The content of a Value.
pub closed spec fn content_of(v: Value) -> Content
    decreases v,
{
    match *v.kind {
        ValueKind::Null => Content::Null,
        ValueKind::Bool(b) => Content::Bool(b),
        ValueKind::Int(i) => Content::Int(i),
        ValueKind::Float(f) => Content::Float(f@),
        ValueKind::String(s) => Content::Str(s@),
        ValueKind::Text(t) => Content::Text(t@),
        ValueKind::List(l) => Content::List(
            Seq::new(
                l.items@.len(),
                |i: int|
                    if 0 <= i < l.items@.len() {
                        content_of(l.items@[i])
                    } else {
                        Content::Null
                    },
            ),
        ),
        ValueKind::KeyMap(m) => Content::KeyMap(entry_map(entries_content_of(m))),
    }
}

/// The entries of a Map with their contents.
closed spec fn entries_content_of(m: KeyMap) -> Seq<(Seq<char>, Content)>
    decreases m,
{
    Seq::new(
        m.entries@.len(),
        |i: int|
            if 0 <= i < m.entries@.len() {
                (m.entries@[i].0@, content_of(m.entries@[i].1))
            } else {
                (Seq::empty(), Content::Null)
            },
    )
}

impl View for Value {
    type V = Content;

    open spec fn view(&self) -> Content {
        content_of(*self)
    }
}

/// The contents of a sequence of Values.
pub open spec fn contents(s: Seq<Value>) -> Seq<Content> {
    Seq::new(s.len(), |i: int| s[i]@)
}

/// The contents of Map entries, keys taken as text.
pub open spec fn entry_contents(s: Seq<(String, Value)>) -> Seq<(Seq<char>, Content)> {
    Seq::new(s.len(), |i: int| (s[i].0@, s[i].1@))
}

impl View for List {
    type V = Seq<Content>;

    closed spec fn view(&self) -> Seq<Content> {
        contents(self.items@)
    }
}

impl View for KeyMap {
    type V = Map<Seq<char>, Content>;

    closed spec fn view(&self) -> Map<Seq<char>, Content> {
        entry_map(entry_contents(self.entries@))
    }
}

impl KeyMap {
    #[verifier::type_invariant]
    spec fn sorted(self) -> bool {
        keys_sorted(keyed_entries(self.entries@))
    }
}

/// The content a Value kind denotes.
pub open spec fn kind_content(k: ValueKind) -> Content {
    match k {
        ValueKind::Null => Content::Null,
        ValueKind::Bool(b) => Content::Bool(b),
        ValueKind::Int(i) => Content::Int(i),
        ValueKind::Float(f) => Content::Float(f@),
        ValueKind::String(s) => Content::Str(s@),
        ValueKind::Text(t) => Content::Text(t@),
        ValueKind::List(l) => Content::List(l@),
        ValueKind::KeyMap(m) => Content::KeyMap(m@),
    }
}

/// The type discriminant of a content.
pub open spec fn content_type(c: Content) -> ValueType {
    match c {
        Content::Null => ValueType::Null,
        Content::Bool(_) => ValueType::Bool,
        Content::Int(_) => ValueType::Int,
        Content::Float(_) => ValueType::Float,
        Content::Str(_) => ValueType::String,
        Content::Text(_) => ValueType::Text,
        Content::List(_) => ValueType::List,
        Content::KeyMap(_) => ValueType::KeyMap,
    }
}

/// The content a Path addresses: Map keys and List indexes only.
pub open spec fn content_at(c: Content, p: Seq<SegView>) -> Option<Content>
    decreases p.len(),
{
    if p.len() == 0 {
        Some(c)
    } else {
        match (c, p[0]) {
            (Content::KeyMap(m), SegView::Key(k)) => if m.contains_key(k) {
                content_at(m[k], p.drop_first())
            } else {
                None
            },
            (Content::List(items), SegView::Index(i)) => if i < items.len() {
                content_at(items[i as int], p.drop_first())
            } else {
                None
            },
            _ => None,
        }
    }
}

proof fn lemma_kind_content(v: Value)
    ensures
        v@ == kind_content(*v.kind),
{
    let k = *v.kind;
    if k is List {
        let l = k->List_0;
        assert(content_of(v)->List_0 =~= contents(l.items@));
    } else if k is KeyMap {
        let m = k->KeyMap_0;
        assert(entries_content_of(m) =~= entry_contents(m.entries@));
    }
}

/// Keys taken as text are the keys of the contents.
pub proof fn lemma_entry_keys(s: Seq<(String, Value)>)
    ensures
        keys_sorted(keyed_entries(s)) ==> keys_sorted(entry_contents(s)),
        entry_map(entry_contents(s)) == entry_map(keyed_entries(s)).map_values(|v: Value| v@),
    decreases s.len(),
{
    let a = keyed_entries(s);
    let b = entry_contents(s);
    assert forall|i: int| 0 <= i < s.len() implies #[trigger] a[i].0 == b[i].0 by {
        assert(a[i] == keyed(s[i]));
    }
    if keys_sorted(a) {
        assert forall|i: int, j: int| 0 <= i < j < b.len() implies crate::keys::key_lt(
            #[trigger] b[i].0,
            #[trigger] b[j].0,
        ) by {
            assert(a[i].0 == b[i].0 && a[j].0 == b[j].0);
        }
    }
    if s.len() > 0 {
        let init = s.drop_last();
        lemma_entry_keys(init);
        assert(keyed_entries(init) =~= a.drop_last());
        assert(entry_contents(init) =~= b.drop_last());
        assert(a.last() == keyed(s.last()));
        assert(entry_map(b) =~= entry_map(a).map_values(|v: Value| v@));
    } else {
        assert(entry_map(b) =~= entry_map(a).map_values(|v: Value| v@));
    }
}

/// Where `key` is in sorted entries, if present.
pub(crate) fn lookup_entry(entries: &Vec<(String, Value)>, key: &str) -> (r: Option<usize>)
    requires
        keys_sorted(keyed_entries(entries@)),
    ensures
        r is Some <==> entry_map(entry_contents(entries@)).contains_key(key@),
        r matches Some(i) ==> i < entries@.len() && entries@[i as int].0@ == key@
            && entries@[i as int].1@ == entry_map(entry_contents(entries@))[key@],
{
    proof {
        lemma_entry_keys(entries@);
        lemma_entry_map(entry_contents(entries@));
    }
    let ghost es = entry_contents(entries@);
    let (i, found) = locate_key(entries, key);
    if found {
        proof {
            assert(keyed_entries(entries@)[i as int] == keyed(entries@[i as int]));
            assert(es[i as int] == (entries@[i as int].0@, entries@[i as int].1@));
            assert(entry_map(es).contains_key(es[i as int].0));
        }
        Some(i)
    } else {
        proof {
            crate::keyed::lemma_split_at_key(keyed_entries(entries@), i as int, key@, false);
            if entry_map(es).contains_key(key@) {
                let j = choose|j: int| 0 <= j < es.len() && #[trigger] es[j].0 == key@;
                assert(keyed_entries(entries@)[j].0 == es[j].0);
                crate::keys::lemma_key_lt_asymmetric(key@, key@);
            }
        }
        None
    }
}

impl KeyMap {
    /// Creates a Map and rejects duplicate keys.
    pub fn from_entries(entries: Vec<(String, Value)>) -> (r: Result<KeyMap, ValueError>)
        ensures
            r is Ok <==> distinct_keys(keyed_entries(entries@)),
            r matches Ok(m) ==> m@ == entry_map(entry_contents(entries@)),
            r matches Err(e) ==> e matches ValueError::DuplicateKey(k) && first_repeated_key(
                keyed_entries(entries@),
                k@,
            ),
    {
        let ghost input = entries@;
        proof {
            lemma_entry_keys(input);
        }
        let sorted = sorted_entries_from(entries)?;
        proof {
            lemma_entry_keys(sorted@);
        }
        Ok(KeyMap { entries: sorted })
    }

    /// Wraps entries already in strictly increasing key order.
    pub(crate) fn from_sorted(entries: Vec<(String, Value)>) -> (m: KeyMap)
        requires
            keys_sorted(keyed_entries(entries@)),
        ensures
            m@ == entry_map(entry_contents(entries@)),
    {
        KeyMap { entries }
    }

    /// Copies the entries, in key order.
    pub(crate) fn copy_entries(&self) -> (r: Vec<(String, Value)>)
        ensures
            keys_sorted(keyed_entries(r@)),
            entry_map(entry_contents(r@)) == self@,
    {
        proof {
            use_type_invariant(self);
        }
        let mut out: Vec<(String, Value)> = Vec::new();
        let mut i: usize = 0;
        while i < self.entries.len()
            invariant
                i <= self.entries@.len(),
                keys_sorted(keyed_entries(self.entries@)),
                entry_contents(out@) == entry_contents(self.entries@).take(i as int),
                out@.len() == i,
                forall|j: int| 0 <= j < i ==> #[trigger] out@[j].0@ == self.entries@[j].0@,
            decreases self.entries@.len() - i,
        {
            let c = self.entries[i].1.deep_copy();
            let k = self.entries[i].0.clone();
            let ghost before = out@;
            out.push((k, c));
            proof {
                assert(out@ == before.push((k, c)));
                assert forall|j: int| 0 <= j < i + 1 implies #[trigger] entry_contents(out@)[j]
                    == entry_contents(self.entries@).take(i + 1)[j] by {
                    if j < i {
                        assert(entry_contents(before)[j] == entry_contents(self.entries@).take(i as int)[j]);
                        assert(out@[j] == before[j]);
                    }
                }
                assert(entry_contents(out@) =~= entry_contents(self.entries@).take(i + 1));
                assert forall|j: int| 0 <= j < i + 1 implies #[trigger] out@[j].0@ == self.entries@[j].0@ by {
                    if j < i {
                        assert(out@[j] == before[j]);
                    }
                }
            }
            i = i + 1;
        }
        proof {
            assert(entry_contents(self.entries@).take(i as int) =~= entry_contents(self.entries@));
            assert forall|a: int, b: int| 0 <= a < b < keyed_entries(out@).len() implies crate::keys::key_lt(
                #[trigger] keyed_entries(out@)[a].0,
                #[trigger] keyed_entries(out@)[b].0,
            ) by {
                assert(keyed_entries(out@)[a].0 == out@[a].0@);
                assert(keyed_entries(out@)[b].0 == out@[b].0@);
                assert(keyed_entries(self.entries@)[a].0 == self.entries@[a].0@);
                assert(keyed_entries(self.entries@)[b].0 == self.entries@[b].0@);
            }
        }
        out
    }

    /// Returns the Value associated with `key`, if present.
    pub fn get(&self, key: &str) -> (r: Option<&Value>)
        ensures
            self@.contains_key(key@) ==> r is Some && r->Some_0@ == self@[key@],
            !self@.contains_key(key@) ==> r is None,
    {
        proof {
            use_type_invariant(self);
        }
        match lookup_entry(&self.entries, key) {
            Some(i) => Some(&self.entries[i].1),
            None => None,
        }
    }

    /// The entries in canonical key order.
    pub fn entries(&self) -> (e: &[(String, Value)])
        ensures
            keys_sorted(entry_contents(e@)),
            entry_map(entry_contents(e@)) == self@,
    {
        proof {
            use_type_invariant(self);
            lemma_entry_keys(self.entries@);
        }
        self.entries.as_slice()
    }

    /// Returns the number of entries.
    pub fn len(&self) -> (n: usize)
        ensures
            n == self@.dom().len(),
    {
        proof {
            use_type_invariant(self);
            lemma_entry_keys(self.entries@);
            crate::keyed::lemma_sorted_entry_map_len(entry_contents(self.entries@));
        }
        self.entries.len()
    }

    /// Returns whether the Map contains no entries.
    pub fn is_empty(&self) -> (b: bool)
        ensures
            b == (self@.dom().len() == 0),
    {
        proof {
            use_type_invariant(self);
            lemma_entry_keys(self.entries@);
            crate::keyed::lemma_sorted_entry_map_len(entry_contents(self.entries@));
        }
        self.entries.len() == 0
    }
}

impl List {
    /// Creates a List from its elements.
    pub fn new(values: Vec<Value>) -> (l: List)
        ensures
            l@ == contents(values@),
    {
        List { items: values }
    }

    /// Returns all elements as a borrowed slice.
    pub fn as_slice(&self) -> (s: &[Value])
        ensures
            contents(s@) == self@,
    {
        self.items.as_slice()
    }

    /// Returns the number of elements.
    pub fn len(&self) -> (n: usize)
        ensures
            n == self@.len(),
    {
        self.items.len()
    }

    /// Returns whether the List contains no elements.
    pub fn is_empty(&self) -> (b: bool)
        ensures
            b == (self@.len() == 0),
    {
        self.items.len() == 0
    }

    /// Returns the element at `index`, if present.
    pub fn get(&self, index: usize) -> (r: Option<&Value>)
        ensures
            index < self@.len() ==> r is Some && r->Some_0@ == self@[index as int],
            index >= self@.len() ==> r is None,
    {
        if index < self.items.len() {
            Some(&self.items[index])
        } else {
            None
        }
    }
}

impl Value {
    /// Wraps a content kind.
    pub fn from_kind(kind: ValueKind) -> (v: Value)
        ensures
            v@ == kind_content(kind),
    {
        let v = Value { kind: Box::new(kind) };
        proof {
            lemma_kind_content(v);
        }
        v
    }

    /// Creates Null.
    pub fn null() -> (v: Value)
        ensures
            v@ == Content::Null,
    {
        Value::from_kind(ValueKind::Null)
    }

    /// Creates a Bool.
    pub fn bool(value: bool) -> (v: Value)
        ensures
            v@ == Content::Bool(value),
    {
        Value::from_kind(ValueKind::Bool(value))
    }

    /// Creates an Int.
    pub fn integer(value: i64) -> (v: Value)
        ensures
            v@ == Content::Int(value),
    {
        Value::from_kind(ValueKind::Int(value))
    }

    /// Creates a Float from an already validated finite value.
    pub fn finite_float(value: FiniteF64) -> (v: Value)
        ensures
            v@ == Content::Float(value@),
    {
        Value::from_kind(ValueKind::Float(value))
    }

    /// Creates an atomic String.
    pub fn string(value: &str) -> (v: Value)
        ensures
            v@ == Content::Str(value@),
    {
        Value::from_kind(ValueKind::String(value.to_owned()))
    }

    /// Creates collaborative Text.
    pub fn text(value: &str) -> (v: Value)
        ensures
            v@ == Content::Text(value@),
    {
        Value::from_kind(ValueKind::Text(Text::new(value)))
    }

    /// Creates a List from its elements.
    pub fn list(values: Vec<Value>) -> (v: Value)
        ensures
            v@ == Content::List(contents(values@)),
    {
        Value::from_kind(ValueKind::List(List::new(values)))
    }

    /// Creates a Map and rejects duplicate keys.
    pub fn map(entries: Vec<(String, Value)>) -> (r: Result<Value, ValueError>)
        ensures
            r is Ok <==> distinct_keys(keyed_entries(entries@)),
            r matches Ok(v) ==> v@ == Content::KeyMap(entry_map(entry_contents(entries@))),
            r matches Err(e) ==> e matches ValueError::DuplicateKey(k) && first_repeated_key(
                keyed_entries(entries@),
                k@,
            ),
    {
        let m = KeyMap::from_entries(entries)?;
        Ok(Value::from_kind(ValueKind::KeyMap(m)))
    }

    /// Returns the concrete content kind.
    pub fn kind(&self) -> (k: &ValueKind)
        ensures
            kind_content(*k) == self@,
    {
        proof {
            lemma_kind_content(*self);
        }
        &self.kind
    }

    /// Returns the content type discriminant.
    pub fn value_type(&self) -> (t: ValueType)
        ensures
            t == content_type(self@),
    {
        match self.kind() {
            ValueKind::Null => ValueType::Null,
            ValueKind::Bool(_) => ValueType::Bool,
            ValueKind::Int(_) => ValueType::Int,
            ValueKind::Float(_) => ValueType::Float,
            ValueKind::String(_) => ValueType::String,
            ValueKind::Text(_) => ValueType::Text,
            ValueKind::List(_) => ValueType::List,
            ValueKind::KeyMap(_) => ValueType::KeyMap,
        }
    }

    /// Borrows the contained Map, if this Value is a Map.
    pub fn as_map(&self) -> (r: Option<&KeyMap>)
        ensures
            r is Some <==> self@ is KeyMap,
            r matches Some(m) ==> self@ == Content::KeyMap(m@),
    {
        match self.kind() {
            ValueKind::KeyMap(m) => Some(m),
            _ => None,
        }
    }

    /// Borrows the contained List, if this Value is a List.
    pub fn as_list(&self) -> (r: Option<&List>)
        ensures
            r is Some <==> self@ is List,
            r matches Some(l) ==> self@ == Content::List(l@),
    {
        match self.kind() {
            ValueKind::List(l) => Some(l),
            _ => None,
        }
    }

    /// Borrows the contained Text, if this Value is Text.
    pub fn as_text(&self) -> (r: Option<&Text>)
        ensures
            r is Some <==> self@ is Text,
            r matches Some(t) ==> self@ == Content::Text(t@),
    {
        match self.kind() {
            ValueKind::Text(t) => Some(t),
            _ => None,
        }
    }

    /// Returns the contained integer, if this Value is an Int.
    pub fn as_int(&self) -> (r: Option<i64>)
        ensures
            r is Some <==> self@ is Int,
            r matches Some(i) ==> self@ == Content::Int(i),
    {
        match self.kind() {
            ValueKind::Int(i) => Some(*i),
            _ => None,
        }
    }

    /// Resolves a Snapshot-relative Path and borrows the target Value.
    pub fn get(&self, path: &Path) -> (r: Option<&Value>)
        ensures
            match content_at(self@, path@) {
                Some(c) => r is Some && r->Some_0@ == c,
                None => r is None,
            },
    {
        let segments = path.segments();
        let mut current: &Value = self;
        let mut i: usize = 0;
        proof {
            assert(path@.skip(0) =~= path@);
        }
        while i < segments.len()
            invariant
                segments.deep_view() == path@,
                i <= segments@.len(),
                content_at(self@, path@) == content_at(current@, path@.skip(i as int)),
            decreases segments@.len() - i,
        {
            let ghost rest = path@.skip(i as int);
            proof {
                assert(rest[0] == segments@[i as int].deep_view());
                assert(rest.drop_first() =~= path@.skip(i + 1));
            }
            let next = match (current.kind(), &segments[i]) {
                (ValueKind::KeyMap(m), PathSeg::Key(key)) => m.get(key.as_str()),
                (ValueKind::List(l), PathSeg::Index(index)) => l.get(*index),
                _ => None,
            };
            match next {
                Some(v) => {
                    current = v;
                },
                None => {
                    return None;
                },
            }
            i = i + 1;
        }
        proof {
            assert(path@.skip(i as int) =~= Seq::<SegView>::empty());
        }
        Some(current)
    }

    /// Returns a Value with the same content.
    pub fn deep_copy(&self) -> (c: Value)
        ensures
            c@ == self@,
        decreases self,
    {
        proof {
            lemma_kind_content(*self);
        }
        let kind = match &*self.kind {
            ValueKind::Null => ValueKind::Null,
            ValueKind::Bool(b) => ValueKind::Bool(*b),
            ValueKind::Int(i) => ValueKind::Int(*i),
            ValueKind::Float(f) => ValueKind::Float(*f),
            ValueKind::String(s) => ValueKind::String(s.clone()),
            ValueKind::Text(t) => ValueKind::Text(Text::new(t.as_str())),
            ValueKind::List(l) => {
                let mut out: Vec<Value> = Vec::new();
                let mut i: usize = 0;
                while i < l.items.len()
                    invariant
                        i <= l.items@.len(),
                        contents(out@) == contents(l.items@).take(i as int),
                        out@.len() == i,
                        *self.kind == ValueKind::List(*l),
                    decreases l.items@.len() - i,
                {
                    proof {
                        assert(decreases_to!(*self => (*self.kind)->List_0));
                        assert(decreases_to!((*self.kind)->List_0 => l.items));
                        assert(decreases_to!(l.items => l.items@[i as int]));
                        assert(decreases_to!(*self => l.items@[i as int]));
                    }
                    let c = l.items[i].deep_copy();
                    let ghost before = out@;
                    out.push(c);
                    proof {
                        assert(out@ == before.push(c));
                        assert forall|k: int| 0 <= k < i + 1 implies #[trigger] contents(out@)[k]
                            == contents(l.items@).take(i + 1)[k] by {
                            if k < i {
                                assert(contents(before)[k] == contents(l.items@).take(i as int)[k]);
                                assert(out@[k] == before[k]);
                            }
                        }
                        assert(contents(out@) =~= contents(l.items@).take(i + 1));
                    }
                    i = i + 1;
                }
                proof {
                    assert(contents(l.items@).take(i as int) =~= contents(l.items@));
                }
                ValueKind::List(List { items: out })
            },
            ValueKind::KeyMap(m) => {
                let mut out: Vec<(String, Value)> = Vec::new();
                let mut i: usize = 0;
                proof {
                    use_type_invariant(m);
                }
                while i < m.entries.len()
                    invariant
                        i <= m.entries@.len(),
                        entry_contents(out@) == entry_contents(m.entries@).take(i as int),
                        keyed_entries(out@).len() == i,
                        forall|j: int| 0 <= j < i ==> #[trigger] keyed_entries(out@)[j].0 == keyed_entries(m.entries@)[j].0,
                        *self.kind == ValueKind::KeyMap(*m),
                    decreases m.entries@.len() - i,
                {
                    proof {
                        assert(decreases_to!(*self => (*self.kind)->KeyMap_0));
                        assert(decreases_to!((*self.kind)->KeyMap_0 => m.entries));
                        assert(decreases_to!(m.entries => m.entries@[i as int]));
                        assert(decreases_to!(m.entries@[i as int] => m.entries@[i as int].1));
                        assert(decreases_to!(*self => m.entries@[i as int].1));
                    }
                    let c = m.entries[i].1.deep_copy();
                    let k = m.entries[i].0.clone();
                    let ghost before = out@;
                    out.push((k, c));
                    proof {
                        assert(entry_contents(out@) =~= entry_contents(m.entries@).take(i + 1));
                        assert forall|j: int| 0 <= j < i + 1 implies #[trigger] keyed_entries(out@)[j].0
                            == keyed_entries(m.entries@)[j].0 by {
                            if j < i {
                                assert(keyed_entries(out@)[j] == keyed_entries(before)[j]);
                            }
                        }
                    }
                    i = i + 1;
                }
                proof {
                    assert(entry_contents(m.entries@).take(i as int) =~= entry_contents(m.entries@));
                    assert(keyed_entries(out@).len() == keyed_entries(m.entries@).len());
                }
                ValueKind::KeyMap(KeyMap { entries: out })
            },
        };
        Value::from_kind(kind)
    }
}

impl Clone for Value {
    fn clone(&self) -> (c: Self)
        ensures
            c@ == self@,
    {
        self.deep_copy()
    }
}

} // verus!
