//! Identity-bearing content trees: every element owns a stable identity, and
//! elements are found, replaced, detached and attached by that identity.
use crate::engine::{missing, structural, type_error, Destination, Ref, Segment};
use crate::change::byte_len;
use crate::error::{CollaError, ErrorCode};
use crate::identity::ElementId;
use crate::text_buf::str_byte_len;
use crate::keyed::{keyed_entries, locate_key};
use crate::keys::{key_lt, lemma_key_lt_asymmetric};
use crate::value::FiniteF64;
use vstd::prelude::*;

verus! {

/// One step of a path in the mathematical model: a Map key or a List index.
pub enum Slot {
    Key(Seq<char>),
    Index(int),
}

/// The mathematical form of an identity-bearing element.
pub struct Tree {
    pub id: (Seq<u8>, u64),
    pub shape: Shape,
}

/// The mathematical form of an element's content.
pub enum Shape {
    Null,
    Bool(bool),
    Int(i64),
    Float(u64),
    Str(Seq<char>),
    Text(Seq<char>),
    Ref((Seq<u8>, u64)),
    List(Seq<Tree>),
    KeyMap(Seq<(Seq<char>, Tree)>),
}

/// The closed content model of an identity-bearing element.
#[derive(Debug)]
pub enum Body {
    /// The null atomic value.
    Null,
    /// An atomic boolean.
    Bool(bool),
    /// A signed 64-bit integer.
    Int(i64),
    /// A finite canonical floating-point value, by its bit pattern.
    Float(FiniteF64),
    /// An atomic UTF-8 string without character-level editing.
    String(String),
    /// Collaborative Unicode scalar text.
    Text(String),
    /// A one-hop weak reference to an element identity.
    Ref(Ref),
    /// An ordered collection of owning child elements.
    List(Vec<Value>),
    /// Owning child elements under keys, in strictly ascending key order.
    KeyMap(Vec<(String, Value)>),
}

/// An identity-preserving subtree: a stable owning identity and its content.
#[derive(Debug)]
pub struct Value {
    id: ElementId,
    body: Box<Body>,
}

/// The content of an element.
pub closed spec fn body_of(v: Value) -> Body {
    *v.body
}

/// The mathematical form of an element.
pub closed spec fn tree_of(v: Value) -> Tree
    decreases v,
{
    Tree {
        id: v.id@,
        shape: match *v.body {
            Body::Null => Shape::Null,
            Body::Bool(b) => Shape::Bool(b),
            Body::Int(n) => Shape::Int(n),
            Body::Float(f) => Shape::Float(f@),
            Body::String(s) => Shape::Str(s@),
            Body::Text(s) => Shape::Text(s@),
            Body::Ref(r) => Shape::Ref(r.target@),
            Body::List(vs) => Shape::List(
                Seq::new(
                    vs@.len(),
                    |i: int|
                        if 0 <= i < vs@.len() {
                            tree_of(vs@[i])
                        } else {
                            Tree { id: (Seq::empty(), 0), shape: Shape::Null }
                        },
                ),
            ),
            Body::KeyMap(es) => Shape::KeyMap(
                Seq::new(
                    es@.len(),
                    |i: int|
                        if 0 <= i < es@.len() {
                            (es@[i].0@, tree_of(es@[i].1))
                        } else {
                            (Seq::empty(), Tree { id: (Seq::empty(), 0), shape: Shape::Null })
                        },
                ),
            ),
        },
    }
}

impl View for Value {
    type V = Tree;

    open spec fn view(&self) -> Tree {
        tree_of(*self)
    }
}

/// The children of an element are smaller than it.
pub proof fn lemma_kids_smaller(v: Value)
    ensures
        forall|i: int|
            #![trigger body_of(v)->List_0@[i]]
            body_of(v) is List && 0 <= i < body_of(v)->List_0@.len() ==> decreases_to!(v => body_of(v)->List_0@[i]),
        forall|i: int|
            #![trigger body_of(v)->KeyMap_0@[i]]
            body_of(v) is KeyMap && 0 <= i < body_of(v)->KeyMap_0@.len() ==> decreases_to!(v => body_of(v)->KeyMap_0@[i].1),
{
    assert forall|i: int|
        body_of(v) is List && 0 <= i < body_of(v)->List_0@.len() implies decreases_to!(v => body_of(v)->List_0@[i]) by {
        let vs = (*v.body)->List_0;
        assert(decreases_to!(v => *v.body));
        assert(decreases_to!(*v.body => vs));
        assert(decreases_to!(vs => vs@[i]));
    }
    assert forall|i: int|
        body_of(v) is KeyMap && 0 <= i < body_of(v)->KeyMap_0@.len() implies decreases_to!(v => body_of(v)->KeyMap_0@[i].1) by {
        let es = (*v.body)->KeyMap_0;
        assert(decreases_to!(v => *v.body));
        assert(decreases_to!(*v.body => es));
        assert(decreases_to!(es => es@[i]));
        assert(decreases_to!(es@[i] => es@[i].1));
    }
}

/// The shape of a scalar body.
pub proof fn lemma_body_shape(v: Value)
    ensures
        body_of(v) is Text ==> v@.shape == Shape::Text(body_of(v)->Text_0@),
        body_of(v) is Int ==> v@.shape == Shape::Int(body_of(v)->Int_0),
        (body_of(v) is Text) == (v@.shape is Text),
        (body_of(v) is Int) == (v@.shape is Int),
{
}

/// The model of a path segment.
pub open spec fn slot_of(s: Segment) -> Slot {
    match s {
        Segment::Key(k) => Slot::Key(k@),
        Segment::Index(i) => Slot::Index(i as int),
    }
}

/// The model of a path.
pub open spec fn slots(p: Seq<Segment>) -> Seq<Slot> {
    Seq::new(p.len(), |i: int| slot_of(p[i]))
}

/// The number of owned children of an element.
pub open spec fn kid_count(t: Tree) -> nat {
    match t.shape {
        Shape::List(cs) => cs.len(),
        Shape::KeyMap(es) => es.len(),
        _ => 0,
    }
}

/// The path to, and the element with, identity `id`, searching the element
/// itself first and then its children in order.
pub open spec fn locate(t: Tree, id: (Seq<u8>, u64)) -> Option<(Seq<Slot>, Tree)>
    decreases t, 1nat, 0nat,
{
    if t.id == id {
        Some((Seq::empty(), t))
    } else {
        locate_among(t, kid_count(t), id)
    }
}

/// The first hit of `locate` among the first `k` children of `t`.
pub open spec fn locate_among(t: Tree, k: nat, id: (Seq<u8>, u64)) -> Option<(Seq<Slot>, Tree)>
    decreases t, 0nat, k,
{
    if k == 0 || k > kid_count(t) {
        None
    } else {
        match locate_among(t, (k - 1) as nat, id) {
            Some(r) => Some(r),
            None => match t.shape {
                Shape::List(cs) => match locate(cs[k - 1], id) {
                    Some(r) => Some((seq![Slot::Index(k - 1)] + r.0, r.1)),
                    None => None,
                },
                Shape::KeyMap(es) => match locate(es[k - 1].1, id) {
                    Some(r) => Some((seq![Slot::Key(es[k - 1].0)] + r.0, r.1)),
                    None => None,
                },
                _ => None,
            },
        }
    }
}

/// The element with identity `id` within `t`.
pub open spec fn node_of(t: Tree, id: (Seq<u8>, u64)) -> Option<Tree> {
    match locate(t, id) {
        Some(r) => Some(r.1),
        None => None,
    }
}

/// The path from `t` to the element with identity `id`.
pub open spec fn path_to(t: Tree, id: (Seq<u8>, u64)) -> Option<Seq<Slot>> {
    match locate(t, id) {
        Some(r) => Some(r.0),
        None => None,
    }
}

/// Whether two identities are the same.
pub fn same_id(a: ElementId, b: ElementId) -> (r: bool)
    ensures
        r == (a@ == b@),
{
    let x = a.namespace();
    let y = b.namespace();
    let mut i: usize = 0;
    while i < 16
        invariant
            0 <= i <= 16,
            x@ == a@.0,
            y@ == b@.0,
            x@.len() == 16,
            y@.len() == 16,
            forall|j: int| 0 <= j < i ==> x@[j] == y@[j],
        decreases 16 - i,
    {
        if x[i] != y[i] {
            return false;
        }
        i += 1;
    }
    assert(x@ =~= y@);
    a.sequence() == b.sequence()
}

impl Value {
    /// Builds an element from its identity and content, unchecked.
    pub(crate) fn trusted(id: ElementId, body: Body) -> (v: Value)
        ensures
            v@.id == id@,
            body_of(v) == body,
            body is Text ==> v@.shape == Shape::Text(body->Text_0@),
            body is Int ==> v@.shape == Shape::Int(body->Int_0),
    {
        Value { id, body: Box::new(body) }
    }

    /// Returns this element's stable owning identity.
    pub fn id(&self) -> (id: ElementId)
        ensures
            id@ == self@.id,
    {
        self.id
    }

    /// Borrows the typed content of this element.
    pub fn body(&self) -> (b: &Body)
        ensures
            *b == body_of(*self),
    {
        &self.body
    }

    /// An independent copy of this element with the same identities.
    pub fn copy(&self) -> (c: Value)
        ensures
            c@ == self@,
        decreases self,
    {
        match &*self.body {
            Body::List(vs) => {
                let mut out: Vec<Value> = Vec::new();
                let mut i: usize = 0;
                while i < vs.len()
                    invariant
                        0 <= i <= vs@.len(),
                        *self.body == Body::List(*vs),
                        out@.len() == i,
                        forall|j: int| 0 <= j < i ==> out@[j]@ == vs@[j]@,
                    decreases vs@.len() - i,
                {
                    proof {
                        assert(decreases_to!(*self => *self.body));
                        assert(decreases_to!(*self.body => (*self.body)->List_0));
                        assert(decreases_to!(vs => vs@[i as int]));
                    }
                    out.push(vs[i].copy());
                    i += 1;
                }
                let c = Value { id: self.id, body: Box::new(Body::List(out)) };
                proof {
                    assert(c@.shape->List_0 =~= self@.shape->List_0);
                }
                c
            },
            Body::KeyMap(es) => {
                let mut out: Vec<(String, Value)> = Vec::new();
                let mut i: usize = 0;
                while i < es.len()
                    invariant
                        0 <= i <= es@.len(),
                        *self.body == Body::KeyMap(*es),
                        out@.len() == i,
                        forall|j: int|
                            0 <= j < i ==> out@[j].0@ == es@[j].0@ && out@[j].1@ == es@[j].1@,
                    decreases es@.len() - i,
                {
                    proof {
                        assert(decreases_to!(*self => *self.body));
                        assert(decreases_to!(*self.body => (*self.body)->KeyMap_0));
                        assert(decreases_to!(es => es@[i as int]));
                        assert(decreases_to!(es@[i as int] => es@[i as int].1));
                    }
                    let c = es[i].1.copy();
                    out.push((es[i].0.clone(), c));
                    i += 1;
                }
                let c = Value { id: self.id, body: Box::new(Body::KeyMap(out)) };
                proof {
                    assert(c@.shape->KeyMap_0 =~= self@.shape->KeyMap_0);
                }
                c
            },
            Body::Null => Value { id: self.id, body: Box::new(Body::Null) },
            Body::Bool(b) => Value { id: self.id, body: Box::new(Body::Bool(*b)) },
            Body::Int(n) => Value { id: self.id, body: Box::new(Body::Int(*n)) },
            Body::Float(f) => Value { id: self.id, body: Box::new(Body::Float(*f)) },
            Body::String(s) => Value { id: self.id, body: Box::new(Body::String(s.clone())) },
            Body::Text(s) => Value { id: self.id, body: Box::new(Body::Text(s.clone())) },
            Body::Ref(r) => Value { id: self.id, body: Box::new(Body::Ref(*r)) },
        }
    }
}

/// The model of a search result: a path and the element found there.
pub open spec fn hit_view(r: Option<(Vec<Segment>, &Value)>) -> Option<(Seq<Slot>, Tree)> {
    match r {
        Some(x) => Some((slots(x.0@), x.1@)),
        None => None,
    }
}

/// `slots` of a path with a step in front.
proof fn lemma_slots_front(s: Segment, p: Seq<Segment>)
    ensures
        slots(seq![s] + p) =~= seq![slot_of(s)] + slots(p),
{
}

/// Once found among the first `j` children, the hit stays the first hit.
pub proof fn lemma_among_stable(t: Tree, j: nat, k: nat, id: (Seq<u8>, u64))
    requires
        j <= k <= kid_count(t),
        locate_among(t, j, id) is Some,
    ensures
        locate_among(t, k, id) == locate_among(t, j, id),
    decreases k,
{
    if k > j {
        lemma_among_stable(t, j, (k - 1) as nat, id);
    }
}

impl Value {
    /// Finds the element with identity `id` and the path to it, searching
    /// this element first and then its children in order.
    pub fn locate(&self, id: ElementId) -> (r: Option<(Vec<Segment>, &Value)>)
        ensures
            hit_view(r) == locate(self@, id@),
        decreases self,
    {
        if same_id(self.id, id) {
            return Some((Vec::new(), self));
        }
        match &*self.body {
            Body::List(vs) => {
                let mut i: usize = 0;
                while i < vs.len()
                    invariant
                        0 <= i <= vs@.len(),
                        *self.body == Body::List(*vs),
                        self@.id != id@,
                        locate_among(self@, i as nat, id@) is None,
                    decreases vs@.len() - i,
                {
                    proof {
                        assert(decreases_to!(*self => *self.body));
                        assert(decreases_to!(*self.body => (*self.body)->List_0));
                        assert(decreases_to!(vs => vs@[i as int]));
                        assert(self@.shape->List_0[i as int] == vs@[i as int]@);
                    }
                    match vs[i].locate(id) {
                        Some(hit) => {
                            let (mut path, node) = hit;
                            let ghost tail = path@;
                            path.insert(0, Segment::Index(i));
                            proof {
                                assert(path@ =~= seq![Segment::Index(i)] + tail);
                                lemma_slots_front(Segment::Index(i), tail);
                                lemma_among_stable(self@, (i + 1) as nat, kid_count(self@), id@);
                            }
                            return Some((path, node));
                        },
                        None => {},
                    }
                    i += 1;
                }
                None
            },
            Body::KeyMap(es) => {
                let mut i: usize = 0;
                while i < es.len()
                    invariant
                        0 <= i <= es@.len(),
                        *self.body == Body::KeyMap(*es),
                        self@.id != id@,
                        locate_among(self@, i as nat, id@) is None,
                    decreases es@.len() - i,
                {
                    proof {
                        assert(decreases_to!(*self => *self.body));
                        assert(decreases_to!(*self.body => (*self.body)->KeyMap_0));
                        assert(decreases_to!(es => es@[i as int]));
                        assert(decreases_to!(es@[i as int] => es@[i as int].1));
                        assert(self@.shape->KeyMap_0[i as int] == (es@[i as int].0@, es@[i as int].1@));
                    }
                    match es[i].1.locate(id) {
                        Some(hit) => {
                            let (mut path, node) = hit;
                            let ghost tail = path@;
                            let key = es[i].0.clone();
                            path.insert(0, Segment::Key(key));
                            proof {
                                assert(path@ =~= seq![Segment::Key(key)] + tail);
                                lemma_slots_front(Segment::Key(key), tail);
                                lemma_among_stable(self@, (i + 1) as nat, kid_count(self@), id@);
                            }
                            return Some((path, node));
                        },
                        None => {},
                    }
                    i += 1;
                }
                None
            },
            _ => None,
        }
    }
}

/// The keys of entries, in order.
pub open spec fn keys_of(es: Seq<(Seq<char>, Tree)>) -> Seq<Seq<char>> {
    Seq::new(es.len(), |i: int| es[i].0)
}

/// `i` is where `k` is, or would go, among keys searched in order: every
/// key before `i` sorts before `k`, and the key at `i` does not.
pub open spec fn is_key_pos_in(ks: Seq<Seq<char>>, k: Seq<char>, i: int) -> bool {
    0 <= i <= ks.len() && (forall|j: int| 0 <= j < i ==> key_lt(#[trigger] ks[j], k)) && (i
        < ks.len() ==> !key_lt(ks[i], k))
}

/// Where `k` is, or would go, among the keys `ks`.
pub open spec fn key_pos_in(ks: Seq<Seq<char>>, k: Seq<char>) -> int {
    choose|i: int| is_key_pos_in(ks, k, i)
}

/// `i` is where `k` is, or would go, among the entries `es`.
pub open spec fn is_key_pos(es: Seq<(Seq<char>, Tree)>, k: Seq<char>, i: int) -> bool {
    is_key_pos_in(keys_of(es), k, i)
}

/// Where `k` is, or would go, among the entries `es`.
pub open spec fn key_pos(es: Seq<(Seq<char>, Tree)>, k: Seq<char>) -> int {
    key_pos_in(keys_of(es), k)
}

/// At most one position is a key position.
pub proof fn lemma_key_pos_unique(es: Seq<(Seq<char>, Tree)>, k: Seq<char>, i: int)
    requires
        is_key_pos(es, k, i),
    ensures
        key_pos(es, k) == i,
{
    let ks = keys_of(es);
    let c = key_pos(es, k);
    assert(is_key_pos_in(ks, k, c));
    if c < i {
        assert(key_lt(ks[c], k));
    } else if c > i {
        assert(key_lt(ks[i], k));
    }
}

/// The index of the child that slot `s` names in `t`.
pub open spec fn slot_index(t: Tree, s: Slot) -> Option<int> {
    match t.shape {
        Shape::List(cs) => match s {
            Slot::Index(i) => if 0 <= i < cs.len() {
                Some(i)
            } else {
                None
            },
            _ => None,
        },
        Shape::KeyMap(es) => match s {
            Slot::Key(k) => if 0 <= key_pos(es, k) < es.len() && es[key_pos(es, k)].0 == k {
                Some(key_pos(es, k))
            } else {
                None
            },
            _ => None,
        },
        _ => None,
    }
}

/// The `i`-th child of `t`.
pub open spec fn kid(t: Tree, i: int) -> Tree {
    match t.shape {
        Shape::List(cs) => cs[i],
        Shape::KeyMap(es) => es[i].1,
        _ => t,
    }
}

/// `t` with its `i`-th child replaced by `c`.
pub open spec fn with_kid(t: Tree, i: int, c: Tree) -> Tree {
    match t.shape {
        Shape::List(cs) => Tree { id: t.id, shape: Shape::List(cs.update(i, c)) },
        Shape::KeyMap(es) => Tree { id: t.id, shape: Shape::KeyMap(es.update(i, (es[i].0, c))) },
        _ => t,
    }
}

/// The element at path `p` from `t`.
pub open spec fn at_path(t: Tree, p: Seq<Slot>) -> Option<Tree>
    decreases p.len(),
{
    if p.len() == 0 {
        Some(t)
    } else {
        match slot_index(t, p[0]) {
            Some(i) => at_path(kid(t, i), p.drop_first()),
            None => None,
        }
    }
}

/// `t` with the element at path `p` replaced by `r`.
pub open spec fn replace_path(t: Tree, p: Seq<Slot>, r: Tree) -> Tree
    decreases p.len(),
{
    if p.len() == 0 {
        r
    } else {
        match slot_index(t, p[0]) {
            Some(i) => with_kid(t, i, replace_path(kid(t, i), p.drop_first(), r)),
            None => t,
        }
    }
}

/// Copies the elements of `vs`.
fn copy_values(vs: &Vec<Value>) -> (out: Vec<Value>)
    ensures
        out@.len() == vs@.len(),
        forall|j: int| 0 <= j < vs@.len() ==> out@[j]@ == vs@[j]@,
{
    let mut out: Vec<Value> = Vec::new();
    let mut i: usize = 0;
    while i < vs.len()
        invariant
            0 <= i <= vs@.len(),
            out@.len() == i,
            forall|j: int| 0 <= j < i ==> out@[j]@ == vs@[j]@,
        decreases vs@.len() - i,
    {
        out.push(vs[i].copy());
        i += 1;
    }
    out
}

/// Copies the entries of `es`.
fn copy_kv(es: &Vec<(String, Value)>) -> (out: Vec<(String, Value)>)
    ensures
        out@.len() == es@.len(),
        forall|j: int| 0 <= j < es@.len() ==> out@[j].0@ == es@[j].0@ && out@[j].1@ == es@[j].1@,
{
    let mut out: Vec<(String, Value)> = Vec::new();
    let mut i: usize = 0;
    while i < es.len()
        invariant
            0 <= i <= es@.len(),
            out@.len() == i,
            forall|j: int| 0 <= j < i ==> out@[j].0@ == es@[j].0@ && out@[j].1@ == es@[j].1@,
        decreases es@.len() - i,
    {
        let c = es[i].1.copy();
        out.push((es[i].0.clone(), c));
        i += 1;
    }
    out
}

/// The view of a List element's children.
proof fn lemma_list_view(v: Value, vs: Vec<Value>)
    requires
        *v.body == Body::List(vs),
    ensures
        v@.shape is List,
        v@.shape->List_0.len() == vs@.len(),
        forall|j: int| 0 <= j < vs@.len() ==> #[trigger] v@.shape->List_0[j] == vs@[j]@,
{
}

/// The view of a Map element's entries.
proof fn lemma_map_view(v: Value, es: Vec<(String, Value)>)
    requires
        *v.body == Body::KeyMap(es),
    ensures
        v@.shape is KeyMap,
        v@.shape->KeyMap_0.len() == es@.len(),
        forall|j: int|
            0 <= j < es@.len() ==> #[trigger] v@.shape->KeyMap_0[j] == (es@[j].0@, es@[j].1@),
{
}

impl Value {
    /// The index of the child that `seg` names.
    pub(crate) fn slot_index(&self, seg: &Segment) -> (r: Option<usize>)
        ensures
            match r {
                Some(i) => slot_index(self@, slot_of(*seg)) == Some(i as int),
                None => slot_index(self@, slot_of(*seg)) is None,
            },
    {
        match (&*self.body, seg) {
            (Body::List(vs), Segment::Index(i)) => {
                proof {
                    lemma_list_view(*self, *vs);
                }
                if *i < vs.len() {
                    Some(*i)
                } else {
                    None
                }
            },
            (Body::KeyMap(es), Segment::Key(k)) => {
                proof {
                    lemma_map_view(*self, *es);
                }
                let (i, found) = locate_key(es, k.as_str());
                proof {
                    let t = self@.shape->KeyMap_0;
                    assert forall|j: int| 0 <= j < i implies key_lt(#[trigger] keys_of(t)[j], k@) by {
                        assert(keyed_entries(es@)[j].0 == t[j].0);
                    }
                    if (i as int) < es@.len() {
                        assert(keyed_entries(es@)[i as int].0 == t[i as int].0);
                        if found {
                            lemma_key_lt_asymmetric(k@, k@);
                        } else {
                            lemma_key_lt_asymmetric(k@, t[i as int].0);
                        }
                    }
                    assert(is_key_pos(t, k@, i as int));
                    lemma_key_pos_unique(t, k@, i as int);
                    if !found && (i as int) < es@.len() {
                        lemma_key_lt_asymmetric(k@, t[i as int].0);
                    }
                }
                if found {
                    Some(i)
                } else {
                    None
                }
            },
            _ => None,
        }
    }

    /// Borrows the `i`-th child.
    pub(crate) fn kid(&self, i: usize) -> (c: &Value)
        requires
            i < kid_count(self@),
        ensures
            c@ == kid(self@, i as int),
    {
        match &*self.body {
            Body::List(vs) => {
                proof {
                    lemma_list_view(*self, *vs);
                }
                &vs[i]
            },
            Body::KeyMap(es) => {
                proof {
                    lemma_map_view(*self, *es);
                }
                &es[i].1
            },
            _ => self,
        }
    }

    /// A copy of this element with its `i`-th child replaced by `c`.
    pub(crate) fn with_kid(&self, i: usize, c: Value) -> (r: Value)
        requires
            i < kid_count(self@),
        ensures
            r@ == with_kid(self@, i as int, c@),
    {
        match &*self.body {
            Body::List(vs) => {
                proof {
                    lemma_list_view(*self, *vs);
                }
                let mut out = copy_values(vs);
                out.set(i, c);
                let r = Value { id: self.id, body: Box::new(Body::List(out)) };
                proof {
                    lemma_list_view(r, out);
                    assert(r@.shape->List_0 =~= with_kid(self@, i as int, c@).shape->List_0);
                }
                r
            },
            Body::KeyMap(es) => {
                proof {
                    lemma_map_view(*self, *es);
                }
                let mut out = copy_kv(es);
                let key = es[i].0.clone();
                out.set(i, (key, c));
                let r = Value { id: self.id, body: Box::new(Body::KeyMap(out)) };
                proof {
                    lemma_map_view(r, out);
                    assert(r@.shape->KeyMap_0 =~= with_kid(self@, i as int, c@).shape->KeyMap_0);
                }
                r
            },
            _ => self.copy(),
        }
    }

    /// Borrows the element at `path[from..]`.
    pub(crate) fn at_path(&self, path: &Vec<Segment>, from: usize) -> (r: Option<&Value>)
        requires
            from <= path@.len(),
        ensures
            match r {
                Some(v) => at_path(self@, slots(path@.skip(from as int))) == Some(v@),
                None => at_path(self@, slots(path@.skip(from as int))) is None,
            },
        decreases path@.len() - from,
    {
        let ghost p = slots(path@.skip(from as int));
        if from == path.len() {
            return Some(self);
        }
        proof {
            assert(p[0] == slot_of(path@[from as int]));
            assert(p.drop_first() =~= slots(path@.skip(from + 1)));
        }
        match self.slot_index(&path[from]) {
            Some(i) => self.kid(i).at_path(path, from + 1),
            None => None,
        }
    }

    /// A copy of this element with the element at `path[from..]` replaced by `r`.
    pub(crate) fn replace_path(&self, path: &Vec<Segment>, from: usize, r: Value) -> (out: Value)
        requires
            from <= path@.len(),
        ensures
            out@ == replace_path(self@, slots(path@.skip(from as int)), r@),
        decreases path@.len() - from,
    {
        let ghost p = slots(path@.skip(from as int));
        if from == path.len() {
            return r;
        }
        proof {
            assert(p[0] == slot_of(path@[from as int]));
            assert(p.drop_first() =~= slots(path@.skip(from + 1)));
        }
        match self.slot_index(&path[from]) {
            Some(i) => {
                let c = self.kid(i).replace_path(path, from + 1, r);
                self.with_kid(i, c)
            },
            None => self.copy(),
        }
    }
}

/// The largest number of UTF-8 bytes in a string, text or key.
pub open spec fn max_string_bytes() -> nat {
    16_777_216
}

/// The identities of `ids`.
pub open spec fn id_views(ids: Seq<ElementId>) -> Seq<(Seq<u8>, u64)> {
    Seq::new(ids.len(), |i: int| ids[i]@)
}

/// The outcome of checking `t` at ownership depth `depth`, after the
/// identities `seen`, walking the element before its children in order: the
/// identities seen afterwards, or the code of the first failed check.
pub open spec fn walk(t: Tree, seen: Seq<(Seq<u8>, u64)>, depth: int) -> Result<
    Seq<(Seq<u8>, u64)>,
    ErrorCode,
>
    decreases t, 1nat, 0nat,
{
    if depth > 100 || seen.len() >= 1_000_000 {
        Err(ErrorCode::LimitExceeded)
    } else if seen.contains(t.id) {
        Err(ErrorCode::InvalidValue)
    } else {
        let next = seen.push(t.id);
        match t.shape {
            Shape::Str(x) => if byte_len(x) > max_string_bytes() {
                Err(ErrorCode::LimitExceeded)
            } else {
                Ok(next)
            },
            Shape::Text(x) => if byte_len(x) > max_string_bytes() {
                Err(ErrorCode::LimitExceeded)
            } else {
                Ok(next)
            },
            Shape::List(_) => walk_kids(t, kid_count(t), next, depth + 1),
            Shape::KeyMap(_) => walk_kids(t, kid_count(t), next, depth + 1),
            _ => Ok(next),
        }
    }
}

/// `walk` over the first `k` children of `t`, each Map key checked (to
/// sort after the key before it, and for its length) before its element.
pub open spec fn walk_kids(t: Tree, k: nat, seen: Seq<(Seq<u8>, u64)>, depth: int) -> Result<
    Seq<(Seq<u8>, u64)>,
    ErrorCode,
>
    decreases t, 0nat, k,
{
    if k == 0 || k > kid_count(t) {
        Ok(seen)
    } else {
        match walk_kids(t, (k - 1) as nat, seen, depth) {
            Err(e) => Err(e),
            Ok(s) => match t.shape {
                Shape::List(cs) => walk(cs[k - 1], s, depth),
                Shape::KeyMap(es) => if k >= 2 && !key_lt(es[k - 2].0, es[k - 1].0) {
                    Err(ErrorCode::InvalidValue)
                } else if byte_len(es[k - 1].0) > max_string_bytes() {
                    Err(ErrorCode::LimitExceeded)
                } else {
                    walk(es[k - 1].1, s, depth)
                },
                _ => Ok(s),
            },
        }
    }
}

/// The outcome of validating a whole element: unique owning identities,
/// ownership depth at most 100, fewer than a million elements, Map keys in
/// strictly ascending order, and strings, texts and keys of at most 16 MiB.
pub open spec fn validation(t: Tree) -> Result<(), ErrorCode> {
    match walk(t, Seq::empty(), 1) {
        Ok(_) => Ok(()),
        Err(e) => Err(e),
    }
}

/// A valid element.
pub open spec fn valid(t: Tree) -> bool {
    validation(t) is Ok
}

/// A failure among the first `j` children is the failure of the first `k`.
proof fn lemma_walk_kids_err(t: Tree, j: nat, k: nat, seen: Seq<(Seq<u8>, u64)>, depth: int)
    requires
        1 <= j <= k <= kid_count(t),
        walk_kids(t, j, seen, depth) is Err,
    ensures
        walk_kids(t, k, seen, depth) == walk_kids(t, j, seen, depth),
    decreases k,
{
    if k > j {
        lemma_walk_kids_err(t, j, (k - 1) as nat, seen, depth);
    }
}

/// Whether `seen` holds `id`.
fn seen_holds(seen: &Vec<ElementId>, id: ElementId) -> (r: bool)
    ensures
        r == id_views(seen@).contains(id@),
{
    let mut i: usize = 0;
    while i < seen.len()
        invariant
            0 <= i <= seen@.len(),
            forall|j: int| 0 <= j < i ==> seen@[j]@ != id@,
        decreases seen@.len() - i,
    {
        if same_id(seen[i], id) {
            proof {
                assert(id_views(seen@)[i as int] == id@);
            }
            return true;
        }
        i += 1;
    }
    proof {
        if id_views(seen@).contains(id@) {
            let j = choose|j: int| 0 <= j < id_views(seen@).len() && id_views(seen@)[j] == id@;
            assert(seen@[j]@ == id@);
        }
    }
    false
}

/// Rejects a string over 16 MiB of UTF-8.
fn check_string(s: &str) -> (r: Result<(), CollaError>)
    ensures
        r is Ok <==> byte_len(s@) <= max_string_bytes(),
        r matches Err(e) ==> e.code == ErrorCode::LimitExceeded,
{
    if str_byte_len(s) > 16 * 1024 * 1024 {
        return Err(CollaError::new(ErrorCode::LimitExceeded, "string exceeds input limit"));
    }
    Ok(())
}

impl Value {
    /// Checks this element at depth `depth` after the identities in `seen`.
    fn walk(&self, seen: &mut Vec<ElementId>, depth: usize) -> (r: Result<(), CollaError>)
        requires
            depth <= 101,
        ensures
            match walk(self@, id_views(old(seen)@), depth as int) {
                Ok(s) => r is Ok && id_views(final(seen)@) == s,
                Err(c) => r is Err && r->Err_0.code == c,
            },
        decreases self,
    {
        if depth > 100 || seen.len() >= 1_000_000 {
            return Err(
                CollaError::new(ErrorCode::LimitExceeded, "value depth or node limit exceeded"),
            );
        }
        if seen_holds(seen, self.id) {
            let text = self.id.to_hex_string();
            return Err(
                CollaError::new(ErrorCode::InvalidValue, "duplicate owning element ID").detail(
                    "elementId",
                    text.as_str(),
                ),
            );
        }
        let ghost before = id_views(seen@);
        seen.push(self.id);
        proof {
            assert(id_views(seen@) =~= before.push(self@.id));
            assert(!before.contains(self@.id));
        }
        match &*self.body {
            Body::String(x) => check_string(x.as_str()),
            Body::Text(x) => check_string(x.as_str()),
            Body::List(vs) => {
                proof {
                    lemma_list_view(*self, *vs);
                }
                let ghost start = id_views(seen@);
                proof {
                    assert(walk(self@, before, depth as int) == walk_kids(self@, vs@.len(), start, depth + 1));
                }
                let mut i: usize = 0;
                while i < vs.len()
                    invariant
                        before == id_views(old(seen)@),
                        walk(self@, before, depth as int) == walk_kids(self@, vs@.len(), start, depth + 1),
                        0 <= i <= vs@.len(),
                        depth <= 100,
                        *self.body == Body::List(*vs),
                        self@.shape->List_0.len() == vs@.len(),
                        forall|j: int| 0 <= j < vs@.len() ==> #[trigger] self@.shape->List_0[j] == vs@[j]@,
                        walk_kids(self@, i as nat, start, depth + 1) == Ok::<
                            Seq<(Seq<u8>, u64)>,
                            ErrorCode,
                        >(id_views(seen@)),
                    decreases vs@.len() - i,
                {
                    proof {
                        assert(decreases_to!(*self => *self.body));
                        assert(decreases_to!(*self.body => (*self.body)->List_0));
                        assert(decreases_to!(vs => vs@[i as int]));
                    }
                    let ghost pre = id_views(seen@);
                    let r = vs[i].walk(seen, depth + 1);
                    if r.is_err() {
                        proof {
                            assert(self@.shape->List_0[i as int] == vs@[i as int]@);
                            assert(walk_kids(self@, (i + 1) as nat, start, depth + 1) == walk(vs@[i as int]@, pre, depth + 1));
                            lemma_walk_kids_err(self@, (i + 1) as nat, vs@.len(), start, depth + 1);
                        }
                        return r;
                    }
                    i += 1;
                }
                Ok(())
            },
            Body::KeyMap(es) => {
                proof {
                    lemma_map_view(*self, *es);
                }
                let ghost start = id_views(seen@);
                proof {
                    assert(walk(self@, before, depth as int) == walk_kids(self@, es@.len(), start, depth + 1));
                }
                let mut i: usize = 0;
                while i < es.len()
                    invariant
                        before == id_views(old(seen)@),
                        walk(self@, before, depth as int) == walk_kids(self@, es@.len(), start, depth + 1),
                        0 <= i <= es@.len(),
                        depth <= 100,
                        *self.body == Body::KeyMap(*es),
                        self@.shape->KeyMap_0.len() == es@.len(),
                        forall|j: int|
                            0 <= j < es@.len() ==> #[trigger] self@.shape->KeyMap_0[j] == (
                                es@[j].0@,
                                es@[j].1@,
                            ),
                        walk_kids(self@, i as nat, start, depth + 1) == Ok::<
                            Seq<(Seq<u8>, u64)>,
                            ErrorCode,
                        >(id_views(seen@)),
                    decreases es@.len() - i,
                {
                    proof {
                        assert(decreases_to!(*self => *self.body));
                        assert(decreases_to!(*self.body => (*self.body)->KeyMap_0));
                        assert(decreases_to!(es => es@[i as int]));
                        assert(decreases_to!(es@[i as int] => es@[i as int].1));
                    }
                    let ghost pre = id_views(seen@);
                    proof {
                        assert(self@.shape->KeyMap_0[i as int] == (es@[i as int].0@, es@[i as int].1@));
                    }
                    if i >= 1 {
                        proof {
                            assert(self@.shape->KeyMap_0[i - 1] == (es@[i - 1].0@, es@[i - 1].1@));
                        }
                        if crate::keys::compare_keys(es[i - 1].0.as_str(), es[i].0.as_str())
                            != crate::keys::KeyOrder::Less {
                            proof {
                                assert(walk_kids(self@, (i + 1) as nat, start, depth + 1) is Err);
                                lemma_walk_kids_err(self@, (i + 1) as nat, es@.len(), start, depth + 1);
                            }
                            return Err(
                                CollaError::new(ErrorCode::InvalidValue, "map keys must be unique and sorted"),
                            );
                        }
                    }
                    let k = check_string(es[i].0.as_str());
                    if k.is_err() {
                        proof {
                            assert(walk_kids(self@, (i + 1) as nat, start, depth + 1) is Err);
                            lemma_walk_kids_err(self@, (i + 1) as nat, es@.len(), start, depth + 1);
                        }
                        return k;
                    }
                    let r = es[i].1.walk(seen, depth + 1);
                    if r.is_err() {
                        proof {
                            assert(walk_kids(self@, (i + 1) as nat, start, depth + 1) == walk(es@[i as int].1@, pre, depth + 1));
                            lemma_walk_kids_err(self@, (i + 1) as nat, es@.len(), start, depth + 1);
                        }
                        return r;
                    }
                    i += 1;
                }
                Ok(())
            },
            _ => Ok(()),
        }
    }

    /// Checks unique owning identities, an ownership depth of at most 100,
    /// fewer than a million elements, Map keys in strictly ascending order,
    /// and strings, texts and keys of at most 16 MiB, walking each element
    /// before its children.
    pub fn validate(&self) -> (r: Result<(), CollaError>)
        ensures
            match validation(self@) {
                Ok(_) => r is Ok,
                Err(c) => r is Err && r->Err_0.code == c,
            },
    {
        let mut seen: Vec<ElementId> = Vec::new();
        proof {
            assert(id_views(seen@) =~= Seq::<(Seq<u8>, u64)>::empty());
        }
        self.walk(&mut seen, 1)
    }
}

/// An element outcome meets its model: the same tree, or the same error code.
pub open spec fn meets(r: Result<Value, CollaError>, s: Result<Tree, ErrorCode>) -> bool {
    match s {
        Ok(t) => r is Ok && r->Ok_0@ == t,
        Err(c) => r is Err && r->Err_0.code == c,
    }
}

/// `t` with the element `id` replaced by `r`.
pub open spec fn replace_at(t: Tree, id: (Seq<u8>, u64), r: Tree) -> Result<Tree, ErrorCode> {
    match path_to(t, id) {
        Some(p) => Ok(replace_path(t, p, r)),
        None => Err(ErrorCode::MissingKey),
    }
}

/// The owning parent and slot of the element `id`.
pub open spec fn destination_of(t: Tree, id: (Seq<u8>, u64)) -> Result<((Seq<u8>, u64), Slot), ErrorCode> {
    match path_to(t, id) {
        None => Err(ErrorCode::MissingKey),
        Some(p) => if p.len() == 0 {
            Err(ErrorCode::InvalidArgument)
        } else {
            match at_path(t, p.drop_last()) {
                Some(n) => Ok((n.id, p.last())),
                None => Err(ErrorCode::MissingKey),
            }
        },
    }
}

/// `t` with `v` attached under the element `parent` at `slot`: a vacant Map
/// key, or a List position up to the List's length.
pub open spec fn attach(t: Tree, parent: (Seq<u8>, u64), slot: Slot, v: Tree) -> Result<Tree, ErrorCode> {
    match node_of(t, parent) {
        None => Err(ErrorCode::MissingKey),
        Some(par) => match par.shape {
            Shape::KeyMap(es) => match slot {
                Slot::Key(k) => if slot_index(par, slot) is Some {
                    Err(ErrorCode::StructuralConflict)
                } else {
                    replace_at(
                        t,
                        par.id,
                        Tree { id: par.id, shape: Shape::KeyMap(es.insert(key_pos(es, k), (k, v))) },
                    )
                },
                _ => Err(ErrorCode::TypeMismatch),
            },
            Shape::List(cs) => match slot {
                Slot::Index(i) => if i < 0 || i > cs.len() {
                    Err(ErrorCode::OutOfBounds)
                } else {
                    replace_at(t, par.id, Tree { id: par.id, shape: Shape::List(cs.insert(i, v)) })
                },
                _ => Err(ErrorCode::TypeMismatch),
            },
            _ => Err(ErrorCode::TypeMismatch),
        },
    }
}

/// `t` without its `i`-th child.
pub open spec fn without_kid(t: Tree, i: int) -> Tree {
    match t.shape {
        Shape::List(cs) => Tree { id: t.id, shape: Shape::List(cs.remove(i)) },
        Shape::KeyMap(es) => Tree { id: t.id, shape: Shape::KeyMap(es.remove(i)) },
        _ => t,
    }
}

/// `t` with the element `id` detached from its owning parent, and that element.
pub open spec fn detach(t: Tree, id: (Seq<u8>, u64)) -> Result<(Tree, Tree), ErrorCode> {
    match destination_of(t, id) {
        Err(e) => Err(e),
        Ok(d) => match node_of(t, d.0) {
            None => Err(ErrorCode::MissingKey),
            Some(par) => match slot_index(par, d.1) {
                None => Err(ErrorCode::MissingKey),
                Some(i) => match replace_at(t, par.id, without_kid(par, i)) {
                    Ok(r) => Ok((r, kid(par, i))),
                    Err(e) => Err(e),
                },
            },
        },
    }
}

impl Value {
    /// A copy of the element with identity `id`.
    pub fn get(&self, id: ElementId) -> (r: Result<Value, CollaError>)
        ensures
            meets(
                r,
                match node_of(self@, id@) {
                    Some(n) => Ok(n),
                    None => Err(ErrorCode::MissingKey),
                },
            ),
    {
        match self.locate(id) {
            Some((_, node)) => Ok(node.copy()),
            None => Err(missing(id)),
        }
    }

    /// A copy of this element with the element `id` replaced by `r`.
    pub(crate) fn replace_at(&self, id: ElementId, r: Value) -> (out: Result<Value, CollaError>)
        ensures
            meets(out, replace_at(self@, id@, r@)),
    {
        match self.locate(id) {
            Some((path, _)) => {
                let v = self.replace_path(&path, 0, r);
                proof {
                    assert(path@.skip(0) =~= path@);
                }
                Ok(v)
            },
            None => Err(missing(id)),
        }
    }

    /// The owning parent and slot of the element `id`.
    pub(crate) fn destination_of(&self, id: ElementId) -> (r: Result<Destination, CollaError>)
        ensures
            match destination_of(self@, id@) {
                Ok(d) => r is Ok && r->Ok_0.parent@ == d.0 && slot_of(r->Ok_0.slot) == d.1,
                Err(c) => r is Err && r->Err_0.code == c,
            },
    {
        match self.locate(id) {
            None => Err(missing(id)),
            Some((path, _)) => {
                let mut path = path;
                let ghost full = path@;
                match path.pop() {
                    None => Err(
                        CollaError::new(ErrorCode::InvalidArgument, "root has no owning parent"),
                    ),
                    Some(slot) => {
                        proof {
                            assert(path@ =~= full.drop_last());
                            assert(path@.skip(0) =~= path@);
                            assert(slots(full).drop_last() =~= slots(path@));
                        }
                        match self.at_path(&path, 0) {
                            Some(n) => Ok(Destination { parent: n.id, slot }),
                            None => Err(
                                CollaError::new(ErrorCode::MissingKey, "path segment not found"),
                            ),
                        }
                    },
                }
            },
        }
    }

    /// Attaches `v` under the element `destination.parent` at its slot.
    pub(crate) fn attach(&self, destination: &Destination, v: Value) -> (r: Result<Value, CollaError>)
        ensures
            meets(r, attach(self@, destination.parent@, slot_of(destination.slot), v@)),
    {
        let parent = match self.locate(destination.parent) {
            Some((_, node)) => node,
            None => {
                return Err(missing(destination.parent));
            },
        };
        let ghost par = parent@;
        match (&*parent.body, &destination.slot) {
            (Body::KeyMap(es), Segment::Key(k)) => {
                proof {
                    lemma_map_view(*parent, *es);
                }
                if parent.slot_index(&destination.slot).is_some() {
                    return Err(structural("Map destination key is occupied").detail("key", k.as_str()));
                }
                let (i, found) = locate_key(es, k.as_str());
                let ghost t = par.shape->KeyMap_0;
                proof {
                    assert forall|j: int| 0 <= j < i implies key_lt(#[trigger] keys_of(t)[j], k@) by {
                        assert(keyed_entries(es@)[j].0 == t[j].0);
                    }
                    if (i as int) < es@.len() {
                        assert(keyed_entries(es@)[i as int].0 == t[i as int].0);
                        if found {
                            lemma_key_lt_asymmetric(k@, k@);
                        } else {
                            lemma_key_lt_asymmetric(k@, t[i as int].0);
                        }
                    }
                    assert(is_key_pos(t, k@, i as int));
                    lemma_key_pos_unique(t, k@, i as int);
                }
                let mut next = copy_kv(es);
                let ghost vv = v@;
                next.insert(i, (k.clone(), v));
                let body = Value { id: parent.id, body: Box::new(Body::KeyMap(next)) };
                proof {
                    lemma_map_view(body, next);
                    assert(body@.shape->KeyMap_0 =~= t.insert(i as int, (k@, vv)));
                }
                self.replace_at(parent.id, body)
            },
            (Body::List(vs), Segment::Index(i)) => {
                proof {
                    lemma_list_view(*parent, *vs);
                }
                if *i > vs.len() {
                    return Err(
                        CollaError::new(ErrorCode::OutOfBounds, "List insertion index is out of bounds"),
                    );
                }
                let mut next = copy_values(vs);
                let ghost vv = v@;
                next.insert(*i, v);
                let body = Value { id: parent.id, body: Box::new(Body::List(next)) };
                proof {
                    lemma_list_view(body, next);
                    assert(body@.shape->List_0 =~= par.shape->List_0.insert(*i as int, vv));
                }
                self.replace_at(parent.id, body)
            },
            _ => Err(type_error("destination does not match parent kind")),
        }
    }

    /// A copy of this element without its `i`-th child.
    fn without_kid(&self, i: usize) -> (r: Value)
        requires
            i < kid_count(self@),
        ensures
            r@ == without_kid(self@, i as int),
    {
        match &*self.body {
            Body::List(vs) => {
                proof {
                    lemma_list_view(*self, *vs);
                }
                let mut out = copy_values(vs);
                out.remove(i);
                let r = Value { id: self.id, body: Box::new(Body::List(out)) };
                proof {
                    lemma_list_view(r, out);
                    assert(r@.shape->List_0 =~= self@.shape->List_0.remove(i as int));
                }
                r
            },
            Body::KeyMap(es) => {
                proof {
                    lemma_map_view(*self, *es);
                }
                let mut out = copy_kv(es);
                out.remove(i);
                let r = Value { id: self.id, body: Box::new(Body::KeyMap(out)) };
                proof {
                    lemma_map_view(r, out);
                    assert(r@.shape->KeyMap_0 =~= self@.shape->KeyMap_0.remove(i as int));
                }
                r
            },
            _ => self.copy(),
        }
    }

    /// Detaches the element `id` from its owning parent; returns the rest and
    /// the detached element.
    pub(crate) fn detach(&self, id: ElementId) -> (r: Result<(Value, Value), CollaError>)
        ensures
            match detach(self@, id@) {
                Ok(d) => r is Ok && r->Ok_0.0@ == d.0 && r->Ok_0.1@ == d.1,
                Err(c) => r is Err && r->Err_0.code == c,
            },
    {
        let destination = match self.destination_of(id) {
            Ok(d) => d,
            Err(e) => {
                return Err(e);
            },
        };
        let parent = match self.locate(destination.parent) {
            Some((_, node)) => node,
            None => {
                return Err(missing(destination.parent));
            },
        };
        let i = match parent.slot_index(&destination.slot) {
            Some(i) => i,
            None => {
                return Err(CollaError::new(ErrorCode::MissingKey, "owning edge not found"));
            },
        };
        let removed = parent.kid(i).copy();
        let rest = parent.without_kid(i);
        match self.replace_at(parent.id, rest) {
            Ok(v) => Ok((v, removed)),
            Err(e) => Err(e),
        }
    }
}

/// Whether two strings are equal.
fn same_string(a: &String, b: &String) -> (r: bool)
    ensures
        r == (a@ == b@),
{
    crate::keys::compare_keys(a.as_str(), b.as_str()) == crate::keys::KeyOrder::Equal
}

impl Value {
    /// Whether two elements are equal, identities included.
    pub fn same_value(&self, other: &Value) -> (r: bool)
        ensures
            r == (self@ == other@),
        decreases self,
    {
        if !same_id(self.id, other.id) {
            return false;
        }
        match (&*self.body, &*other.body) {
            (Body::Null, Body::Null) => true,
            (Body::Bool(a), Body::Bool(b)) => *a == *b,
            (Body::Int(a), Body::Int(b)) => *a == *b,
            (Body::Float(a), Body::Float(b)) => a.to_bits() == b.to_bits(),
            (Body::String(a), Body::String(b)) => same_string(a, b),
            (Body::Text(a), Body::Text(b)) => same_string(a, b),
            (Body::Ref(a), Body::Ref(b)) => same_id(a.target, b.target),
            (Body::List(xs), Body::List(ys)) => {
                proof {
                    lemma_list_view(*self, *xs);
                    lemma_list_view(*other, *ys);
                }
                if xs.len() != ys.len() {
                    return false;
                }
                let mut i: usize = 0;
                while i < xs.len()
                    invariant
                        0 <= i <= xs@.len(),
                        xs@.len() == ys@.len(),
                        *self.body == Body::List(*xs),
                        *other.body == Body::List(*ys),
                        forall|j: int| 0 <= j < i ==> xs@[j]@ == ys@[j]@,
                    decreases xs@.len() - i,
                {
                    proof {
                        assert(decreases_to!(*self => *self.body));
                        assert(decreases_to!(*self.body => (*self.body)->List_0));
                        assert(decreases_to!(xs => xs@[i as int]));
                    }
                    if !xs[i].same_value(&ys[i]) {
                        proof {
                            lemma_list_view(*self, *xs);
                            lemma_list_view(*other, *ys);
                            assert(self@.shape->List_0[i as int] != other@.shape->List_0[i as int]);
                        }
                        return false;
                    }
                    i += 1;
                }
                proof {
                    lemma_list_view(*self, *xs);
                    lemma_list_view(*other, *ys);
                    assert(self@.shape->List_0 =~= other@.shape->List_0);
                }
                true
            },
            (Body::KeyMap(xs), Body::KeyMap(ys)) => {
                proof {
                    lemma_map_view(*self, *xs);
                    lemma_map_view(*other, *ys);
                }
                if xs.len() != ys.len() {
                    return false;
                }
                let mut i: usize = 0;
                while i < xs.len()
                    invariant
                        0 <= i <= xs@.len(),
                        xs@.len() == ys@.len(),
                        *self.body == Body::KeyMap(*xs),
                        *other.body == Body::KeyMap(*ys),
                        forall|j: int| 0 <= j < i ==> xs@[j].0@ == ys@[j].0@ && xs@[j].1@ == ys@[j].1@,
                    decreases xs@.len() - i,
                {
                    proof {
                        assert(decreases_to!(*self => *self.body));
                        assert(decreases_to!(*self.body => (*self.body)->KeyMap_0));
                        assert(decreases_to!(xs => xs@[i as int]));
                        assert(decreases_to!(xs@[i as int] => xs@[i as int].1));
                    }
                    if !same_string(&xs[i].0, &ys[i].0) || !xs[i].1.same_value(&ys[i].1) {
                        proof {
                            lemma_map_view(*self, *xs);
                            lemma_map_view(*other, *ys);
                            assert(self@.shape->KeyMap_0[i as int] != other@.shape->KeyMap_0[i as int]);
                        }
                        return false;
                    }
                    i += 1;
                }
                proof {
                    lemma_map_view(*self, *xs);
                    lemma_map_view(*other, *ys);
                    assert(self@.shape->KeyMap_0 =~= other@.shape->KeyMap_0);
                }
                true
            },
            _ => false,
        }
    }
}

/// The shape of content `body`.
pub closed spec fn shape_of_body(body: Body) -> Shape {
    tree_of(Value { id: arbitrary(), body: Box::new(body) }).shape
}

/// The outcome of validating the element with identity `id` and content `body`.
pub open spec fn validated(id: (Seq<u8>, u64), body: Body) -> Result<Tree, ErrorCode> {
    let t = Tree { id, shape: shape_of_body(body) };
    match validation(t) {
        Ok(_) => Ok(t),
        Err(e) => Err(e),
    }
}

impl Value {
    /// Builds an element with identity `id` and content `body`, and validates it.
    pub fn with_id(id: ElementId, body: Body) -> (r: Result<Value, CollaError>)
        ensures
            meets(r, validated(id@, body)),
    {
        let v = Value { id, body: Box::new(body) };
        proof {
            assert(v@ == Tree { id: id@, shape: shape_of_body(body) });
        }
        match v.validate() {
            Ok(()) => Ok(v),
            Err(e) => Err(e),
        }
    }

    /// Builds an element whose identity `allocator` allocates, and validates it.
    pub fn with_allocator(body: Body, allocator: &mut crate::identity::IdAllocator) -> (r: Result<
        Value,
        CollaError,
    >)
        ensures
            final(allocator)@ == crate::identity::after_allocation(old(allocator)@),
            old(allocator)@.1 is None ==> r is Err && r->Err_0.code == ErrorCode::LimitExceeded,
            old(allocator)@.1 matches Some(s) ==> meets(r, validated((old(allocator)@.0, s), body)),
    {
        let id = allocator.allocate()?;
        Value::with_id(id, body)
    }
}

/// The lowercase name of a shape's kind.
pub open spec fn shape_kind(s: Shape) -> &'static str {
    match s {
        Shape::Null => "null",
        Shape::Bool(_) => "bool",
        Shape::Int(_) => "int",
        Shape::Float(_) => "float",
        Shape::Str(_) => "string",
        Shape::Text(_) => "text",
        Shape::Ref(_) => "ref",
        Shape::List(_) => "list",
        Shape::KeyMap(_) => "map",
    }
}

/// The element at path `p` from `t`, or the code of the first step that
/// fails: a missing Map key, a List index out of bounds, or a step that
/// does not match its container.
pub open spec fn path_lookup(t: Tree, p: Seq<Slot>) -> Result<Tree, ErrorCode>
    decreases p.len(),
{
    if p.len() == 0 {
        Ok(t)
    } else {
        match slot_index(t, p[0]) {
            Some(i) => path_lookup(kid(t, i), p.drop_first()),
            None => match (t.shape, p[0]) {
                (Shape::KeyMap(_), Slot::Key(_)) => Err(ErrorCode::MissingKey),
                (Shape::List(_), Slot::Index(_)) => Err(ErrorCode::OutOfBounds),
                _ => Err(ErrorCode::TypeMismatch),
            },
        }
    }
}

impl Value {
    /// Returns the stable lowercase kind name.
    pub fn kind(&self) -> (k: &'static str)
        ensures
            k == shape_kind(self@.shape),
    {
        match &*self.body {
            Body::Null => "null",
            Body::Bool(_) => "bool",
            Body::Int(_) => "int",
            Body::Float(_) => "float",
            Body::String(_) => "string",
            Body::Text(_) => "text",
            Body::Ref(_) => "ref",
            Body::List(_) => "list",
            Body::KeyMap(_) => "map",
        }
    }

    /// Borrows the element identified by `id` within this owning subtree.
    pub fn find(&self, id: ElementId) -> (r: Option<&Value>)
        ensures
            match r {
                Some(v) => node_of(self@, id@) == Some(v@),
                None => node_of(self@, id@) is None,
            },
    {
        match self.locate(id) {
            Some((_, node)) => Some(node),
            None => None,
        }
    }

    /// Returns whether the element `id` is within this subtree.
    pub fn has(&self, id: ElementId) -> (b: bool)
        ensures
            b == node_of(self@, id@) is Some,
    {
        self.locate(id).is_some()
    }

    /// The current path to the element `id`, or `None` where it is absent.
    pub fn path_of(&self, id: ElementId) -> (r: Option<Vec<Segment>>)
        ensures
            match r {
                Some(p) => path_to(self@, id@) == Some(slots(p@)),
                None => path_to(self@, id@) is None,
            },
    {
        match self.locate(id) {
            Some((path, _)) => Some(path),
            None => None,
        }
    }

    /// Resolves one weak Ref hop within this snapshot; dangling targets give `None`.
    pub fn resolve(&self, reference: Ref) -> (r: Option<Value>)
        ensures
            match r {
                Some(v) => node_of(self@, reference.target@) == Some(v@),
                None => node_of(self@, reference.target@) is None,
            },
    {
        match self.locate(reference.target) {
            Some((_, node)) => Some(node.copy()),
            None => None,
        }
    }

    /// Looks up the element at `path[from..]`.
    fn lookup(&self, path: &Vec<Segment>, from: usize) -> (r: Result<&Value, CollaError>)
        requires
            from <= path@.len(),
        ensures
            match path_lookup(self@, slots(path@.skip(from as int))) {
                Ok(t) => r is Ok && r->Ok_0@ == t,
                Err(c) => r is Err && r->Err_0.code == c,
            },
        decreases path@.len() - from,
    {
        let ghost p = slots(path@.skip(from as int));
        if from == path.len() {
            return Ok(self);
        }
        proof {
            assert(p[0] == slot_of(path@[from as int]));
            assert(p.drop_first() =~= slots(path@.skip(from + 1)));
        }
        match self.slot_index(&path[from]) {
            Some(i) => self.kid(i).lookup(path, from + 1),
            None => match (&*self.body, &path[from]) {
                (Body::KeyMap(_), Segment::Key(k)) => Err(CollaError::new(ErrorCode::MissingKey, k.as_str())),
                (Body::List(_), Segment::Index(_)) => Err(
                    CollaError::new(ErrorCode::OutOfBounds, "list index out of bounds"),
                ),
                _ => Err(CollaError::new(ErrorCode::TypeMismatch, "path segment does not match container")),
            },
        }
    }

    /// A copy of the element at `path`.
    pub fn get_path(&self, path: &Vec<Segment>) -> (r: Result<Value, CollaError>)
        ensures
            meets(r, path_lookup(self@, slots(path@))),
    {
        proof {
            assert(path@.skip(0) =~= path@);
        }
        match self.lookup(path, 0) {
            Ok(v) => Ok(v.copy()),
            Err(e) => Err(e),
        }
    }

    /// The stable owning identity at an existing `path`.
    pub fn id_at(&self, path: &Vec<Segment>) -> (r: Result<ElementId, CollaError>)
        ensures
            match path_lookup(self@, slots(path@)) {
                Ok(t) => r is Ok && r->Ok_0@ == t.id,
                Err(c) => r is Err && r->Err_0.code == c,
            },
    {
        proof {
            assert(path@.skip(0) =~= path@);
        }
        match self.lookup(path, 0) {
            Ok(v) => Ok(v.id),
            Err(e) => Err(e),
        }
    }
}

} // verus!
