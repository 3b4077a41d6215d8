//! Chunked reading of canonical Text operation streams.
use crate::change::{canonical, op_units, TextOp};
use crate::model::{OpView, Unit, drops, expand, keeps, lemma_expand_first, op_steps, puts};
use crate::value::chars_of;
use vstd::prelude::*;

verus! {

/// The next chunk a reader offers: its kind and remaining length.
#[derive(Clone, Copy)]
pub enum TextOpRef {
    Retain(usize),
    Insert(usize),
    Delete(usize),
}

/// Reads a canonical stream chunk by chunk, splitting operations on demand.
pub struct TextOpReader<'a> {
    ops: &'a [TextOp],
    index: usize,
    offset: usize,
    text: Vec<char>,
}

/// Units of the stream that a reader at (`index`, `offset`) has not consumed.
pub open spec fn rest_units(v: Seq<OpView>, index: int, offset: int) -> Seq<Unit<char>> {
    if 0 <= index < v.len() {
        op_steps(v[index]).skip(offset) + expand(v.skip(index + 1))
    } else {
        seq![]
    }
}

pub proof fn lemma_keeps_skip(n: nat, k: int)
    requires
        0 <= k <= n,
    ensures
        keeps(n).skip(k) =~= keeps((n - k) as nat),
        drops(n).skip(k) =~= drops((n - k) as nat),
{
}

pub proof fn lemma_puts_skip(s: Seq<char>, k: int)
    requires
        0 <= k <= s.len(),
    ensures
        puts(s).skip(k) =~= puts(s.skip(k)),
        puts(s).len() == s.len(),
{
    crate::model::lemma_puts_len(s);
    crate::model::lemma_puts_len(s.skip(k));
    assert forall|i: int| 0 <= i < s.len() - k implies puts(s).skip(k)[i] == puts(s.skip(k))[i] by {
        assert(s.skip(k)[i] == s[i + k]);
    }
}

pub proof fn lemma_op_steps_len(op: OpView)
    ensures
        op_steps(op).len() == op_units(op),
{
    match op {
        OpView::Insert(s) => crate::model::lemma_puts_len(s),
        _ => {},
    }
}

impl<'a> TextOpReader<'a> {
    pub closed spec fn view_ops(&self) -> Seq<OpView> {
        self.ops.deep_view()
    }

    /// The units not yet consumed.
    pub closed spec fn rest(&self) -> Seq<Unit<char>> {
        rest_units(self.ops.deep_view(), self.index as int, self.offset as int)
    }

    /// The remaining text of the current insertion.
    pub closed spec fn pending_text(&self) -> Seq<char> {
        self.text@.skip(self.offset as int)
    }

    /// Units left in the current chunk.
    pub closed spec fn chunk_len(&self) -> nat {
        if self.index < self.ops.deep_view().len() {
            (op_units(self.ops.deep_view()[self.index as int]) - self.offset) as nat
        } else {
            0
        }
    }

    /// The current chunk is an insertion.
    pub closed spec fn at_insert(&self) -> bool {
        self.index < self.ops.deep_view().len() && self.ops.deep_view()[self.index as int] is Insert
    }

    pub closed spec fn wf(&self) -> bool {
        let v = self.ops.deep_view();
        &&& canonical(v)
        &&& self.index <= v.len()
        &&& self.index < v.len() ==> self.offset < op_units(v[self.index as int])
        &&& self.index == v.len() ==> self.offset == 0
        &&& self.index < v.len() ==> (v[self.index as int] matches OpView::Insert(s) ==> self.text@
            == s)
    }

    fn load(ops: &'a [TextOp], index: usize) -> (r: TextOpReader<'a>)
        requires
            canonical(ops.deep_view()),
            index <= ops.deep_view().len(),
        ensures
            r.wf(),
            r.view_ops() == ops.deep_view(),
            r.rest() == rest_units(ops.deep_view(), index as int, 0),
    {
        let text = if index < ops.len() {
            match &ops[index] {
                TextOp::Insert(s) => chars_of(s.as_str()),
                _ => Vec::new(),
            }
        } else {
            Vec::new()
        };
        proof {
            if index < ops.len() {
                assert(ops.deep_view()[index as int] == ops@[index as int].deep_view());
                assert(op_units(ops.deep_view()[index as int]) > 0);
            }
        }
        TextOpReader { ops, index, offset: 0, text }
    }

    /// Starts reading a canonical stream.
    pub fn new(ops: &'a [TextOp]) -> (r: TextOpReader<'a>)
        requires
            canonical(ops.deep_view()),
        ensures
            r.wf(),
            r.view_ops() == ops.deep_view(),
            r.rest() == expand(ops.deep_view()),
    {
        let r = Self::load(ops, 0);
        proof {
            let v = ops.deep_view();
            if v.len() > 0 {
                lemma_expand_first(v);
                assert(op_steps(v[0]).skip(0) =~= op_steps(v[0]));
                assert(v.skip(1) =~= v.drop_first());
            } else {
                assert(expand(v) =~= Seq::<Unit<char>>::empty());
            }
        }
        r
    }

    /// Returns the next chunk without consuming it.
    pub fn peek(&self) -> (r: Option<TextOpRef>)
        requires
            self.wf(),
        ensures
            r is None <==> self.rest().len() == 0,
            r is None <==> self.chunk_len() == 0,
            r matches Some(TextOpRef::Retain(n)) ==> n == self.chunk_len(),
            r matches Some(TextOpRef::Delete(n)) ==> n == self.chunk_len(),
            r matches Some(TextOpRef::Insert(n)) ==> n == self.chunk_len() && self.at_insert(),
            r matches Some(TextOpRef::Retain(n)) ==> n > 0 && n <= self.rest().len()
                && self.rest().take(n as int) == keeps(n as nat),
            r matches Some(TextOpRef::Delete(n)) ==> n > 0 && n <= self.rest().len()
                && self.rest().take(n as int) == drops(n as nat),
            r matches Some(TextOpRef::Insert(n)) ==> n > 0 && n <= self.rest().len() && n
                == self.pending_text().len() && self.rest().take(n as int) == puts(
                self.pending_text(),
            ),
    {
        if self.index >= self.ops.len() {
            return None;
        }
        let ghost v = self.ops.deep_view();
        let ghost op = v[self.index as int];
        proof {
            assert(op == self.ops@[self.index as int].deep_view());
            lemma_op_steps_len(op);
            let head = op_steps(op).skip(self.offset as int);
            assert(self.rest().take(head.len() as int) =~= head);
            match op {
                OpView::Retain(n) => lemma_keeps_skip(n, self.offset as int),
                OpView::Delete(n) => lemma_keeps_skip(n, self.offset as int),
                OpView::Insert(s) => lemma_puts_skip(s, self.offset as int),
            }
        }
        match &self.ops[self.index] {
            TextOp::Retain(n) => Some(TextOpRef::Retain(*n - self.offset)),
            TextOp::Insert(_) => Some(TextOpRef::Insert(self.text.len() - self.offset)),
            TextOp::Delete(n) => Some(TextOpRef::Delete(*n - self.offset)),
        }
    }

    /// Consumes `len` units of the current chunk.
    pub fn consume(&mut self, len: usize)
        requires
            old(self).wf(),
            0 < len <= old(self).chunk_len(),
        ensures
            final(self).wf(),
            final(self).view_ops() == old(self).view_ops(),
            final(self).rest() == old(self).rest().skip(len as int),
    {
        let ghost v = self.ops.deep_view();
        let ghost op = v[self.index as int];
        let ghost before = self.rest();
        proof {
            lemma_op_steps_len(op);
        }
        let units = match &self.ops[self.index] {
            TextOp::Retain(n) => *n,
            TextOp::Insert(_) => self.text.len(),
            TextOp::Delete(n) => *n,
        };
        proof {
            assert(op == self.ops@[self.index as int].deep_view());
        }
        if self.offset + len == units {
            let next = Self::load(self.ops, self.index + 1);
            proof {
                let head = op_steps(op).skip(self.offset as int);
                assert(head.len() == len);
                assert(before.skip(len as int) =~= expand(v.skip(self.index + 1)));
                if self.index + 1 < v.len() {
                    lemma_expand_first(v.skip(self.index + 1));
                    assert(v.skip(self.index + 1).drop_first() =~= v.skip(self.index + 2));
                    assert(op_steps(v[self.index + 1]).skip(0) =~= op_steps(v[self.index + 1]));
                } else {
                    assert(v.skip(self.index + 1) =~= Seq::<OpView>::empty());
                    assert(expand(Seq::<OpView>::empty()) =~= Seq::<Unit<char>>::empty());
                }
            }
            *self = next;
        } else {
            self.offset = self.offset + len;
            proof {
                assert(op_steps(op).skip(old(self).offset as int).skip(len as int) =~= op_steps(
                    op,
                ).skip(self.offset as int));
                assert(before.skip(len as int) =~= self.rest());
            }
        }
    }

    /// The next `len` characters of the current insertion.
    pub fn take_text(&self, len: usize) -> (s: String)
        requires
            self.wf(),
            self.at_insert(),
            len <= self.pending_text().len(),
        ensures
            s@ == self.pending_text().take(len as int),
    {
        let mut s = String::new();
        let mut i: usize = 0;
        proof {
            let v = self.ops.deep_view();
            assert(v[self.index as int] matches OpView::Insert(t) && self.text@ == t);
            assert(self.offset <= self.text@.len());
        }
        while i < len
            invariant
                self.wf(),
                self.offset + len <= self.text@.len(),
                i <= len <= self.pending_text().len(),
                self.pending_text() == self.text@.skip(self.offset as int),
                s@ == self.pending_text().take(i as int),
            decreases len - i,
        {
            assert(self.offset + i < self.text.len());
            crate::text_buf::push_char(&mut s, self.text[self.offset + i]);
            i = i + 1;
            proof {
                assert(self.pending_text().take(i as int) =~= self.pending_text().take(i - 1).push(
                    self.text@[self.offset + i - 1],
                ));
            }
        }
        s
    }
}

} // verus!

verus! {

impl<'a> TextOpReader<'a> {
    /// The remaining text of the current insertion fits in one allocation.
    pub proof fn lemma_pending_fits(&self)
        requires
            self.wf(),
            self.at_insert(),
        ensures
            crate::change::byte_len(self.pending_text()) <= isize::MAX,
    {
        let v = self.ops.deep_view();
        assert(crate::change::insert_fits(v[self.index as int]));
        crate::apply::lemma_byte_len_prefix(self.text@, self.offset as int);
    }
}

} // verus!
