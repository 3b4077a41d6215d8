//! Immutable text chunks with cached Unicode scalar and UTF-16 lengths.
use crate::apply::char_utf8_len;
use crate::change::{byte_len, lemma_encode_utf8_concat};
use crate::error::ValueError;
use crate::text_buf::str_byte_len;
use crate::value::{char_utf16_len, chars_of, utf16_len, utf16_units};
use vstd::prelude::*;
use vstd::utf8::encode_utf8;

verus! {

/// The byte, scalar and UTF-16 lengths of one piece of text.
#[derive(Debug, Clone, Copy, PartialEq, Eq, Structural)]
pub struct TextMetrics {
    byte_len: usize,
    scalar_len: usize,
    utf16_len: usize,
}

impl View for TextMetrics {
    type V = (nat, nat, nat);

    closed spec fn view(&self) -> (nat, nat, nat) {
        (self.byte_len as nat, self.scalar_len as nat, self.utf16_len as nat)
    }
}

/// The metrics of `s`: UTF-8 bytes, Unicode scalars and UTF-16 code units.
pub open spec fn text_metrics(s: Seq<char>) -> (nat, nat, nat) {
    (byte_len(s), s.len(), utf16_len(s))
}

impl TextMetrics {
    /// Bundles three lengths.
    pub fn new(byte_len: usize, scalar_len: usize, utf16_len: usize) -> (m: TextMetrics)
        ensures
            m@ == (byte_len as nat, scalar_len as nat, utf16_len as nat),
    {
        TextMetrics { byte_len, scalar_len, utf16_len }
    }

    /// UTF-8 byte length.
    pub fn byte_len(self) -> (n: usize)
        ensures
            n == self@.0,
    {
        self.byte_len
    }

    /// Unicode scalar length.
    pub fn scalar_len(self) -> (n: usize)
        ensures
            n == self@.1,
    {
        self.scalar_len
    }

    /// UTF-16 length.
    pub fn utf16_len(self) -> (n: usize)
        ensures
            n == self@.2,
    {
        self.utf16_len
    }

    /// The metrics of the concatenation of two texts.
    ///
    /// The byte length must stay within `isize::MAX`, the limit of one
    /// allocation; the other lengths within `usize::MAX`.
    pub fn checked_add(self, other: Self) -> (r: Result<TextMetrics, ValueError>)
        ensures
            (self@.0 + other@.0 <= isize::MAX && self@.1 + other@.1 <= usize::MAX && self@.2
                + other@.2 <= usize::MAX) ==> (r is Ok && r->Ok_0@ == (
                self@.0 + other@.0,
                self@.1 + other@.1,
                self@.2 + other@.2,
            )),
            !(self@.0 + other@.0 <= isize::MAX && self@.1 + other@.1 <= usize::MAX && self@.2
                + other@.2 <= usize::MAX) ==> r == Err::<TextMetrics, ValueError>(
                ValueError::LengthOverflow,
            ),
    {
        let byte_len = match self.byte_len.checked_add(other.byte_len) {
            Some(n) => if n <= isize::MAX as usize {
                n
            } else {
                return Err(ValueError::LengthOverflow);
            },
            None => {
                return Err(ValueError::LengthOverflow);
            },
        };
        let scalar_len = match self.scalar_len.checked_add(other.scalar_len) {
            Some(n) => n,
            None => {
                return Err(ValueError::LengthOverflow);
            },
        };
        let utf16_len = match self.utf16_len.checked_add(other.utf16_len) {
            Some(n) => n,
            None => {
                return Err(ValueError::LengthOverflow);
            },
        };
        Ok(TextMetrics::new(byte_len, scalar_len, utf16_len))
    }
}

/// A scalar never needs more UTF-16 units than UTF-8 bytes.
pub proof fn lemma_utf16_units_le_bytes(c: char)
    ensures
        utf16_units(c) <= byte_len(seq![c]),
        1 <= byte_len(seq![c]),
{
    vstd::utf8::char_is_scalar(c);
    assert(seq![c].drop_first() =~= Seq::<char>::empty());
    assert(encode_utf8(Seq::<char>::empty()) =~= Seq::<u8>::empty());
}

/// A text never needs more UTF-16 units than UTF-8 bytes.
pub proof fn lemma_utf16_len_le_bytes(s: Seq<char>)
    ensures
        utf16_len(s) <= byte_len(s),
        s.len() <= byte_len(s),
    decreases s.len(),
{
    if s.len() > 0 {
        let init = s.drop_last();
        lemma_utf16_len_le_bytes(init);
        lemma_utf16_units_le_bytes(s.last());
        assert(init + seq![s.last()] =~= s);
        lemma_encode_utf8_concat(init, seq![s.last()]);
    } else {
        assert(encode_utf8(s) =~= Seq::<u8>::empty());
    }
}

/// The metrics of the first `min(len, s.len())` scalars of `s`.
pub open spec fn prefix_metrics(s: Seq<char>, len: nat) -> (nat, nat, nat) {
    let k = if len <= s.len() {
        len
    } else {
        s.len()
    };
    text_metrics(s.take(k as int))
}

/// Metrics of the prefix of `text` holding at most `len` scalars.
pub fn char_prefix_metrics(text: &str, len: usize) -> (m: TextMetrics)
    ensures
        m@ == prefix_metrics(text@, len as nat),
{
    let ghost s = text@;
    let total = str_byte_len(text);
    let chars = chars_of(text);
    let limit = if len <= chars.len() {
        len
    } else {
        chars.len()
    };
    let mut bytes: usize = 0;
    let mut units: usize = 0;
    let mut i: usize = 0;
    proof {
        assert(s.take(0) =~= Seq::<char>::empty());
        assert(encode_utf8(Seq::<char>::empty()) =~= Seq::<u8>::empty());
    }
    while i < limit
        invariant
            chars@ == s,
            limit <= s.len(),
            i <= limit,
            total == byte_len(s),
            total <= isize::MAX,
            bytes == byte_len(s.take(i as int)),
            units == utf16_len(s.take(i as int)),
        decreases limit - i,
    {
        let c = chars[i];
        let ghost before = s.take(i as int);
        proof {
            assert(s.take(i + 1) =~= before + seq![c]);
            assert(s.take(i + 1).drop_last() =~= before);
            lemma_encode_utf8_concat(before, seq![c]);
            assert(s.take(i + 1) + s.skip(i + 1) =~= s);
            lemma_encode_utf8_concat(s.take(i + 1), s.skip(i + 1));
            lemma_utf16_len_le_bytes(s.take(i + 1));
        }
        bytes = bytes + char_utf8_len(c);
        units = units + char_utf16_len(c);
        i = i + 1;
    }
    TextMetrics::new(bytes, i, units)
}

/// Byte length of the prefix of `text` holding at most `len` scalars.
pub fn char_prefix_bytes(text: &str, len: usize) -> (n: usize)
    ensures
        n == prefix_metrics(text@, len as nat).0,
{
    char_prefix_metrics(text, len).byte_len()
}

/// Immutable UTF-8 text content with cached Unicode scalar and UTF-16 lengths.
#[derive(Debug, PartialEq, Eq, Hash)]
pub struct RichTextChunk {
    text: String,
    scalar_len: usize,
    utf16_len: usize,
}

impl View for RichTextChunk {
    type V = Seq<char>;

    closed spec fn view(&self) -> Seq<char> {
        self.text@
    }
}

impl RichTextChunk {
    #[verifier::type_invariant]
    closed spec fn cached(self) -> bool {
        &&& self.scalar_len == self.text@.len()
        &&& self.utf16_len == utf16_len(self.text@)
        &&& byte_len(self.text@) <= isize::MAX
    }

    /// Creates immutable text content and caches its scalar and UTF-16 lengths.
    pub fn new(value: &str) -> (c: RichTextChunk)
        ensures
            c@ == value@,
    {
        let text = value.to_owned();
        let m = char_prefix_metrics(text.as_str(), usize::MAX);
        let _ = str_byte_len(text.as_str());
        proof {
            lemma_utf16_len_le_bytes(text@);
            assert(text@.take(text@.len() as int) =~= text@);
        }
        RichTextChunk { text, scalar_len: m.scalar_len(), utf16_len: m.utf16_len() }
    }

    /// Returns the UTF-8 text content.
    pub fn as_str(&self) -> (s: &str)
        ensures
            s@ == self@,
    {
        self.text.as_str()
    }

    /// Returns the Unicode scalar length.
    pub fn len(&self) -> (n: usize)
        ensures
            n == self@.len(),
    {
        proof {
            use_type_invariant(self);
        }
        self.scalar_len
    }

    /// Returns whether the chunk contains no text.
    pub fn is_empty(&self) -> (b: bool)
        ensures
            b == (self@.len() == 0),
    {
        self.text.as_str().is_empty()
    }

    /// Returns the UTF-16 length.
    pub fn utf16_len(&self) -> (n: usize)
        ensures
            n == utf16_len(self@),
    {
        proof {
            use_type_invariant(self);
        }
        self.utf16_len
    }

    /// Returns the byte, scalar and UTF-16 lengths.
    pub fn metrics(&self) -> (m: TextMetrics)
        ensures
            m@ == text_metrics(self@),
    {
        proof {
            use_type_invariant(self);
        }
        TextMetrics::new(str_byte_len(self.text.as_str()), self.scalar_len, self.utf16_len)
    }

    /// Concatenates two chunks; fails when the result would exceed one allocation.
    pub fn try_concat(&self, other: &Self) -> (r: Result<RichTextChunk, ValueError>)
        ensures
            byte_len(self@ + other@) <= isize::MAX ==> (r is Ok && r->Ok_0@ == self@ + other@),
            byte_len(self@ + other@) > isize::MAX ==> r == Err::<RichTextChunk, ValueError>(
                ValueError::LengthOverflow,
            ),
    {
        proof {
            use_type_invariant(self);
            use_type_invariant(other);
            lemma_encode_utf8_concat(self@, other@);
            lemma_utf16_len_le_bytes(self@);
            lemma_utf16_len_le_bytes(other@);
            lemma_utf16_len_concat(self@, other@);
        }
        let metrics = self.metrics().checked_add(other.metrics())?;
        let merged = self.text.clone().concat(other.text.as_str());
        Ok(RichTextChunk {
            text: merged,
            scalar_len: metrics.scalar_len(),
            utf16_len: metrics.utf16_len(),
        })
    }
}

/// UTF-16 length distributes over concatenation.
pub proof fn lemma_utf16_len_concat(a: Seq<char>, b: Seq<char>)
    ensures
        utf16_len(a + b) == utf16_len(a) + utf16_len(b),
    decreases b.len(),
{
    if b.len() == 0 {
        assert(a + b =~= a);
    } else {
        assert((a + b).drop_last() =~= a + b.drop_last());
        lemma_utf16_len_concat(a, b.drop_last());
    }
}

impl Clone for RichTextChunk {
    fn clone(&self) -> (c: RichTextChunk)
        ensures
            c@ == self@,
    {
        proof {
            use_type_invariant(self);
        }
        RichTextChunk {
            text: self.text.clone(),
            scalar_len: self.scalar_len,
            utf16_len: self.utf16_len,
        }
    }
}

} // verus!
