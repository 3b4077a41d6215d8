//! Scalar content values and collaborative Text.
use crate::error::{Utf16PositionError, ValueError};
use vstd::prelude::*;

verus! {

/// Number of UTF-16 code units that encode `c`.
pub open spec fn utf16_units(c: char) -> nat {
    if (c as u32) >= 0x10000 {
        2
    } else {
        1
    }
}

/// Number of UTF-16 code units that encode `s`.
pub open spec fn utf16_len(s: Seq<char>) -> nat
    decreases s.len(),
{
    if s.len() == 0 {
        0
    } else {
        utf16_len(s.drop_last()) + utf16_units(s.last())
    }
}

/// Returns the UTF-16 length of one scalar.
pub fn char_utf16_len(c: char) -> (n: usize)
    ensures
        n == utf16_units(c),
{
    if (c as u32) >= 0x10000 {
        2
    } else {
        1
    }
}

/// Counts the Unicode scalars of `s`.
pub fn scalar_count(s: &str) -> (n: usize)
    ensures
        n == s@.len(),
{
    chars_of(s).len()
}

/// Collects the Unicode scalars of `s`.
pub fn chars_of(s: &str) -> (out: Vec<char>)
    ensures
        out@ == s@,
{
    let mut out: Vec<char> = Vec::new();
    for c in it: s.chars()
        invariant
            out@ == it.seq().take(it.index() as int),
    {
        out.push(c);
    }
    out
}

/// Collaborative text addressed by Unicode scalar positions.
///
/// Unlike an atomic String Value, Text supports character-level OT.
#[derive(Debug, Clone, PartialEq, Eq, Hash)]
pub struct Text {
    content: String,
}

impl View for Text {
    type V = Seq<char>;

    closed spec fn view(&self) -> Seq<char> {
        self.content@
    }
}

impl Text {
    /// Creates collaborative text from UTF-8 content.
    pub fn new(value: &str) -> (t: Text)
        ensures
            t@ == value@,
    {
        Text { content: value.to_owned() }
    }

    /// Creates collaborative text that owns `value`.
    pub fn from_string(value: String) -> (t: Text)
        ensures
            t@ == value@,
    {
        Text { content: value }
    }

    /// Returns the UTF-8 text content.
    pub fn as_str(&self) -> (s: &str)
        ensures
            s@ == self@,
    {
        self.content.as_str()
    }

    /// Returns the Unicode scalar length.
    pub fn len(&self) -> (n: usize)
        ensures
            n == self@.len(),
    {
        scalar_count(self.content.as_str())
    }

    /// Returns whether the text contains no Unicode scalars.
    pub fn is_empty(&self) -> (b: bool)
        ensures
            b == (self@.len() == 0),
    {
        self.content.as_str().is_empty()
    }

    /// Converts a Unicode scalar position to a UTF-16 position. The end
    /// position is valid.
    pub fn code_point_to_utf16(&self, position: usize) -> (r: Result<usize, Utf16PositionError>)
        ensures
            position <= self@.len() ==> r == Ok::<usize, Utf16PositionError>(
                utf16_len(self@.take(position as int)) as usize,
            ),
            position > self@.len() ==> r == Err::<usize, Utf16PositionError>(
                Utf16PositionError::CodePointOutOfBounds { position, len: self@.len() as usize },
            ),
    {
        let chars = chars_of(self.content.as_str());
        let ghost s = self@;
        let total = crate::text_buf::str_byte_len(self.content.as_str());
        proof {
            crate::richtext::lemma_utf16_len_le_bytes(s);
        }
        if position > chars.len() {
            return Err(Utf16PositionError::CodePointOutOfBounds { position, len: chars.len() });
        }
        let mut utf16: usize = 0;
        let mut i: usize = 0;
        proof {
            assert(s.take(0) =~= Seq::<char>::empty());
        }
        while i < position
            invariant
                chars@ == s,
                position <= s.len(),
                i <= position,
                utf16 == utf16_len(s.take(i as int)),
                utf16_len(s) <= crate::change::byte_len(s) <= isize::MAX,
            decreases position - i,
        {
            proof {
                assert(s.take(i + 1).drop_last() =~= s.take(i as int));
                lemma_utf16_len_ordered(s, i + 1, s.len() as int);
                assert(s.take(s.len() as int) =~= s);
            }
            utf16 = utf16 + char_utf16_len(chars[i]);
            i = i + 1;
        }
        Ok(utf16)
    }

    /// Converts a UTF-16 position to a Unicode scalar position.
    ///
    /// The end position is valid. A position inside a surrogate pair is rejected.
    pub fn utf16_to_code_point(&self, position: usize) -> (r: Result<usize, Utf16PositionError>)
        ensures
            r matches Ok(k) ==> k <= self@.len() && utf16_len(self@.take(k as int)) == position,
            r matches Err(e) ==> (e is InvalidUtf16Boundary || e is Utf16OutOfBounds),
            r matches Err(Utf16PositionError::InvalidUtf16Boundary { position: p }) ==> {
                &&& p == position
                &&& position < utf16_len(self@)
                &&& forall|k: int|
                    0 <= k <= self@.len() ==> utf16_len(#[trigger] self@.take(k)) != position
            },
            r matches Err(Utf16PositionError::Utf16OutOfBounds { position: p, len }) ==> {
                &&& p == position
                &&& len == utf16_len(self@)
                &&& position > utf16_len(self@)
            },
    {
        let chars = chars_of(self.content.as_str());
        let ghost s = self@;
        let mut utf16: usize = 0;
        let mut i: usize = 0;
        while i < chars.len()
            invariant
                chars@ == s,
                s == self@,
                i <= s.len(),
                utf16 == utf16_len(s.take(i as int)),
                utf16 <= position,
                forall|k: int| 0 <= k < i ==> utf16_len(#[trigger] s.take(k)) < position,
            decreases s.len() - i,
        {
            if position == utf16 {
                return Ok(i);
            }
            let units = char_utf16_len(chars[i]);
            proof {
                assert(s.take(i + 1).drop_last() =~= s.take(i as int));
            }
            if position - utf16 < units {
                proof {
                    assert forall|k: int| 0 <= k <= s.len() implies utf16_len(
                        #[trigger] s.take(k),
                    ) != position by {
                        if k > i {
                            lemma_utf16_len_ordered(s, i as int + 1, k);
                        }
                    }
                    lemma_utf16_len_ordered(s, i as int + 1, s.len() as int);
                    assert(s.take(s.len() as int) =~= s);
                }
                return Err(Utf16PositionError::InvalidUtf16Boundary { position });
            }
            utf16 = utf16 + units;
            i = i + 1;
        }
        proof {
            assert(s.take(i as int) =~= s);
        }
        if position == utf16 {
            Ok(i)
        } else {
            Err(Utf16PositionError::Utf16OutOfBounds { position, len: utf16 })
        }
    }
}

/// Prefix UTF-16 lengths grow with the prefix.
pub proof fn lemma_utf16_len_monotone(s: Seq<char>, k: int)
    requires
        0 <= k <= s.len(),
    ensures
        forall|j: int| 0 <= j <= k ==> utf16_len(#[trigger] s.take(j)) <= utf16_len(s.take(k)),
        k > 0 ==> utf16_len(s.take(k - 1)) < utf16_len(s.take(k)),
    decreases k,
{
    if k > 0 {
        assert(s.take(k).drop_last() =~= s.take(k - 1));
        lemma_utf16_len_monotone(s, k - 1);
    }
}

pub proof fn lemma_utf16_len_ordered(s: Seq<char>, j: int, k: int)
    requires
        0 <= j <= k <= s.len(),
    ensures
        utf16_len(s.take(j)) <= utf16_len(s.take(k)),
{
    lemma_utf16_len_monotone(s, k);
}

/// The lowercase name by which a Value type is reported to other runtimes.
pub open spec fn value_type_wire_name(t: ValueType) -> Seq<char> {
    match t {
        ValueType::Null => "null"@,
        ValueType::Bool => "bool"@,
        ValueType::Int => "int"@,
        ValueType::Float => "float"@,
        ValueType::String => "string"@,
        ValueType::Text => "text"@,
        ValueType::RichText => "richtext"@,
        ValueType::List => "list"@,
        ValueType::KeyMap => "map"@,
    }
}

/// Returns the lowercase name by which a Value type is reported to other runtimes.
pub fn value_type_name(t: ValueType) -> (s: &'static str)
    ensures
        s@ == value_type_wire_name(t),
{
    match t {
        ValueType::Null => "null",
        ValueType::Bool => "bool",
        ValueType::Int => "int",
        ValueType::Float => "float",
        ValueType::String => "string",
        ValueType::Text => "text",
        ValueType::RichText => "richtext",
        ValueType::List => "list",
        ValueType::KeyMap => "map",
    }
}

/// The closed set of Value type discriminants.
#[derive(Debug, Clone, Copy, PartialEq, Eq, Structural)]
pub enum ValueType {
    /// Null.
    Null,
    /// Boolean.
    Bool,
    /// Signed 64-bit integer.
    Int,
    /// Finite IEEE-754 `f64`.
    Float,
    /// Atomic UTF-8 string.
    String,
    /// Collaborative text.
    Text,
    /// Collaborative rich text.
    RichText,
    /// Ordered Value list.
    List,
    /// String-keyed Value map.
    KeyMap,
}

} // verus!

verus! {

/// The IEEE-754 bit pattern of negative zero.
pub const NEGATIVE_ZERO_BITS: u64 = 0x8000_0000_0000_0000;

/// The bit pattern denotes a finite double: its exponent is not all ones.
pub open spec fn finite_bits(bits: u64) -> bool {
    (bits >> 52u64) & 0x7ffu64 != 0x7ffu64
}

/// A canonical finite `f64`, held as its IEEE-754 bit pattern; negative zero
/// is stored as positive zero.
#[derive(Debug, Clone, Copy, PartialEq, Eq, Hash, Structural)]
pub struct FiniteF64 {
    bits: u64,
}

impl View for FiniteF64 {
    type V = u64;

    closed spec fn view(&self) -> u64 {
        self.bits
    }
}

impl FiniteF64 {
    /// Accepts the bit pattern of a finite double, normalizing negative
    /// zero to positive zero; NaN and infinities are rejected.
    pub fn from_bits(bits: u64) -> (r: Result<FiniteF64, ValueError>)
        ensures
            finite_bits(bits) ==> (r is Ok && r->Ok_0@ == (if bits == NEGATIVE_ZERO_BITS {
                0
            } else {
                bits
            })),
            !finite_bits(bits) ==> r == Err::<FiniteF64, ValueError>(ValueError::NonFiniteFloat),
    {
        if (bits >> 52u64) & 0x7ffu64 == 0x7ffu64 {
            return Err(ValueError::NonFiniteFloat);
        }
        if bits == NEGATIVE_ZERO_BITS {
            Ok(FiniteF64 { bits: 0 })
        } else {
            Ok(FiniteF64 { bits })
        }
    }

    /// Returns the canonical bit pattern.
    pub fn to_bits(self) -> (bits: u64)
        ensures
            bits == self@,
    {
        self.bits
    }
}

} // verus!
