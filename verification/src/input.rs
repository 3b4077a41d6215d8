//! Decoding of untrusted change input from its compact binary wire form.
//!
//! Integers are base-128 varints of at most ten bytes, signed integers are
//! zigzag-encoded, and strings and blobs are a varint length followed by
//! that many bytes. Every count, length and depth is held to the receiver's
//! [`InputLimits`].
use crate::attrs::{AttrValue, Attrs};
use crate::change::byte_len;
use crate::keyed::{keyed, keyed_entries};
use crate::change::{inserts_fit, lengths_fit, normalize_view, TextChange, TextOp};
use crate::text_buf::str_byte_len;
use crate::value::scalar_count;
use crate::model::OpView;
use crate::error::ValueError;
use crate::limits::InputLimits;
use crate::value::FiniteF64;
use vstd::bytes::{spec_u64_from_le_bytes, u64_from_le_bytes};
use vstd::prelude::*;
use vstd::utf8::{decode_utf8, valid_utf8};

verus! {

/// Why untrusted change input was refused.
#[derive(Debug, Clone, PartialEq, Eq)]
pub enum ChangeInputError {
    /// The bytes do not follow the wire form.
    Encoding {
        /// Byte offset where the input went wrong.
        offset: usize,
        /// Stable diagnostic reason.
        reason: &'static str,
    },
    /// A count, length or depth exceeded a receiver limit.
    Limit {
        /// Resource category.
        name: &'static str,
        /// Observed amount, or `usize::MAX` where counting overflowed.
        actual: usize,
        /// Configured maximum.
        maximum: usize,
    },
    /// The decoded content violates a canonical construction rule.
    Value(ValueError),
}

/// Checks the byte string `bytes` for UTF-8 by calling `std::str::from_utf8`
/// and copies it into a `String`. Trusted: it succeeds exactly on well-formed
/// UTF-8 (as vstd's `valid_utf8` states the standard's well-formedness), and
/// the text is the decoding of the bytes.
#[verifier::external_body]
fn utf8_string(bytes: &[u8]) -> (r: Option<String>)
    ensures
        r is Some <==> valid_utf8(bytes@),
        r matches Some(s) ==> s@ == decode_utf8(bytes@),
{
    std::str::from_utf8(bytes).ok().map(str::to_owned)
}

/// `128^i`.
pub open spec fn pow128(i: nat) -> nat
    decreases i,
{
    if i == 0 {
        1
    } else {
        128 * pow128((i - 1) as nat)
    }
}

/// The outcome of reading a varint whose first byte is at `start`, having
/// read `i` bytes that contributed `acc` so far.
pub open spec fn varint_from(s: Seq<u8>, start: int, i: nat, acc: nat) -> Result<
    (u64, int),
    ChangeInputError,
>
    decreases 10 - i,
{
    if i >= 10 {
        Err(ChangeInputError::Encoding { offset: start as usize, reason: "integer is out of range" })
    } else if start + i >= s.len() {
        Err(
            ChangeInputError::Encoding {
                offset: (start + i) as usize,
                reason: "unexpected end of ChangeInput",
            },
        )
    } else {
        let b = s[start + i];
        if i == 9 && b > 1 {
            Err(
                ChangeInputError::Encoding {
                    offset: start as usize,
                    reason: "integer is out of range",
                },
            )
        } else {
            let next = acc + (b % 128) as nat * pow128(i);
            if b < 128 {
                Ok((next as u64, start + i + 1))
            } else {
                varint_from(s, start, i + 1, next)
            }
        }
    }
}

/// A varint that reads successfully ends after its first byte and within the input.
proof fn lemma_varint_end(s: Seq<u8>, start: int, i: nat, acc: nat)
    requires
        0 <= start,
    ensures
        varint_from(s, start, i, acc) matches Ok((v, end)) ==> start + i < end <= s.len(),
    decreases 10 - i,
{
    if i < 10 && start + i < s.len() {
        let b = s[start + i];
        if !(i == 9 && b > 1) && b >= 128 {
            lemma_varint_end(s, start, i + 1, acc + (b % 128) as nat * pow128(i));
        }
    }
}

/// Reading a varint at `start`: its value and the offset after it.
pub open spec fn varint_at(s: Seq<u8>, start: int) -> Result<(u64, int), ChangeInputError> {
    varint_from(s, start, 0, 0)
}

/// The zigzag decoding of a varint into a signed integer.
pub open spec fn zigzag(v: u64) -> int {
    if v % 2 == 0 {
        (v / 2) as int
    } else {
        -((v / 2) as int) - 1
    }
}

/// A cursor over untrusted change input.
pub struct Decoder<'a> {
    bytes: &'a [u8],
    pos: usize,
    limits: &'a InputLimits,
}

impl<'a> Decoder<'a> {
    #[verifier::type_invariant]
    closed spec fn within(self) -> bool {
        self.pos <= self.bytes@.len() <= usize::MAX
    }

    /// The whole input.
    pub closed spec fn input(&self) -> Seq<u8> {
        self.bytes@
    }

    /// The offset of the next unread byte.
    pub closed spec fn position(&self) -> int {
        self.pos as int
    }

    /// The receiver's limits.
    pub closed spec fn limit_set(&self) -> InputLimits {
        *self.limits
    }

    /// Both cursors read the same input under the same limits.
    pub open spec fn same_source(&self, other: &Decoder<'a>) -> bool {
        self.input() == other.input() && self.limit_set() == other.limit_set()
    }

    /// Starts reading `bytes` at offset zero.
    pub fn new(bytes: &'a [u8], limits: &'a InputLimits) -> (d: Decoder<'a>)
        ensures
            d.input() == bytes@,
            d.position() == 0,
            d.limit_set() == *limits,
    {
        let _ = bytes.len();
        Decoder { bytes, pos: 0, limits }
    }

    /// The offset of the next unread byte.
    pub fn offset(&self) -> (n: usize)
        ensures
            n == self.position(),
    {
        self.pos
    }

    /// Builds a limit error.
    pub fn limit_error(&self, name: &'static str, actual: usize, maximum: usize) -> (e:
        ChangeInputError)
        ensures
            e == (ChangeInputError::Limit { name, actual, maximum }),
    {
        ChangeInputError::Limit { name, actual, maximum }
    }

    /// Builds an encoding error at `offset`.
    pub fn encoding_at(&self, offset: usize, reason: &'static str) -> (e: ChangeInputError)
        ensures
            e == (ChangeInputError::Encoding { offset, reason }),
    {
        ChangeInputError::Encoding { offset, reason }
    }

    /// Builds an encoding error at the current offset.
    pub fn encoding(&self, reason: &'static str) -> (e: ChangeInputError)
        ensures
            e == (ChangeInputError::Encoding { offset: self.position() as usize, reason }),
    {
        self.encoding_at(self.pos, reason)
    }

    /// Refuses `actual` above `maximum`.
    pub fn check_limit(&self, name: &'static str, actual: usize, maximum: usize) -> (r: Result<
        (),
        ChangeInputError,
    >)
        ensures
            actual <= maximum ==> r is Ok,
            actual > maximum ==> r == Err::<(), ChangeInputError>(
                ChangeInputError::Limit { name, actual, maximum },
            ),
    {
        if actual > maximum {
            Err(self.limit_error(name, actual, maximum))
        } else {
            Ok(())
        }
    }

    /// Refuses a nesting depth above the limit.
    pub fn check_depth(&self, depth: usize) -> (r: Result<(), ChangeInputError>)
        ensures
            depth <= self.limit_set().max_depth ==> r is Ok,
            depth > self.limit_set().max_depth ==> r == Err::<(), ChangeInputError>(
                ChangeInputError::Limit {
                    name: "input depth",
                    actual: depth,
                    maximum: self.limit_set().max_depth,
                },
            ),
    {
        self.check_limit("input depth", depth, self.limits.max_depth)
    }

    /// Refuses a string longer than the byte limit.
    pub fn check_string(&self, value: &str) -> (r: Result<(), ChangeInputError>)
        ensures
            crate::change::byte_len(value@) <= self.limit_set().max_string_bytes ==> r is Ok,
            crate::change::byte_len(value@) > self.limit_set().max_string_bytes ==> r == Err::<
                (),
                ChangeInputError,
            >(
                ChangeInputError::Limit {
                    name: "string bytes",
                    actual: crate::change::byte_len(value@) as usize,
                    maximum: self.limit_set().max_string_bytes,
                },
            ),
    {
        let n = crate::text_buf::str_byte_len(value);
        self.check_limit("string bytes", n, self.limits.max_string_bytes)
    }

    /// Reads one byte.
    pub fn byte(&mut self) -> (r: Result<u8, ChangeInputError>)
        ensures
            final(self).same_source(old(self)),
            old(self).position() < old(self).input().len() ==> r == Ok::<u8, ChangeInputError>(
                old(self).input()[old(self).position()],
            ) && final(self).position() == old(self).position() + 1,
            old(self).position() >= old(self).input().len() ==> r == Err::<u8, ChangeInputError>(
                ChangeInputError::Encoding {
                    offset: old(self).position() as usize,
                    reason: "unexpected end of ChangeInput",
                },
            ) && final(self).position() == old(self).position(),
    {
        proof {
            use_type_invariant(&*self);
        }
        if self.pos < self.bytes.len() {
            let b = self.bytes[self.pos];
            self.pos = self.pos + 1;
            Ok(b)
        } else {
            Err(self.encoding("unexpected end of ChangeInput"))
        }
    }

    /// Reads exactly `len` bytes.
    pub fn exact(&mut self, len: usize) -> (r: Result<&'a [u8], ChangeInputError>)
        ensures
            final(self).same_source(old(self)),
            old(self).position() + len > usize::MAX ==> r == Err::<&'a [u8], ChangeInputError>(
                ChangeInputError::Encoding {
                    offset: old(self).position() as usize,
                    reason: "length overflow",
                },
            ),
            old(self).position() + len <= usize::MAX && old(self).position() + len > old(
                self,
            ).input().len() ==> r == Err::<&'a [u8], ChangeInputError>(
                ChangeInputError::Encoding {
                    offset: old(self).position() as usize,
                    reason: "unexpected end of ChangeInput",
                },
            ),
            old(self).position() + len <= old(self).input().len() ==> r is Ok && r->Ok_0@ == old(
                self,
            ).input().subrange(old(self).position(), old(self).position() + len)
                && final(self).position() == old(self).position() + len,
    {
        proof {
            use_type_invariant(&*self);
        }
        let end = match self.pos.checked_add(len) {
            Some(end) => end,
            None => {
                return Err(self.encoding("length overflow"));
            },
        };
        if end > self.bytes.len() {
            return Err(self.encoding("unexpected end of ChangeInput"));
        }
        let bytes: &'a [u8] = self.bytes;
        let out = vstd::slice::slice_subrange(bytes, self.pos, end);
        self.pos = end;
        Ok(out)
    }

    /// Reads a varint of at most ten bytes.
    pub fn varint(&mut self) -> (r: Result<u64, ChangeInputError>)
        ensures
            final(self).same_source(old(self)),
            varint_at(old(self).input(), old(self).position()) matches Ok((v, end)) ==> r
                == Ok::<u64, ChangeInputError>(v) && final(self).position() == end,
            varint_at(old(self).input(), old(self).position()) matches Ok((v, end)) ==> old(
                self,
            ).position() < end <= old(self).input().len(),
            varint_at(old(self).input(), old(self).position()) matches Err(e) ==> r == Err::<
                u64,
                ChangeInputError,
            >(e),
    {
        proof {
            use_type_invariant(&*self);
            lemma_varint_end(self.input(), self.position(), 0, 0);
        }
        let ghost s = self.input();
        let ghost start = self.position();
        let start_pos = self.pos;
        let mut value: u64 = 0;
        let mut scale: u64 = 1;
        let mut index: u64 = 0;
        while index < 10
            invariant
                self.input() == s,
                s == old(self).input(),
                self.limit_set() == old(self).limit_set(),
                start == start_pos,
                start == old(self).position(),
                index <= 9 ==> self.position() == start + index,
                index <= 10,
                index < 10 ==> scale == pow128(index as nat),
                value < pow128(index as nat),
                varint_at(s, start) == varint_from(s, start, index as nat, value as nat),
            decreases 10 - index,
        {
            let byte = match self.byte() {
                Ok(b) => b,
                Err(e) => {
                    return Err(e);
                },
            };
            if index == 9 && byte > 1 {
                return Err(self.encoding_at(start_pos, "integer is out of range"));
            }
            proof {
                lemma_varint_step_fits(value as nat, byte, index as nat);
            }
            value = value + (byte % 128) as u64 * scale;
            if byte < 128 {
                return Ok(value);
            }
            if index < 9 {
                proof {
                    lemma_pow128_grows(index as nat);
                    lemma_pow128_bound(index as nat);
                }
                scale = scale * 128;
            }
            index = index + 1;
        }
        Err(self.encoding_at(start_pos, "integer is out of range"))
    }

    /// Reads a varint that must fit in `usize`.
    pub fn usize(&mut self) -> (r: Result<usize, ChangeInputError>)
        ensures
            final(self).same_source(old(self)),
            varint_at(old(self).input(), old(self).position()) matches Ok((v, end)) ==> {
                &&& final(self).position() == end
                &&& v <= usize::MAX ==> r == Ok::<usize, ChangeInputError>(v as usize)
                &&& v > usize::MAX ==> r == Err::<usize, ChangeInputError>(
                    ChangeInputError::Encoding {
                        offset: end as usize,
                        reason: "integer is out of range",
                    },
                )
            },
            varint_at(old(self).input(), old(self).position()) matches Err(e) ==> r == Err::<
                usize,
                ChangeInputError,
            >(e),
    {
        let v = self.varint()?;
        if v > usize::MAX as u64 {
            Err(self.encoding("integer is out of range"))
        } else {
            Ok(v as usize)
        }
    }

    /// Reads a zigzag-encoded signed integer.
    pub fn i64(&mut self) -> (r: Result<i64, ChangeInputError>)
        ensures
            final(self).same_source(old(self)),
            varint_at(old(self).input(), old(self).position()) matches Ok((v, end)) ==> r
                == Ok::<i64, ChangeInputError>(zigzag(v) as i64) && final(self).position() == end,
            varint_at(old(self).input(), old(self).position()) matches Err(e) ==> r == Err::<
                i64,
                ChangeInputError,
            >(e),
    {
        let v = self.varint()?;
        let half = (v / 2) as i64;
        if v % 2 == 0 {
            Ok(half)
        } else {
            Ok(-half - 1)
        }
    }

    /// Reads a count that must not exceed `maximum`.
    pub fn count(&mut self, name: &'static str, maximum: usize) -> (r: Result<
        usize,
        ChangeInputError,
    >)
        ensures
            final(self).same_source(old(self)),
            varint_at(old(self).input(), old(self).position()) matches Ok((v, end)) ==> {
                &&& final(self).position() == end
                &&& v <= maximum ==> r == Ok::<usize, ChangeInputError>(v as usize)
                &&& v > usize::MAX ==> r == Err::<usize, ChangeInputError>(
                    ChangeInputError::Encoding {
                        offset: end as usize,
                        reason: "integer is out of range",
                    },
                )
                &&& maximum < v <= usize::MAX ==> r == Err::<usize, ChangeInputError>(
                    ChangeInputError::Limit { name, actual: v as usize, maximum },
                )
            },
            varint_at(old(self).input(), old(self).position()) matches Err(e) ==> r == Err::<
                usize,
                ChangeInputError,
            >(e),
    {
        let count = self.usize()?;
        self.check_limit(name, count, maximum)?;
        Ok(count)
    }

    /// Reads a length-prefixed byte string.
    pub fn blob(&mut self) -> (r: Result<Vec<u8>, ChangeInputError>)
        ensures
            final(self).same_source(old(self)),
            varint_at(old(self).input(), old(self).position()) matches Err(e) ==> r == Err::<
                Vec<u8>,
                ChangeInputError,
            >(e),
            varint_at(old(self).input(), old(self).position()) matches Ok((len, body)) ==> {
                &&& len > usize::MAX ==> r == Err::<Vec<u8>, ChangeInputError>(
                    ChangeInputError::Encoding {
                        offset: body as usize,
                        reason: "integer is out of range",
                    },
                )
                &&& (len <= usize::MAX && body + len > usize::MAX) ==> r == Err::<
                    Vec<u8>,
                    ChangeInputError,
                >(
                    ChangeInputError::Encoding {
                        offset: body as usize,
                        reason: "length overflow",
                    },
                )
                &&& (body + len <= usize::MAX && body + len > old(self).input().len()) ==> r
                    == Err::<Vec<u8>, ChangeInputError>(
                    ChangeInputError::Encoding {
                        offset: body as usize,
                        reason: "unexpected end of ChangeInput",
                    },
                )
                &&& body + len <= old(self).input().len() ==> r is Ok && r->Ok_0@ == old(
                    self,
                ).input().subrange(body, body + len) && final(self).position() == body + len
            },
    {
        proof {
            use_type_invariant(&*self);
        }
        let len = self.usize()?;
        let bytes = self.exact(len)?;
        Ok(vstd::slice::slice_to_vec(bytes))
    }

    /// Reads a length-prefixed UTF-8 string within the string byte limit.
    pub fn string(&mut self) -> (r: Result<String, ChangeInputError>)
        ensures
            final(self).same_source(old(self)),
            varint_at(old(self).input(), old(self).position()) matches Err(e) ==> r == Err::<
                String,
                ChangeInputError,
            >(e),
            varint_at(old(self).input(), old(self).position()) matches Ok((len, body)) ==> {
                &&& len > usize::MAX ==> r == Err::<String, ChangeInputError>(
                    ChangeInputError::Encoding {
                        offset: body as usize,
                        reason: "integer is out of range",
                    },
                )
                &&& (len <= usize::MAX && body + len > usize::MAX) ==> r == Err::<
                    String,
                    ChangeInputError,
                >(
                    ChangeInputError::Encoding {
                        offset: body as usize,
                        reason: "length overflow",
                    },
                )
                &&& (body + len <= usize::MAX && body + len > old(self).input().len()) ==> r
                    == Err::<String, ChangeInputError>(
                    ChangeInputError::Encoding {
                        offset: body as usize,
                        reason: "unexpected end of ChangeInput",
                    },
                )
                &&& body + len <= old(self).input().len() ==> {
                    let raw = old(self).input().subrange(body, body + len);
                    &&& final(self).position() == body + len
                    &&& len > old(self).limit_set().max_string_bytes ==> r == Err::<
                        String,
                        ChangeInputError,
                    >(
                        ChangeInputError::Limit {
                            name: "string bytes",
                            actual: len as usize,
                            maximum: old(self).limit_set().max_string_bytes,
                        },
                    )
                    &&& (len <= old(self).limit_set().max_string_bytes && !valid_utf8(raw)) ==> r
                        == Err::<String, ChangeInputError>(
                        ChangeInputError::Encoding {
                            offset: (body + len) as usize,
                            reason: "invalid UTF-8",
                        },
                    )
                    &&& (len <= old(self).limit_set().max_string_bytes && valid_utf8(raw)) ==> r
                        is Ok && r->Ok_0@ == decode_utf8(raw)
                }
            },
    {
        proof {
            use_type_invariant(&*self);
            lemma_varint_end(self.input(), self.position(), 0, 0);
        }
        let bytes = self.blob()?;
        self.check_limit("string bytes", bytes.len(), self.limits.max_string_bytes)?;
        match utf8_string(bytes.as_slice()) {
            Some(s) => Ok(s),
            None => Err(self.encoding("invalid UTF-8")),
        }
    }

    /// Reads one RichText attribute value: a tag, then its payload.
    pub fn attr_value(&mut self) -> (r: Result<AttrValue, ChangeInputError>)
        ensures
            final(self).same_source(old(self)),
            old(self).position() >= old(self).input().len() ==> r == Err::<
                AttrValue,
                ChangeInputError,
            >(
                ChangeInputError::Encoding {
                    offset: old(self).position() as usize,
                    reason: "unexpected end of ChangeInput",
                },
            ),
            old(self).position() < old(self).input().len() ==> {
                let tag = old(self).input()[old(self).position()];
                let next = old(self).position() + 1;
                &&& tag == 0 ==> r == Ok::<AttrValue, ChangeInputError>(AttrValue::Bool(false))
                &&& tag == 1 ==> r == Ok::<AttrValue, ChangeInputError>(AttrValue::Bool(true))
                &&& tag == 2 ==> match varint_at(old(self).input(), next) {
                    Ok((v, _)) => r == Ok::<AttrValue, ChangeInputError>(
                        AttrValue::Int(zigzag(v) as i64),
                    ),
                    Err(e) => r == Err::<AttrValue, ChangeInputError>(e),
                }
                &&& tag == 3 ==> if next + 8 <= old(self).input().len() {
                    let bits = spec_u64_from_le_bytes(old(self).input().subrange(next, next + 8));
                    &&& crate::value::finite_bits(bits) ==> (r is Ok && r->Ok_0 is Float
                        && r->Ok_0->Float_0@ == (if bits == crate::value::NEGATIVE_ZERO_BITS {
                        0
                    } else {
                        bits
                    }))
                    &&& !crate::value::finite_bits(bits) ==> r == Err::<
                        AttrValue,
                        ChangeInputError,
                    >(ChangeInputError::Value(ValueError::NonFiniteFloat))
                } else if next + 8 > usize::MAX {
                    r == Err::<AttrValue, ChangeInputError>(
                        ChangeInputError::Encoding { offset: next as usize, reason: "length overflow" },
                    )
                } else {
                    r == Err::<AttrValue, ChangeInputError>(
                        ChangeInputError::Encoding {
                            offset: next as usize,
                            reason: "unexpected end of ChangeInput",
                        },
                    )
                }
                &&& tag == 4 ==> match string_at(old(self).input(), next, old(self).limit_set()) {
                    Ok((t, _)) => r is Ok && r->Ok_0 is String && r->Ok_0->String_0@ == t,
                    Err(e) => r == Err::<AttrValue, ChangeInputError>(e),
                }
                &&& tag > 4 ==> r == Err::<AttrValue, ChangeInputError>(
                    ChangeInputError::Encoding {
                        offset: next as usize,
                        reason: "unknown attribute value type",
                    },
                )
            },
    {
        proof {
            use_type_invariant(&*self);
            lemma_varint_end(self.input(), self.position() + 1, 0, 0);
        }
        let tag = self.byte()?;
        if tag == 0 {
            Ok(AttrValue::Bool(false))
        } else if tag == 1 {
            Ok(AttrValue::Bool(true))
        } else if tag == 2 {
            Ok(AttrValue::Int(self.i64()?))
        } else if tag == 3 {
            let bytes = self.exact(8)?;
            let bits = u64_from_le_bytes(bytes);
            match FiniteF64::from_bits(bits) {
                Ok(f) => Ok(AttrValue::Float(f)),
                Err(e) => Err(ChangeInputError::Value(e)),
            }
        } else if tag == 4 {
            Ok(AttrValue::String(self.string()?))
        } else {
            Err(self.encoding("unknown attribute value type"))
        }
    }
}

/// `128^(i+1)` is `128` times `128^i`, and grows.
proof fn lemma_pow128_grows(i: nat)
    ensures
        pow128(i + 1) == 128 * pow128(i),
        pow128(i) >= 1,
    decreases i,
{
    if i > 0 {
        lemma_pow128_grows((i - 1) as nat);
    }
}

/// Adding the next seven-bit group keeps the value below the next power.
proof fn lemma_varint_step_fits(value: nat, byte: u8, i: nat)
    requires
        value < pow128(i),
        i < 10,
        i == 9 ==> byte <= 1,
    ensures
        value + (byte % 128) as nat * pow128(i) < pow128(i + 1),
        value + (byte % 128) as nat * pow128(i) <= u64::MAX,
{
    lemma_pow128_grows(i);
    let p = pow128(i);
    let d = (byte % 128) as nat;
    assert(d * p <= 127 * p) by (nonlinear_arith)
        requires
            d <= 127,
    ;
    lemma_pow128_bound(i);
    if i == 9 {
        assert(d <= 1);
        assert(d * p <= p) by (nonlinear_arith)
            requires
                d <= 1,
        ;
    }
}

/// `128^i` for `i <= 9` is at most `2^63`.
proof fn lemma_pow128_bound(i: nat)
    requires
        i <= 9,
    ensures
        pow128(i) <= 0x8000_0000_0000_0000,
        i <= 8 ==> pow128(i) <= 0x0100_0000_0000_0000,
{
    reveal_with_fuel(pow128, 10);
}

} // verus!

verus! {

/// The string a length-prefixed UTF-8 field at `pos` holds, and the offset
/// after it.
pub open spec fn string_at(s: Seq<u8>, pos: int, limits: InputLimits) -> Result<
    (Seq<char>, int),
    ChangeInputError,
> {
    match varint_at(s, pos) {
        Err(e) => Err(e),
        Ok((len, body)) => if len > usize::MAX {
            Err(ChangeInputError::Encoding { offset: body as usize, reason: "integer is out of range" })
        } else if body + len > usize::MAX {
            Err(ChangeInputError::Encoding { offset: body as usize, reason: "length overflow" })
        } else if body + len > s.len() {
            Err(
                ChangeInputError::Encoding {
                    offset: body as usize,
                    reason: "unexpected end of ChangeInput",
                },
            )
        } else if len > limits.max_string_bytes {
            Err(
                ChangeInputError::Limit {
                    name: "string bytes",
                    actual: len as usize,
                    maximum: limits.max_string_bytes,
                },
            )
        } else if !valid_utf8(s.subrange(body, body + len)) {
            Err(
                ChangeInputError::Encoding {
                    offset: (body + len) as usize,
                    reason: "invalid UTF-8",
                },
            )
        } else {
            Ok((decode_utf8(s.subrange(body, body + len)), body + len))
        }
    }
}

/// A varint length at `pos` that must fit in `usize`, and the offset after it.
pub open spec fn usize_at(s: Seq<u8>, pos: int) -> Result<(nat, int), ChangeInputError> {
    match varint_at(s, pos) {
        Err(e) => Err(e),
        Ok((v, end)) => if v > usize::MAX {
            Err(ChangeInputError::Encoding { offset: end as usize, reason: "integer is out of range" })
        } else {
            Ok((v as nat, end))
        },
    }
}

/// One raw Text operation at `pos`: a tag byte (0 retain, 1 insert, 2 delete)
/// and its payload, and the offset after it.
pub open spec fn text_op_at(s: Seq<u8>, pos: int, limits: InputLimits) -> Result<
    (OpView, int),
    ChangeInputError,
> {
    if pos >= s.len() {
        Err(
            ChangeInputError::Encoding {
                offset: pos as usize,
                reason: "unexpected end of ChangeInput",
            },
        )
    } else if s[pos] == 0 {
        match usize_at(s, pos + 1) {
            Err(e) => Err(e),
            Ok((n, end)) => Ok((OpView::Retain(n), end)),
        }
    } else if s[pos] == 1 {
        match string_at(s, pos + 1, limits) {
            Err(e) => Err(e),
            Ok((text, end)) => Ok((OpView::Insert(text), end)),
        }
    } else if s[pos] == 2 {
        match usize_at(s, pos + 1) {
            Err(e) => Err(e),
            Ok((n, end)) => Ok((OpView::Delete(n), end)),
        }
    } else {
        Err(
            ChangeInputError::Encoding {
                offset: (pos + 1) as usize,
                reason: "unknown TextChange operation",
            },
        )
    }
}

/// Adds `amount` to one running sequence length, within the limit.
pub open spec fn grow_length(current: nat, amount: nat, limits: InputLimits) -> Result<
    nat,
    ChangeInputError,
> {
    if current + amount > usize::MAX {
        Err(
            ChangeInputError::Limit {
                name: "sequence length",
                actual: usize::MAX,
                maximum: limits.max_sequence_len,
            },
        )
    } else if current + amount > limits.max_sequence_len {
        Err(
            ChangeInputError::Limit {
                name: "sequence length",
                actual: (current + amount) as usize,
                maximum: limits.max_sequence_len,
            },
        )
    } else {
        Ok(current + amount)
    }
}

/// The running input and output lengths after one more raw operation.
pub open spec fn grow_lengths(input: nat, output: nat, op: OpView, limits: InputLimits) -> Result<
    (nat, nat),
    ChangeInputError,
> {
    match op {
        OpView::Retain(n) => match grow_length(input, n, limits) {
            Err(e) => Err(e),
            Ok(i) => match grow_length(output, n, limits) {
                Err(e) => Err(e),
                Ok(o) => Ok((i, o)),
            },
        },
        OpView::Insert(t) => match grow_length(output, t.len(), limits) {
            Err(e) => Err(e),
            Ok(o) => Ok((input, o)),
        },
        OpView::Delete(n) => match grow_length(input, n, limits) {
            Err(e) => Err(e),
            Ok(i) => Ok((i, output)),
        },
    }
}

/// Reads `n` more raw Text operations at `pos`, after `done` were read with
/// running lengths `input` and `output`; the limits are checked after each.
pub open spec fn text_ops_from(
    s: Seq<u8>,
    pos: int,
    n: nat,
    input: nat,
    output: nat,
    done: Seq<OpView>,
    limits: InputLimits,
) -> Result<(Seq<OpView>, int), ChangeInputError>
    decreases n,
{
    if n == 0 {
        Ok((done, pos))
    } else {
        match text_op_at(s, pos, limits) {
            Err(e) => Err(e),
            Ok((op, next)) => match grow_lengths(input, output, op, limits) {
                Err(e) => Err(e),
                Ok((i, o)) => text_ops_from(s, next, (n - 1) as nat, i, o, done.push(op), limits),
            },
        }
    }
}

/// A Text change body at `pos`: an operation count within the limit, then
/// that many raw operations, normalized to canonical form.
pub open spec fn text_change_at(s: Seq<u8>, pos: int, limits: InputLimits) -> Result<
    (Seq<OpView>, int),
    ChangeInputError,
> {
    match usize_at(s, pos) {
        Err(e) => Err(e),
        Ok((count, start)) => if count > limits.max_sequence_ops {
            Err(
                ChangeInputError::Limit {
                    name: "sequence ops",
                    actual: count as usize,
                    maximum: limits.max_sequence_ops,
                },
            )
        } else {
            match text_ops_from(s, start, count, 0, 0, Seq::empty(), limits) {
                Err(e) => Err(e),
                Ok((raw, end)) => match normalize_view(raw) {
                    Some(ops) => if lengths_fit(ops) {
                        Ok((ops, end))
                    } else {
                        Err(ChangeInputError::Value(ValueError::LengthOverflow))
                    },
                    None => Err(ChangeInputError::Value(ValueError::LengthOverflow)),
                },
            }
        }
    }
}

/// The running input and output lengths of a sequence being decoded.
pub struct SequenceLengths {
    input: usize,
    output: usize,
}

impl SequenceLengths {
    /// Both lengths are zero.
    pub fn new() -> (l: SequenceLengths)
        ensures
            l.lengths() == (0nat, 0nat),
    {
        SequenceLengths { input: 0, output: 0 }
    }

    /// The input and output lengths so far.
    pub closed spec fn lengths(&self) -> (nat, nat) {
        (self.input as nat, self.output as nat)
    }

    fn add(&self, current: usize, amount: usize, decoder: &Decoder<'_>) -> (r: Result<
        usize,
        ChangeInputError,
    >)
        ensures
            match grow_length(current as nat, amount as nat, decoder.limit_set()) {
                Ok(n) => r == Ok::<usize, ChangeInputError>(n as usize),
                Err(e) => r == Err::<usize, ChangeInputError>(e),
            },
    {
        let total = match current.checked_add(amount) {
            Some(t) => t,
            None => {
                return Err(
                    decoder.limit_error(
                        "sequence length",
                        usize::MAX,
                        decoder.limits.max_sequence_len,
                    ),
                );
            },
        };
        decoder.check_limit("sequence length", total, decoder.limits.max_sequence_len)?;
        Ok(total)
    }

    /// Counts a retain of `len` against both lengths.
    pub fn retain(&mut self, len: usize, decoder: &Decoder<'_>) -> (r: Result<(), ChangeInputError>)
        ensures
            match grow_lengths(
                old(self).lengths().0,
                old(self).lengths().1,
                OpView::Retain(len as nat),
                decoder.limit_set(),
            ) {
                Ok(l) => r is Ok && final(self).lengths() == l,
                Err(e) => r == Err::<(), ChangeInputError>(e),
            },
    {
        self.input = self.add(self.input, len, decoder)?;
        self.output = self.add(self.output, len, decoder)?;
        Ok(())
    }

    /// Counts an insert of `len` scalars against the output length.
    pub fn insert(&mut self, len: usize, decoder: &Decoder<'_>) -> (r: Result<(), ChangeInputError>)
        ensures
            match grow_length(old(self).lengths().1, len as nat, decoder.limit_set()) {
                Ok(o) => r is Ok && final(self).lengths() == (old(self).lengths().0, o),
                Err(e) => r == Err::<(), ChangeInputError>(e),
            },
    {
        self.output = self.add(self.output, len, decoder)?;
        Ok(())
    }

    /// Counts a delete of `len` against the input length.
    pub fn delete(&mut self, len: usize, decoder: &Decoder<'_>) -> (r: Result<(), ChangeInputError>)
        ensures
            match grow_length(old(self).lengths().0, len as nat, decoder.limit_set()) {
                Ok(i) => r is Ok && final(self).lengths() == (i, old(self).lengths().1),
                Err(e) => r == Err::<(), ChangeInputError>(e),
            },
    {
        self.input = self.add(self.input, len, decoder)?;
        Ok(())
    }
}

impl<'a> Decoder<'a> {
    /// Reads the body of a Text change: an operation count within the
    /// operation limit, then the raw operations, whose running input and
    /// output lengths are held to the sequence limit before the stream is
    /// normalized.
    pub fn text_change(&mut self) -> (r: Result<TextChange, ChangeInputError>)
        ensures
            final(self).same_source(old(self)),
            text_change_at(old(self).input(), old(self).position(), old(self).limit_set()) matches Ok(
                (ops, end),
            ) ==> r is Ok && r->Ok_0@ == ops && final(self).position() == end,
            text_change_at(old(self).input(), old(self).position(), old(self).limit_set()) matches Err(
                e,
            ) ==> r == Err::<TextChange, ChangeInputError>(e),
    {
        let ghost s = self.input();
        let ghost limits = self.limit_set();
        let max_ops = self.limits.max_sequence_ops;
        let count = self.count("sequence ops", max_ops)?;
        let ghost start = self.position();
        let mut lengths = SequenceLengths::new();
        let mut ops: Vec<TextOp> = Vec::new();
        let mut k: usize = 0;
        proof {
            assert(ops.deep_view() =~= Seq::<OpView>::empty());
        }
        while k < count
            invariant
                s == old(self).input(),
                limits == old(self).limit_set(),
                self.input() == s,
                self.limit_set() == limits,
                k <= count,
                count <= limits.max_sequence_ops,
                usize_at(s, old(self).position()) == Ok::<(nat, int), ChangeInputError>(
                    (count as nat, start),
                ),
                text_ops_from(s, start, count as nat, 0, 0, Seq::empty(), limits) == text_ops_from(
                    s,
                    self.position(),
                    (count - k) as nat,
                    lengths.lengths().0,
                    lengths.lengths().1,
                    ops.deep_view(),
                    limits,
                ),
                inserts_fit(ops.deep_view()),
            decreases count - k,
        {
            let ghost p = self.position();
            let ghost done = ops.deep_view();
            let ghost lens = lengths.lengths();
            proof {
                lemma_varint_end(s, p + 1, 0, 0);
            }
            let tag = self.byte()?;
            if tag == 0 {
                let len = self.usize()?;
                lengths.retain(len, self)?;
                ops.push(TextOp::Retain(len));
                proof {
                    assert(ops.deep_view() =~= done.push(OpView::Retain(len as nat)));
                }
            } else if tag == 1 {
                let text = self.string()?;
                let _ = str_byte_len(text.as_str());
                let chars = scalar_count(text.as_str());
                lengths.insert(chars, self)?;
                let ghost t = text@;
                ops.push(TextOp::Insert(text));
                proof {
                    assert(ops.deep_view() =~= done.push(OpView::Insert(t)));
                }
            } else if tag == 2 {
                let len = self.usize()?;
                lengths.delete(len, self)?;
                ops.push(TextOp::Delete(len));
                proof {
                    assert(ops.deep_view() =~= done.push(OpView::Delete(len as nat)));
                }
            } else {
                return Err(self.encoding("unknown TextChange operation"));
            }
            k = k + 1;
        }
        match TextChange::from_ops(ops) {
            Ok(c) => Ok(c),
            Err(e) => Err(ChangeInputError::Value(e)),
        }
    }
}

/// Every key and string value of `attrs` fits the string byte limit.
pub open spec fn attr_strings_fit(attrs: Seq<(Seq<char>, AttrValue)>, max: usize) -> bool {
    forall|i: int|
        0 <= i < attrs.len() ==> byte_len(#[trigger] attrs[i].0) <= max && (attrs[i].1 is String
            ==> byte_len(attrs[i].1->String_0@) <= max)
}

impl<'a> Decoder<'a> {
    /// Holds an attribute set to the container and string limits.
    pub fn count_attrs(&self, attrs: &Attrs) -> (r: Result<(), ChangeInputError>)
        ensures
            r is Ok <==> attrs@.len() <= self.limit_set().max_container_len && attr_strings_fit(
                attrs@,
                self.limit_set().max_string_bytes,
            ),
            r matches Err(e) ==> e is Limit,
    {
        self.check_limit("container length", attrs.len(), self.limits.max_container_len)?;
        let entries = attrs.entries();
        let ghost s = attrs@;
        let mut i: usize = 0;
        while i < entries.len()
            invariant
                keyed_entries(entries@) == s,
                s == attrs@,
                i <= s.len(),
                forall|j: int|
                    0 <= j < i ==> byte_len(#[trigger] s[j].0) <= self.limit_set().max_string_bytes
                        && (s[j].1 is String ==> byte_len(s[j].1->String_0@)
                        <= self.limit_set().max_string_bytes),
            decreases s.len() - i,
        {
            proof {
                assert(s[i as int] == keyed(entries@[i as int]));
            }
            match self.check_string(entries[i].0.as_str()) {
                Ok(()) => {},
                Err(e) => {
                    proof {
                        assert(byte_len(s[i as int].0) > self.limit_set().max_string_bytes);
                        assert(!attr_strings_fit(s, self.limit_set().max_string_bytes));
                    }
                    return Err(e);
                },
            }
            match &entries[i].1 {
                AttrValue::String(v) => {
                    match self.check_string(v.as_str()) {
                        Ok(()) => {},
                        Err(e) => {
                            proof {
                                assert(byte_len(s[i as int].0) <= self.limit_set().max_string_bytes);
                                assert(s[i as int].1 is String);
                                assert(byte_len(s[i as int].1->String_0@)
                                    > self.limit_set().max_string_bytes);
                                assert(!attr_strings_fit(s, self.limit_set().max_string_bytes));
                            }
                            return Err(e);
                        },
                    }
                    proof {
                        assert(entries@[i as int].1 == AttrValue::String(*v));
                        assert(s[i as int].1 == entries@[i as int].1);
                        assert(byte_len(s[i as int].1->String_0@) <= self.limit_set().max_string_bytes);
                    }
                },
                _ => {
                    proof {
                        assert(!(s[i as int].1 is String));
                    }
                },
            }
            proof {
                assert(byte_len(s[i as int].0) <= self.limit_set().max_string_bytes);
                assert(s[i as int].1 is String ==> byte_len(s[i as int].1->String_0@)
                    <= self.limit_set().max_string_bytes);
                assert forall|j: int| 0 <= j < i + 1 implies byte_len(#[trigger] s[j].0)
                    <= self.limit_set().max_string_bytes && (s[j].1 is String ==> byte_len(
                    s[j].1->String_0@,
                ) <= self.limit_set().max_string_bytes) by {
                    if j < i {
                    }
                }
            }
            i = i + 1;
        }
        Ok(())
    }
}

} // verus!
