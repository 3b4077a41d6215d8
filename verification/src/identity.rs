//! Stable element identities and their monotonic allocation.
use crate::error::{CollaError, ErrorCode};
use crate::text_buf::push_char;
use crate::value::chars_of;
use vstd::prelude::*;

verus! {

/// Stable identity, independent of content, location, and request identity.
#[derive(Debug, Clone, Copy, PartialEq, Eq, PartialOrd, Ord, Hash)]
pub struct ElementId {
    namespace: [u8; 16],
    sequence: u64,
}

impl View for ElementId {
    type V = (Seq<u8>, u64);

    closed spec fn view(&self) -> (Seq<u8>, u64) {
        (self.namespace@, self.sequence)
    }
}

impl ElementId {
    /// Returns the independent 128-bit allocation namespace.
    pub fn namespace(self) -> (n: [u8; 16])
        ensures
            n@ == self@.0,
    {
        self.namespace
    }

    /// Returns the positive monotonic sequence number.
    pub fn sequence(self) -> (s: u64)
        ensures
            s == self@.1,
    {
        self.sequence
    }
}

/// Monotonic allocation. Aborted edits never roll this allocator back.
#[derive(Debug)]
pub struct IdAllocator {
    namespace: [u8; 16],
    next: Option<u64>,
}

impl View for IdAllocator {
    /// The namespace and the next sequence to hand out, if any is left.
    type V = (Seq<u8>, Option<u64>);

    closed spec fn view(&self) -> (Seq<u8>, Option<u64>) {
        (self.namespace@, self.next)
    }
}

/// The error type of the platform random source.
#[verifier::external_type_specification]
#[verifier::external_body]
pub struct ExRandomError(getrandom::Error);

/// Fills `dest` from the platform's secure random source by calling
/// `getrandom::getrandom`. Nothing is stated of the bytes it writes, which
/// are chance, nor of when it fails, which depends on the platform.
#[verifier::external_body]
fn fill_random(dest: &mut [u8; 16]) -> (r: Result<(), getrandom::Error>) {
    getrandom::getrandom(dest)
}

/// Describes a random-source failure through its `Display` impl. Nothing is
/// stated of the text, which comes from the operating system.
#[verifier::external_body]
fn random_error_text(e: &getrandom::Error) -> (s: String) {
    e.to_string()
}

impl IdAllocator {
    /// Creates an allocator with a fresh namespace from the platform secure random source.
    pub fn random() -> (r: Result<IdAllocator, CollaError>)
        ensures
            r matches Ok(a) ==> a@.1 == Some(1u64),
            r matches Err(e) ==> e.code == ErrorCode::InvalidState,
    {
        let mut namespace = [0u8; 16];
        match fill_random(&mut namespace) {
            Ok(()) => Ok(IdAllocator::deterministic(namespace)),
            Err(e) => {
                let reason = random_error_text(&e);
                Err(CollaError::new(ErrorCode::InvalidState, reason.as_str()))
            },
        }
    }

    /// Creates an allocator in an explicit test namespace, starting at sequence one.
    pub fn deterministic(namespace: [u8; 16]) -> (a: IdAllocator)
        ensures
            a@ == (namespace@, Some(1u64)),
    {
        IdAllocator { namespace, next: Some(1) }
    }

    /// Allocates the next ID without reuse; namespace exhaustion returns an error.
    pub fn allocate(&mut self) -> (r: Result<ElementId, CollaError>)
        ensures
            final(self)@ == after_allocation(old(self)@),
            final(self)@.0 == old(self)@.0,
            old(self)@.1 is None ==> final(self)@ == old(self)@ && r is Err,
            r matches Err(e) ==> old(self)@.1 is None && e.code == ErrorCode::LimitExceeded
                && e.details_spec() == seq![("reason"@, "element ID sequence exhausted"@)],
            old(self)@.1 matches Some(s) ==> {
                &&& r matches Ok(id) && id@ == (old(self)@.0, s)
                &&& final(self)@.1 == if s == u64::MAX {
                    None
                } else {
                    Some((s + 1) as u64)
                }
            },
    {
        match self.next {
            None => Err(CollaError::new(ErrorCode::LimitExceeded, "element ID sequence exhausted")),
            Some(sequence) => {
                self.next = sequence.checked_add(1);
                Ok(ElementId { namespace: self.namespace, sequence })
            },
        }
    }
}

/// The state of an allocator after one allocation from state `s`: the next
/// sequence moves on by one, and is gone after the last one.
pub open spec fn after_allocation(s: (Seq<u8>, Option<u64>)) -> (Seq<u8>, Option<u64>) {
    match s.1 {
        None => s,
        Some(x) => (s.0, if x == u64::MAX {
            None
        } else {
            Some((x + 1) as u64)
        }),
    }
}

/// The state of an allocator after `k` allocations from state `s`.
pub open spec fn after_allocations(s: (Seq<u8>, Option<u64>), k: nat) -> (Seq<u8>, Option<u64>)
    decreases k,
{
    if k == 0 {
        s
    } else {
        after_allocation(after_allocations(s, (k - 1) as nat))
    }
}

/// IDs from a deterministic allocator are reproducible: an allocator made
/// by `deterministic(namespace)` is, after `k - 1` allocations, about to hand
/// out the ID with that namespace and sequence `k`, whatever else happened,
/// so two such allocators hand out the same `k`-th ID.
pub proof fn law_deterministic_ids(namespace: Seq<u8>, k: nat)
    requires
        1 <= k <= u64::MAX,
    ensures
        after_allocations((namespace, Some(1u64)), (k - 1) as nat) == (namespace, Some(k as u64)),
    decreases k,
{
    if k > 1 {
        law_deterministic_ids(namespace, (k - 1) as nat);
    }
}

/// Sequences handed out by one allocator strictly increase, so no ID is
/// handed out twice: after allocating `first`, the allocator's next sequence,
/// if any, is larger.
pub proof fn lemma_allocation_increases(first: u64, next: Option<u64>)
    requires
        next == (if first == u64::MAX {
            None
        } else {
            Some((first + 1) as u64)
        }),
    ensures
        next matches Some(s) ==> s > first,
{
}

/// The lowercase hexadecimal digit for `d`.
pub open spec fn hex_char(d: nat) -> char {
    if d == 0 {
        '0'
    } else if d == 1 {
        '1'
    } else if d == 2 {
        '2'
    } else if d == 3 {
        '3'
    } else if d == 4 {
        '4'
    } else if d == 5 {
        '5'
    } else if d == 6 {
        '6'
    } else if d == 7 {
        '7'
    } else if d == 8 {
        '8'
    } else if d == 9 {
        '9'
    } else if d == 10 {
        'a'
    } else if d == 11 {
        'b'
    } else if d == 12 {
        'c'
    } else if d == 13 {
        'd'
    } else if d == 14 {
        'e'
    } else {
        'f'
    }
}

/// A lowercase hexadecimal digit.
pub open spec fn is_hex_digit(c: char) -> bool {
    ('0' as u32 <= c as u32 <= '9' as u32) || ('a' as u32 <= c as u32 <= 'f' as u32)
}

/// The value of a lowercase hexadecimal digit.
pub open spec fn hex_digit_value(c: char) -> nat {
    if c as u32 <= '9' as u32 {
        (c as u32 - '0' as u32) as nat
    } else {
        (c as u32 - 'a' as u32 + 10) as nat
    }
}

/// The last `n` hexadecimal digits of `v`, most significant first.
pub open spec fn hex_digits(v: nat, n: nat) -> Seq<char>
    decreases n,
{
    if n == 0 {
        seq![]
    } else {
        hex_digits(v / 16, (n - 1) as nat).push(hex_char(v % 16))
    }
}

/// The value of a hexadecimal digit string, most significant first.
pub open spec fn hex_value(d: Seq<char>) -> nat
    decreases d.len(),
{
    if d.len() == 0 {
        0
    } else {
        hex_value(d.drop_last()) * 16 + hex_digit_value(d.last())
    }
}

/// Two hexadecimal digits per byte.
pub open spec fn bytes_hex(s: Seq<u8>) -> Seq<char>
    decreases s.len(),
{
    if s.len() == 0 {
        seq![]
    } else {
        bytes_hex(s.drop_last()) + hex_digits(s.last() as nat, 2)
    }
}

/// The canonical 48-digit text of an ID: 32 digits of namespace, then 16 of sequence.
pub open spec fn id_text(id: (Seq<u8>, u64)) -> Seq<char> {
    bytes_hex(id.0) + hex_digits(id.1 as nat, 16)
}

/// `s` has the canonical shape of an ID text: 48 lowercase hexadecimal digits.
pub open spec fn is_id_text(s: Seq<char>) -> bool {
    s.len() == 48 && forall|i: int| 0 <= i < 48 ==> is_hex_digit(#[trigger] s[i])
}

/// The ID a canonical text denotes.
pub open spec fn id_of_text(s: Seq<char>) -> (Seq<u8>, u64) {
    (
        Seq::new(16, |i: int| hex_value(s.subrange(2 * i, 2 * i + 2)) as u8),
        hex_value(s.subrange(32, 48)) as u64,
    )
}

pub open spec fn pow16(n: nat) -> nat
    decreases n,
{
    if n == 0 {
        1
    } else {
        16 * pow16((n - 1) as nat)
    }
}

proof fn lemma_hex_char(d: nat)
    requires
        d < 16,
    ensures
        is_hex_digit(hex_char(d)),
        hex_digit_value(hex_char(d)) == d,
{
}

proof fn lemma_hex_digits(v: nat, n: nat)
    requires
        v < pow16(n),
    ensures
        hex_digits(v, n).len() == n,
        forall|i: int| 0 <= i < n ==> is_hex_digit(#[trigger] hex_digits(v, n)[i]),
        hex_value(hex_digits(v, n)) == v,
    decreases n,
{
    if n > 0 {
        lemma_hex_digits(v / 16, (n - 1) as nat);
        lemma_hex_char(v % 16);
        let d = hex_digits(v, n);
        assert(d.drop_last() =~= hex_digits(v / 16, (n - 1) as nat));
    }
}

proof fn lemma_hex_value_bound(d: Seq<char>)
    requires
        forall|i: int| 0 <= i < d.len() ==> is_hex_digit(#[trigger] d[i]),
    ensures
        hex_value(d) < pow16(d.len()),
    decreases d.len(),
{
    if d.len() > 0 {
        lemma_hex_value_bound(d.drop_last());
        assert(is_hex_digit(d[d.len() - 1]));
    }
}

proof fn lemma_bytes_hex(s: Seq<u8>)
    ensures
        bytes_hex(s).len() == 2 * s.len(),
        forall|i: int| 0 <= i < s.len() ==> bytes_hex(s).subrange(2 * i, 2 * i + 2) == hex_digits(
            #[trigger] s[i] as nat,
            2,
        ),
        forall|i: int| 0 <= i < 2 * s.len() ==> is_hex_digit(#[trigger] bytes_hex(s)[i]),
    decreases s.len(),
{
    if s.len() > 0 {
        let init = s.drop_last();
        lemma_bytes_hex(init);
        let b = s.last();
        lemma_pow16_2();
        lemma_hex_digits(b as nat, 2);
        let t = bytes_hex(s);
        assert forall|i: int| 0 <= i < s.len() implies t.subrange(2 * i, 2 * i + 2) == hex_digits(
            #[trigger] s[i] as nat,
            2,
        ) by {
            if i < init.len() {
                assert(t.subrange(2 * i, 2 * i + 2) =~= bytes_hex(init).subrange(2 * i, 2 * i + 2));
                assert(init[i] == s[i]);
            } else {
                assert(t.subrange(2 * i, 2 * i + 2) =~= hex_digits(b as nat, 2));
            }
        }
        assert forall|i: int| 0 <= i < 2 * s.len() implies is_hex_digit(#[trigger] t[i]) by {
            if i < 2 * init.len() {
                assert(t[i] == bytes_hex(init)[i]);
            } else {
                assert(t[i] == hex_digits(b as nat, 2)[i - 2 * init.len()]);
            }
        }
    }
}

/// An ID's canonical text is well formed and denotes that ID again, so
/// rendering and then parsing an ID gives it back.
pub proof fn lemma_id_text_roundtrip(id: (Seq<u8>, u64))
    requires
        id.0.len() == 16,
    ensures
        is_id_text(id_text(id)),
        id_of_text(id_text(id)) == id,
{
    let t = id_text(id);
    lemma_bytes_hex(id.0);
    lemma_pow16_16();
    lemma_hex_digits(id.1 as nat, 16);
    assert forall|i: int| 0 <= i < 48 implies is_hex_digit(#[trigger] t[i]) by {
        if i < 32 {
            assert(t[i] == bytes_hex(id.0)[i]);
        } else {
            assert(t[i] == hex_digits(id.1 as nat, 16)[i - 32]);
        }
    }
    assert(t.subrange(32, 48) =~= hex_digits(id.1 as nat, 16));
    assert forall|i: int| 0 <= i < 16 implies #[trigger] id_of_text(t).0[i] == id.0[i] by {
        assert(t.subrange(2 * i, 2 * i + 2) =~= bytes_hex(id.0).subrange(2 * i, 2 * i + 2));
        lemma_pow16_2();
        lemma_hex_digits(id.0[i] as nat, 2);
    }
    assert(id_of_text(t).0 =~= id.0);
}

fn hex_char_of(d: u64) -> (c: char)
    requires
        d < 16,
    ensures
        c == hex_char(d as nat),
{
    if d == 0 {
        '0'
    } else if d == 1 {
        '1'
    } else if d == 2 {
        '2'
    } else if d == 3 {
        '3'
    } else if d == 4 {
        '4'
    } else if d == 5 {
        '5'
    } else if d == 6 {
        '6'
    } else if d == 7 {
        '7'
    } else if d == 8 {
        '8'
    } else if d == 9 {
        '9'
    } else if d == 10 {
        'a'
    } else if d == 11 {
        'b'
    } else if d == 12 {
        'c'
    } else if d == 13 {
        'd'
    } else if d == 14 {
        'e'
    } else {
        'f'
    }
}

/// Appends the last `n` hexadecimal digits of `v` to `out`.
fn push_hex(out: &mut String, v: u64, n: u64)
    ensures
        final(out)@ == old(out)@ + hex_digits(v as nat, n as nat),
    decreases n,
{
    if n > 0 {
        push_hex(out, v / 16, n - 1);
        push_char(out, hex_char_of(v % 16));
    } else {
        assert(old(out)@ + hex_digits(v as nat, 0) =~= old(out)@);
    }
}

fn hex_digit_value_of(c: char) -> (d: u64)
    requires
        is_hex_digit(c),
    ensures
        d == hex_digit_value(c),
        d < 16,
{
    let v = c as u32;
    if v <= '9' as u32 {
        (v - '0' as u32) as u64
    } else {
        (v - 'a' as u32 + 10) as u64
    }
}

fn is_hex_digit_exec(c: char) -> (b: bool)
    ensures
        b == is_hex_digit(c),
{
    let v = c as u32;
    ('0' as u32 <= v && v <= '9' as u32) || ('a' as u32 <= v && v <= 'f' as u32)
}

impl ElementId {
    /// Renders the canonical 48-digit lowercase hexadecimal text.
    pub fn to_hex_string(&self) -> (s: String)
        ensures
            s@ == id_text(self@),
    {
        let mut out = String::new();
        let mut i: usize = 0;
        proof {
            assert(self.namespace@.take(0) =~= Seq::<u8>::empty());
        }
        while i < 16
            invariant
                i <= 16,
                self.namespace@.len() == 16,
                out@ == bytes_hex(self.namespace@.take(i as int)),
            decreases 16 - i,
        {
            proof {
                assert(self.namespace@.take(i + 1).drop_last() =~= self.namespace@.take(i as int));
            }
            push_hex(&mut out, self.namespace[i] as u64, 2);
            i = i + 1;
        }
        proof {
            assert(self.namespace@.take(16) =~= self.namespace@);
        }
        push_hex(&mut out, self.sequence, 16);
        out
    }

    /// Parses the canonical 48-digit lowercase hexadecimal text of an ID.
    pub fn parse(input: &str) -> (r: Result<ElementId, CollaError>)
        ensures
            r is Ok <==> is_id_text(input@) && id_of_text(input@).1 != 0,
            r matches Ok(id) ==> id@ == id_of_text(input@),
            r matches Err(e) ==> e.code == ErrorCode::InvalidValue,
    {
        let chars = chars_of(input);
        let ghost s = input@;
        if chars.len() != 48 {
            return Err(
                CollaError::new(ErrorCode::InvalidValue, "expected a canonical 48-digit element ID"),
            );
        }
        let mut k: usize = 0;
        while k < 48
            invariant
                chars@ == s,
                s == input@,
                s.len() == 48,
                k <= 48,
                forall|j: int| 0 <= j < k ==> is_hex_digit(#[trigger] s[j]),
            decreases 48 - k,
        {
            if !is_hex_digit_exec(chars[k]) {
                return Err(
                    CollaError::new(
                        ErrorCode::InvalidValue,
                        "expected a canonical 48-digit element ID",
                    ),
                );
            }
            k = k + 1;
        }
        let mut namespace = [0u8; 16];
        let mut i: usize = 0;
        while i < 16
            invariant
                chars@ == s,
                is_id_text(s),
                i <= 16,
                forall|j: int|
                    0 <= j < i ==> #[trigger] namespace@[j] == hex_value(
                        s.subrange(2 * j, 2 * j + 2),
                    ),
            decreases 16 - i,
        {
            let hi = hex_digit_value_of(chars[2 * i]);
            let lo = hex_digit_value_of(chars[2 * i + 1]);
            proof {
                let d = s.subrange(2 * i, 2 * i + 2);
                let e = d.drop_last();
                assert(e.drop_last() =~= Seq::<char>::empty());
                assert(e =~= seq![s[2 * i]]);
                assert(hex_value(e.drop_last()) == 0);
                assert(hex_value(e) == hi);
                assert(d.last() == s[2 * i + 1]);
                assert(hex_value(d) == hi * 16 + lo);
            }
            namespace.set(i, (hi * 16 + lo) as u8);
            i = i + 1;
        }
        let mut sequence: u64 = 0;
        let mut j: usize = 32;
        proof {
            assert(s.subrange(32, 32) =~= Seq::<char>::empty());
            lemma_pow16_16();
        }
        while j < 48
            invariant
                chars@ == s,
                is_id_text(s),
                32 <= j <= 48,
                sequence == hex_value(s.subrange(32, j as int)),
                sequence < pow16((j - 32) as nat),
                pow16(16) == 0x1_0000_0000_0000_0000,
            decreases 48 - j,
        {
            let d = hex_digit_value_of(chars[j]);
            proof {
                assert(s.subrange(32, j + 1).drop_last() =~= s.subrange(32, j as int));
                assert(pow16((j + 1 - 32) as nat) == 16 * pow16((j - 32) as nat));
                lemma_pow16_monotone((j + 1 - 32) as nat, 16);
            }
            sequence = sequence * 16 + d;
            j = j + 1;
        }
        proof {
            assert(namespace@ =~= id_of_text(s).0);
        }
        if sequence == 0 {
            return Err(CollaError::new(ErrorCode::InvalidValue, "element ID sequence must be positive"));
        }
        Ok(ElementId { namespace, sequence })
    }
}

proof fn lemma_pow16_2()
    ensures
        pow16(2) == 256,
{
    reveal_with_fuel(pow16, 3);
}

proof fn lemma_pow16_16()
    ensures
        pow16(16) == 0x1_0000_0000_0000_0000,
{
    reveal_with_fuel(pow16, 17);
}

impl std::str::FromStr for ElementId {
    type Err = CollaError;

    fn from_str(input: &str) -> (r: Result<ElementId, CollaError>)
        ensures
            r is Ok <==> is_id_text(input@) && id_of_text(input@).1 != 0,
            r matches Ok(id) ==> id@ == id_of_text(input@),
            r matches Err(e) ==> e.code == ErrorCode::InvalidValue,
    {
        ElementId::parse(input)
    }
}

proof fn lemma_pow16_monotone(a: nat, b: nat)
    requires
        a <= b,
    ensures
        pow16(a) <= pow16(b),
    decreases b,
{
    if a < b {
        lemma_pow16_monotone(a, (b - 1) as nat);
    }
}

} // verus!
