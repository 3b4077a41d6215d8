//! Structured errors and their stable classification.
use crate::keys::{compare_keys, key_lt, lemma_key_lt_asymmetric, lemma_key_lt_transitive, KeyOrder};
use crate::path::{decimal, decimal_string, display_path, Path};
use crate::value::ValueType;
use vstd::prelude::*;

verus! {

/// Stable error categories shared by every public operation.
#[derive(Debug, Clone, Copy, PartialEq, Eq, Structural)]
pub enum ErrorCode {
    /// An argument violates the public calling contract.
    InvalidArgument,
    /// Content or an element identity is invalid.
    InvalidValue,
    /// The typed binary object is malformed or noncanonical.
    InvalidEncoding,
    /// The runtime or editing scope cannot perform this action.
    InvalidState,
    /// An input, allocation, sequence or version resource limit was exceeded.
    LimitExceeded,
    /// The operation or Path segment does not match the target kind.
    TypeMismatch,
    /// A required Map key or element ID is absent.
    MissingKey,
    /// A Map insert targeted a key that already exists.
    KeyAlreadyExists,
    /// A sequence position or range is outside current content.
    OutOfBounds,
    /// Checked i64 arithmetic overflowed.
    IntegerOverflow,
    /// Changes cannot be applied or combined against the supplied basis.
    IncompatibleChange,
    /// A UTF-16 offset splits a surrogate pair.
    InvalidUtf16Boundary,
    /// Merging would invalidate ownership or require unsafe Map target replacement.
    StructuralConflict,
    /// A gap must be filled before this server message can be received.
    MissingRevision,
    /// The Authority no longer retains the requested content basis.
    HistoryExpired,
}

/// The stable snake_case name of an error code.
pub open spec fn code_name(code: ErrorCode) -> Seq<char> {
    match code {
        ErrorCode::InvalidArgument => "invalid_argument"@,
        ErrorCode::InvalidValue => "invalid_value"@,
        ErrorCode::InvalidEncoding => "invalid_encoding"@,
        ErrorCode::InvalidState => "invalid_state"@,
        ErrorCode::LimitExceeded => "limit_exceeded"@,
        ErrorCode::TypeMismatch => "type_mismatch"@,
        ErrorCode::MissingKey => "missing_key"@,
        ErrorCode::KeyAlreadyExists => "key_already_exists"@,
        ErrorCode::OutOfBounds => "out_of_bounds"@,
        ErrorCode::IntegerOverflow => "integer_overflow"@,
        ErrorCode::IncompatibleChange => "incompatible_change"@,
        ErrorCode::InvalidUtf16Boundary => "invalid_utf16_boundary"@,
        ErrorCode::StructuralConflict => "structural_conflict"@,
        ErrorCode::MissingRevision => "missing_revision"@,
        ErrorCode::HistoryExpired => "history_expired"@,
    }
}

impl ErrorCode {
    /// Returns the stable snake_case error code.
    pub fn as_str(self) -> (name: &'static str)
        ensures
            name@ == code_name(self),
    {
        match self {
            ErrorCode::InvalidArgument => "invalid_argument",
            ErrorCode::InvalidValue => "invalid_value",
            ErrorCode::InvalidEncoding => "invalid_encoding",
            ErrorCode::InvalidState => "invalid_state",
            ErrorCode::LimitExceeded => "limit_exceeded",
            ErrorCode::TypeMismatch => "type_mismatch",
            ErrorCode::MissingKey => "missing_key",
            ErrorCode::KeyAlreadyExists => "key_already_exists",
            ErrorCode::OutOfBounds => "out_of_bounds",
            ErrorCode::IntegerOverflow => "integer_overflow",
            ErrorCode::IncompatibleChange => "incompatible_change",
            ErrorCode::InvalidUtf16Boundary => "invalid_utf16_boundary",
            ErrorCode::StructuralConflict => "structural_conflict",
            ErrorCode::MissingRevision => "missing_revision",
            ErrorCode::HistoryExpired => "history_expired",
        }
    }
}

/// Errors produced while constructing canonical Values and typed Changes.
#[derive(Debug, Clone, PartialEq, Eq)]
pub enum ValueError {
    /// A Float or floating-point attribute was NaN or infinite.
    NonFiniteFloat,
    /// An Attrs, AttrPatch, or Map input repeated a key.
    DuplicateKey(String),
    /// A logical length or allocation capacity exceeded the platform limit.
    LengthOverflow,
}

pub open spec fn value_error_code(e: ValueError) -> ErrorCode {
    match e {
        ValueError::NonFiniteFloat => ErrorCode::InvalidValue,
        ValueError::DuplicateKey(_) => ErrorCode::InvalidValue,
        ValueError::LengthOverflow => ErrorCode::LimitExceeded,
    }
}

impl ValueError {
    /// The stable classification of this error.
    pub fn code(&self) -> (code: ErrorCode)
        ensures
            code == value_error_code(*self),
    {
        match self {
            ValueError::NonFiniteFloat => ErrorCode::InvalidValue,
            ValueError::DuplicateKey(_) => ErrorCode::InvalidValue,
            ValueError::LengthOverflow => ErrorCode::LimitExceeded,
        }
    }
}

/// Errors converting between Unicode scalar and UTF-16 positions.
#[derive(Debug, Clone, PartialEq, Eq, Structural)]
pub enum Utf16PositionError {
    /// A Unicode scalar position exceeded the sequence length.
    CodePointOutOfBounds {
        /// Requested Unicode scalar position.
        position: usize,
        /// Logical sequence length.
        len: usize,
    },
    /// A UTF-16 position exceeded the sequence's UTF-16 length.
    Utf16OutOfBounds {
        /// Requested UTF-16 position.
        position: usize,
        /// UTF-16 sequence length.
        len: usize,
    },
    /// A UTF-16 position fell between a surrogate pair's code units.
    InvalidUtf16Boundary {
        /// Requested UTF-16 position.
        position: usize,
    },
}

pub open spec fn utf16_error_code(e: Utf16PositionError) -> ErrorCode {
    match e {
        Utf16PositionError::InvalidUtf16Boundary { .. } => ErrorCode::InvalidUtf16Boundary,
        _ => ErrorCode::OutOfBounds,
    }
}

impl Utf16PositionError {
    /// The stable classification of this error.
    pub fn code(&self) -> (code: ErrorCode)
        ensures
            code == utf16_error_code(*self),
    {
        match self {
            Utf16PositionError::InvalidUtf16Boundary { .. } => ErrorCode::InvalidUtf16Boundary,
            _ => ErrorCode::OutOfBounds,
        }
    }
}

/// Errors applying a Change to a concrete Snapshot.
#[derive(Debug, Clone, PartialEq, Eq)]
pub enum ApplyError {
    /// The Change kind did not match the target Value type.
    TypeMismatch {
        /// Snapshot-relative location of the mismatch.
        path: Path,
        /// Value type required by the Change.
        expected: ValueType,
        /// Actual Snapshot Value type.
        actual: ValueType,
    },
    /// A Map operation required a key that was absent.
    MissingKey {
        /// Path to the containing Map.
        path: Path,
        /// Required key.
        key: String,
    },
    /// A Map insert targeted a key that already existed.
    ExistingKey {
        /// Path to the containing Map.
        path: Path,
        /// Existing key.
        key: String,
    },
    /// A List operation addressed an element outside the Snapshot.
    IndexOutOfBounds {
        /// Path to the containing List.
        path: Path,
        /// Requested element index.
        index: usize,
        /// Snapshot List length.
        len: usize,
    },
    /// A sequence Change consumed beyond the available base sequence.
    SequenceOutOfBounds {
        /// Path to the sequence.
        path: Path,
    },
    /// Checked Int addition overflowed `i64`.
    IntegerOverflow {
        /// Path to the Int Value.
        path: Path,
    },
    /// The resulting sequence length or capacity exceeded the platform limit.
    SequenceLengthOverflow {
        /// Path to the sequence.
        path: Path,
    },
}

/// A sequence length or capacity overflow reported at the root Path.
pub open spec fn overflow_at_root(e: ApplyError) -> bool {
    e matches ApplyError::SequenceLengthOverflow { path } && path@.len() == 0
}

/// A sequence out-of-bounds failure reported at the root Path.
pub open spec fn out_of_bounds_at_root(e: ApplyError) -> bool {
    e matches ApplyError::SequenceOutOfBounds { path } && path@.len() == 0
}

pub open spec fn apply_error_code(e: ApplyError) -> ErrorCode {
    match e {
        ApplyError::TypeMismatch { .. } => ErrorCode::TypeMismatch,
        ApplyError::MissingKey { .. } => ErrorCode::MissingKey,
        ApplyError::ExistingKey { .. } => ErrorCode::KeyAlreadyExists,
        ApplyError::IndexOutOfBounds { .. } => ErrorCode::OutOfBounds,
        ApplyError::SequenceOutOfBounds { .. } => ErrorCode::OutOfBounds,
        ApplyError::IntegerOverflow { .. } => ErrorCode::IntegerOverflow,
        ApplyError::SequenceLengthOverflow { .. } => ErrorCode::LimitExceeded,
    }
}

impl ApplyError {
    /// The stable classification of this error.
    pub fn code(&self) -> (code: ErrorCode)
        ensures
            code == apply_error_code(*self),
    {
        match self {
            ApplyError::TypeMismatch { .. } => ErrorCode::TypeMismatch,
            ApplyError::MissingKey { .. } => ErrorCode::MissingKey,
            ApplyError::ExistingKey { .. } => ErrorCode::KeyAlreadyExists,
            ApplyError::IndexOutOfBounds { .. } => ErrorCode::OutOfBounds,
            ApplyError::SequenceOutOfBounds { .. } => ErrorCode::OutOfBounds,
            ApplyError::IntegerOverflow { .. } => ErrorCode::IntegerOverflow,
            ApplyError::SequenceLengthOverflow { .. } => ErrorCode::LimitExceeded,
        }
    }
}

/// Errors composing sequential Changes.
#[derive(Debug, Clone, PartialEq, Eq)]
pub enum ComposeError {
    /// The root Change kinds cannot be composed sequentially.
    IncompatibleKinds {
        /// First Change kind.
        left: &'static str,
        /// Second Change kind.
        right: &'static str,
    },
    /// Two operations on one Map key cannot be composed.
    IncompatibleMapEntry(String),
    /// Applying a Change to an intermediate replacement failed.
    Apply(ApplyError),
    /// The canonical composed Change exceeded a platform length limit.
    LengthOverflow,
}

pub open spec fn compose_error_code(e: ComposeError) -> ErrorCode {
    match e {
        ComposeError::IncompatibleKinds { .. } => ErrorCode::IncompatibleChange,
        ComposeError::IncompatibleMapEntry(_) => ErrorCode::IncompatibleChange,
        ComposeError::Apply(inner) => apply_error_code(inner),
        ComposeError::LengthOverflow => ErrorCode::LimitExceeded,
    }
}

impl ComposeError {
    /// The stable classification of this error.
    pub fn code(&self) -> (code: ErrorCode)
        ensures
            code == compose_error_code(*self),
    {
        match self {
            ComposeError::IncompatibleKinds { .. } => ErrorCode::IncompatibleChange,
            ComposeError::IncompatibleMapEntry(_) => ErrorCode::IncompatibleChange,
            ComposeError::Apply(inner) => inner.code(),
            ComposeError::LengthOverflow => ErrorCode::LimitExceeded,
        }
    }
}

/// Errors transforming two concurrent Changes.
#[derive(Debug, Clone, PartialEq, Eq)]
pub enum TransformError {
    /// The Changes cannot describe concurrent operations on one Value type.
    IncompatibleKinds {
        /// Left Change kind.
        left: &'static str,
        /// Right Change kind.
        right: &'static str,
    },
    /// Map entry operations cannot share one valid base-key state.
    IncompatibleMapEntry(String),
    /// A transformed Change exceeded a platform length limit.
    LengthOverflow,
}

pub open spec fn transform_error_code(e: TransformError) -> ErrorCode {
    match e {
        TransformError::LengthOverflow => ErrorCode::LimitExceeded,
        _ => ErrorCode::IncompatibleChange,
    }
}

impl TransformError {
    /// The stable classification of this error.
    pub fn code(&self) -> (code: ErrorCode)
        ensures
            code == transform_error_code(*self),
    {
        match self {
            TransformError::LengthOverflow => ErrorCode::LimitExceeded,
            _ => ErrorCode::IncompatibleChange,
        }
    }
}

/// Errors constructing an inverse Change.
#[derive(Debug, Clone, PartialEq, Eq)]
pub enum InvertError {
    /// The Change was not applicable to the Snapshot it was meant for.
    Apply(ApplyError),
    /// The inverse Change exceeded a platform length limit.
    LengthOverflow,
}

pub open spec fn invert_error_code(e: InvertError) -> ErrorCode {
    match e {
        InvertError::Apply(inner) => apply_error_code(inner),
        InvertError::LengthOverflow => ErrorCode::LimitExceeded,
    }
}

impl InvertError {
    /// The stable classification of this error.
    pub fn code(&self) -> (code: ErrorCode)
        ensures
            code == invert_error_code(*self),
    {
        match self {
            InvertError::Apply(inner) => inner.code(),
            InvertError::LengthOverflow => ErrorCode::LimitExceeded,
        }
    }
}

/// Errors decoding binary bodies.
#[derive(Debug, Clone, PartialEq, Eq)]
pub enum CodecError {
    /// Input ended before the current value was complete.
    UnexpectedEof {
        /// Byte offset where more input was required.
        offset: usize,
    },
    /// A tag was not defined for the current codec context.
    UnknownTag {
        /// Byte offset of the tag.
        offset: usize,
        /// Unknown tag byte.
        tag: u8,
        /// Value, Change, operation, or attribute context.
        context: &'static str,
    },
    /// A varint used more bytes than its canonical shortest encoding.
    NonMinimalVarint {
        /// Byte offset of the varint.
        offset: usize,
    },
    /// A decoded integer could not fit the required target type.
    IntegerOutOfRange {
        /// Byte offset of the integer.
        offset: usize,
    },
    /// String bytes were not valid UTF-8.
    InvalidUtf8 {
        /// Byte offset of the invalid string.
        offset: usize,
    },
    /// The input represented a structurally valid but non-canonical form.
    NonCanonical {
        /// Byte offset where non-canonical input was detected.
        offset: usize,
        /// Value, Change, operation, or attribute context.
        context: &'static str,
        /// Stable diagnostic reason.
        reason: &'static str,
    },
    /// Bytes remained after one complete Value or Change.
    TrailingBytes {
        /// Byte offset of the first trailing byte.
        offset: usize,
    },
    /// Untrusted input exceeded one receiver-defined resource limit.
    LimitExceeded {
        /// Resource category.
        name: &'static str,
        /// Observed resource usage.
        actual: usize,
        /// Configured maximum.
        limit: usize,
    },
    /// Decoded content violated a canonical Value construction rule.
    Value(ValueError),
}

pub open spec fn codec_error_code(e: CodecError) -> ErrorCode {
    match e {
        CodecError::LimitExceeded { .. } => ErrorCode::LimitExceeded,
        CodecError::Value(inner) => value_error_code(inner),
        _ => ErrorCode::InvalidEncoding,
    }
}

impl CodecError {
    /// The stable classification of this error.
    pub fn code(&self) -> (code: ErrorCode)
        ensures
            code == codec_error_code(*self),
    {
        match self {
            CodecError::LimitExceeded { .. } => ErrorCode::LimitExceeded,
            CodecError::Value(inner) => inner.code(),
            _ => ErrorCode::InvalidEncoding,
        }
    }
}

} // verus!

verus! {

/// The text of a diagnostic entry.
pub open spec fn entry_text(e: (String, String)) -> (Seq<char>, Seq<char>) {
    (e.0@, e.1@)
}

/// Diagnostic entries in strictly increasing key order (so each key once).
pub open spec fn sorted_entries(s: Seq<(Seq<char>, Seq<char>)>) -> bool {
    forall|i: int, j: int| 0 <= i < j < s.len() ==> key_lt(#[trigger] s[i].0, #[trigger] s[j].0)
}

/// `s` maps `key` to `value`.
pub open spec fn has_entry(s: Seq<(Seq<char>, Seq<char>)>, key: Seq<char>, value: Seq<char>) -> bool {
    exists|i: int| 0 <= i < s.len() && #[trigger] s[i] == (key, value)
}

/// Diagnostic fields of an error: text keys in strictly increasing order,
/// each key once, with text values.
#[derive(Debug, PartialEq, Eq)]
pub struct Details {
    entries: Vec<(String, String)>,
}

impl View for Details {
    type V = Seq<(Seq<char>, Seq<char>)>;

    closed spec fn view(&self) -> Seq<(Seq<char>, Seq<char>)> {
        self.entries@.map_values(|e: (String, String)| entry_text(e))
    }
}

impl Details {
    #[verifier::type_invariant]
    closed spec fn in_key_order(self) -> bool {
        sorted_entries(self.entries@.map_values(|e: (String, String)| entry_text(e)))
    }

    /// No diagnostic fields.
    pub fn new() -> (d: Details)
        ensures
            d@ == Seq::<(Seq<char>, Seq<char>)>::empty(),
    {
        let d = Details { entries: Vec::new() };
        proof {
            assert(d@ =~= Seq::<(Seq<char>, Seq<char>)>::empty());
        }
        d
    }

    /// The fields in key order.
    pub fn entries(&self) -> (e: &[(String, String)])
        ensures
            e@.map_values(|x: (String, String)| entry_text(x)) == self@,
            sorted_entries(self@),
    {
        proof {
            use_type_invariant(self);
        }
        self.entries.as_slice()
    }

    /// The number of fields.
    pub fn len(&self) -> (n: usize)
        ensures
            n == self@.len(),
    {
        self.entries.len()
    }

    /// Whether there are no fields.
    pub fn is_empty(&self) -> (b: bool)
        ensures
            b == (self@.len() == 0),
    {
        self.entries.len() == 0
    }

    /// Removes every field.
    pub fn clear(&mut self)
        ensures
            final(self)@ == Seq::<(Seq<char>, Seq<char>)>::empty(),
    {
        self.entries = Vec::new();
        proof {
            assert(self@ =~= Seq::<(Seq<char>, Seq<char>)>::empty());
        }
    }

    /// Sets the field `key` to `value`, replacing an earlier value of it.
    pub fn insert(&mut self, key: &str, value: &str)
        ensures
            sorted_entries(final(self)@),
            has_entry(final(self)@, key@, value@),
            forall|k: Seq<char>, v: Seq<char>|
                k != key@ ==> (has_entry(final(self)@, k, v) <==> has_entry(old(self)@, k, v)),
            forall|v: Seq<char>| has_entry(final(self)@, key@, v) ==> v == value@,
    {
        proof {
            use_type_invariant(&*self);
        }
        let ghost old_view = self@;
        let mut details: Vec<(String, String)> = Vec::new();
        std::mem::swap(&mut details, &mut self.entries);
        let mut i: usize = 0;
        let mut found = false;
        while i < details.len()
            invariant_except_break
                !found,
            invariant
                details@.map_values(|e: (String, String)| entry_text(e)) == old_view,
                i <= details.len(),
                forall|j: int| 0 <= j < i ==> key_lt(#[trigger] old_view[j].0, key@),
            ensures
                details@.map_values(|e: (String, String)| entry_text(e)) == old_view,
                i <= details.len(),
                forall|j: int| 0 <= j < i ==> key_lt(#[trigger] old_view[j].0, key@),
                found ==> i < details.len() && old_view[i as int].0 == key@,
                !found ==> (i < details.len() ==> key_lt(key@, old_view[i as int].0)),
            decreases details.len() - i,
        {
            let order = compare_keys(details[i].0.as_str(), key);
            match order {
                KeyOrder::Less => {
                    i = i + 1;
                },
                KeyOrder::Equal => {
                    found = true;
                    break ;
                },
                KeyOrder::Greater => {
                    break ;
                },
            }
        }
        let entry = (key.to_owned(), value.to_owned());
        if found {
            let _ = details.remove(i);
        }
        details.insert(i, entry);
        let ghost nv = details@.map_values(|e: (String, String)| entry_text(e));
        proof {
            let ghost entry_v = (key@, value@);
            if found {
                assert(nv =~= old_view.update(i as int, entry_v));
            } else {
                assert(nv =~= old_view.insert(i as int, entry_v));
            }
            assert(nv[i as int] == entry_v);
            lemma_detail_sorted(old_view, nv, i as int, key@, value@, found);
        }
        self.entries = details;
    }
}

impl Clone for Details {
    fn clone(&self) -> (c: Self)
        ensures
            c@ == self@,
    {
        proof {
            use_type_invariant(self);
        }
        let mut entries: Vec<(String, String)> = Vec::new();
        let mut i: usize = 0;
        while i < self.entries.len()
            invariant
                i <= self.entries@.len(),
                entries@.len() == i,
                sorted_entries(self@),
                forall|j: int| 0 <= j < i ==> #[trigger] entry_text(entries@[j]) == entry_text(self.entries@[j]),
            decreases self.entries@.len() - i,
        {
            let ghost before = entries@;
            entries.push((self.entries[i].0.clone(), self.entries[i].1.clone()));
            proof {
                assert forall|j: int| 0 <= j < i + 1 implies #[trigger] entry_text(entries@[j])
                    == entry_text(self.entries@[j]) by {
                    if j < i {
                        assert(entries@[j] == before[j]);
                    }
                }
            }
            i = i + 1;
        }
        proof {
            assert(entries@.map_values(|e: (String, String)| entry_text(e)) =~= self@);
        }
        Details { entries }
    }
}

/// Structured public failure with stable classification and diagnostic context.
#[derive(Debug, Clone, PartialEq, Eq)]
pub struct CollaError {
    /// Stable machine-readable error classification.
    pub code: ErrorCode,
    /// Public operation associated with the failure.
    pub operation: String,
    /// Diagnostic fields in key order, each key once, including a
    /// human-readable reason.
    pub details: Details,
}

impl CollaError {
    /// The text of the diagnostic fields.
    pub open spec fn details_spec(&self) -> Seq<(Seq<char>, Seq<char>)> {
        self.details@
    }

    /// Constructs a structured error with a code and human-readable reason.
    pub fn new(code: ErrorCode, reason: &str) -> (e: CollaError)
        ensures
            e.code == code,
            e.operation@ == "core"@,
            e.details_spec() == seq![("reason"@, reason@)],
            sorted_entries(e.details_spec()),
    {
        let mut details = Details::new();
        details.insert("reason", reason);
        proof {
            reveal_strlit("reason");
            let d = details@;
            assert(has_entry(d, "reason"@, reason@));
            assert forall|i: int| 0 <= i < d.len() implies d[i] == ("reason"@, reason@) by {
                assert(has_entry(d, d[i].0, d[i].1));
                if d[i].0 != "reason"@ {
                    assert(!has_entry(Seq::<(Seq<char>, Seq<char>)>::empty(), d[i].0, d[i].1));
                }
            }
            if d.len() > 1 {
                assert(key_lt(d[0].0, d[1].0));
                crate::keys::lemma_key_lt_asymmetric(d[0].0, d[0].0);
            }
            assert(d =~= seq![("reason"@, reason@)]);
        }
        CollaError { code, operation: "core".to_owned(), details }
    }

    /// Adds the public operation name to an error.
    pub fn at(self, operation: &str) -> (e: CollaError)
        ensures
            e.code == self.code,
            e.operation@ == operation@,
            e.details_spec() == self.details_spec(),
    {
        CollaError { code: self.code, operation: operation.to_owned(), details: self.details }
    }

    /// Adds one diagnostic field, replacing an earlier value of the same key.
    pub fn detail(self, key: &str, value: &str) -> (e: CollaError)
        ensures
            e.code == self.code,
            e.operation@ == self.operation@,
            has_entry(e.details_spec(), key@, value@),
            sorted_entries(e.details_spec()),
            forall|k: Seq<char>, v: Seq<char>|
                k != key@ ==> (has_entry(e.details_spec(), k, v) <==> has_entry(
                    self.details_spec(),
                    k,
                    v,
                )),
            forall|v: Seq<char>| has_entry(e.details_spec(), key@, v) ==> v == value@,
    {
        let CollaError { code, operation, details } = self;
        let mut details = details;
        details.insert(key, value);
        CollaError { code, operation, details }
    }
}

/// Inserting or replacing at the position found by a sorted scan keeps the
/// entries sorted and changes only `key`.
proof fn lemma_detail_sorted(
    old_view: Seq<(Seq<char>, Seq<char>)>,
    nv: Seq<(Seq<char>, Seq<char>)>,
    i: int,
    key: Seq<char>,
    value: Seq<char>,
    found: bool,
)
    requires
        sorted_entries(old_view),
        0 <= i <= old_view.len(),
        forall|j: int| 0 <= j < i ==> key_lt(#[trigger] old_view[j].0, key),
        found ==> i < old_view.len() && old_view[i].0 == key && nv == old_view.update(i, (key, value)),
        !found ==> (i < old_view.len() ==> key_lt(key, old_view[i].0)) && nv == old_view.insert(
            i,
            (key, value),
        ),
    ensures
        sorted_entries(nv),
        forall|k: Seq<char>, v: Seq<char>|
            k != key ==> (has_entry(nv, k, v) <==> has_entry(old_view, k, v)),
        forall|v: Seq<char>| has_entry(nv, key, v) ==> v == value,
{
    // Every old entry before `i` sorts before `key`, every one after sorts after it.
    assert forall|j: int| 0 <= j < old_view.len() implies (j < i ==> key_lt(
        old_view[j].0,
        key,
    )) && (j > i || (j == i && !found) ==> key_lt(key, #[trigger] old_view[j].0)) by {
        if j > i {
            if found {
                assert(key_lt(old_view[i].0, old_view[j].0));
            } else {
                assert(key_lt(old_view[i].0, old_view[j].0));
                lemma_key_lt_transitive(key, old_view[i].0, old_view[j].0);
            }
        }
    }
    assert forall|a: int, b: int| 0 <= a < b < nv.len() implies key_lt(
        #[trigger] nv[a].0,
        #[trigger] nv[b].0,
    ) by {
        if found {
            if a == i {
                assert(key_lt(key, old_view[b].0));
            } else if b == i {
                assert(key_lt(old_view[a].0, key));
            } else {
                assert(key_lt(old_view[a].0, old_view[b].0));
            }
        } else {
            if a == i {
                assert(nv[b] == old_view[b - 1]);
                assert(key_lt(key, old_view[b - 1].0));
            } else if b == i {
                assert(key_lt(old_view[a].0, key));
            } else if a < i && b > i {
                assert(nv[b] == old_view[b - 1]);
                assert(key_lt(old_view[a].0, key));
                assert(key_lt(key, old_view[b - 1].0));
                lemma_key_lt_transitive(old_view[a].0, key, old_view[b - 1].0);
            } else if b < i {
                assert(key_lt(old_view[a].0, old_view[b].0));
            } else {
                assert(nv[a] == old_view[a - 1]);
                assert(nv[b] == old_view[b - 1]);
                assert(key_lt(old_view[a - 1].0, old_view[b - 1].0));
            }
        }
    }
    assert forall|k: Seq<char>, v: Seq<char>| k != key implies (has_entry(nv, k, v) <==> has_entry(
        old_view,
        k,
        v,
    )) by {
        if has_entry(nv, k, v) {
            let w = choose|w: int| 0 <= w < nv.len() && #[trigger] nv[w] == (k, v);
            if found {
                assert(old_view[w] == (k, v));
            } else if w < i {
                assert(old_view[w] == (k, v));
            } else {
                assert(old_view[w - 1] == (k, v));
            }
        }
        if has_entry(old_view, k, v) {
            let w = choose|w: int| 0 <= w < old_view.len() && #[trigger] old_view[w] == (k, v);
            if found {
                assert(w != i);
                assert(nv[w] == (k, v));
            } else if w < i {
                assert(nv[w] == (k, v));
            } else {
                assert(nv[w + 1] == (k, v));
            }
        }
    }
    assert forall|v: Seq<char>| has_entry(nv, key, v) implies v == value by {
        let w = choose|w: int| 0 <= w < nv.len() && #[trigger] nv[w] == (key, v);
        if w != i {
            let o = if !found && w > i {
                w - 1
            } else {
                w
            };
            assert(old_view[o].0 == key);
            lemma_key_lt_asymmetric(key, key);
        }
    }
}

} // verus!

verus! {

/// The name a Value type is reported by in diagnostics.
pub open spec fn value_type_label(t: ValueType) -> Seq<char> {
    match t {
        ValueType::Null => "Null"@,
        ValueType::Bool => "Bool"@,
        ValueType::Int => "Int"@,
        ValueType::Float => "Float"@,
        ValueType::String => "String"@,
        ValueType::Text => "Text"@,
        ValueType::RichText => "RichText"@,
        ValueType::List => "List"@,
        ValueType::KeyMap => "Map"@,
    }
}

/// Returns the name a Value type is reported by in diagnostics.
pub fn value_type_text(t: ValueType) -> (s: &'static str)
    ensures
        s@ == value_type_label(t),
{
    match t {
        ValueType::Null => "Null",
        ValueType::Bool => "Bool",
        ValueType::Int => "Int",
        ValueType::Float => "Float",
        ValueType::String => "String",
        ValueType::Text => "Text",
        ValueType::RichText => "RichText",
        ValueType::List => "List",
        ValueType::KeyMap => "Map",
    }
}

/// The human-readable description of an apply failure.
pub open spec fn apply_error_message(e: ApplyError) -> Seq<char> {
    match e {
        ApplyError::TypeMismatch { path, expected, actual } => "type mismatch at "@ + display_path(
            path@,
        ) + ": expected "@ + value_type_label(expected) + ", got "@ + value_type_label(actual),
        ApplyError::MissingKey { path, key } => "missing map key at "@ + display_path(path@)
            + ": "@ + key@,
        ApplyError::ExistingKey { path, key } => "map key already exists at "@ + display_path(
            path@,
        ) + ": "@ + key@,
        ApplyError::IndexOutOfBounds { path, index, len } => "list index "@ + decimal(
            index as nat,
        ) + " out of bounds at "@ + display_path(path@) + " (len "@ + decimal(len as nat) + ")"@,
        ApplyError::SequenceOutOfBounds { path } => "sequence operation consumes beyond the input at "@
            + display_path(path@),
        ApplyError::IntegerOverflow { path } => "integer addition overflow at "@ + display_path(
            path@,
        ),
        ApplyError::SequenceLengthOverflow { path } => "sequence logical length overflow at "@
            + display_path(path@),
    }
}

impl ApplyError {
    /// Describes the failure for people.
    pub fn message(&self) -> (s: String)
        ensures
            s@ == apply_error_message(*self),
    {
        match self {
            ApplyError::TypeMismatch { path, expected, actual } => {
                let mut s = "type mismatch at ".to_owned();
                s.append(path.to_display_string().as_str());
                s.append(": expected ");
                s.append(value_type_text(*expected));
                s.append(", got ");
                s.append(value_type_text(*actual));
                s
            },
            ApplyError::MissingKey { path, key } => {
                let mut s = "missing map key at ".to_owned();
                s.append(path.to_display_string().as_str());
                s.append(": ");
                s.append(key.as_str());
                s
            },
            ApplyError::ExistingKey { path, key } => {
                let mut s = "map key already exists at ".to_owned();
                s.append(path.to_display_string().as_str());
                s.append(": ");
                s.append(key.as_str());
                s
            },
            ApplyError::IndexOutOfBounds { path, index, len } => {
                let mut s = "list index ".to_owned();
                s.append(decimal_string(*index).as_str());
                s.append(" out of bounds at ");
                s.append(path.to_display_string().as_str());
                s.append(" (len ");
                s.append(decimal_string(*len).as_str());
                s.append(")");
                s
            },
            ApplyError::SequenceOutOfBounds { path } => {
                let mut s = "sequence operation consumes beyond the input at ".to_owned();
                s.append(path.to_display_string().as_str());
                s
            },
            ApplyError::IntegerOverflow { path } => {
                let mut s = "integer addition overflow at ".to_owned();
                s.append(path.to_display_string().as_str());
                s
            },
            ApplyError::SequenceLengthOverflow { path } => {
                let mut s = "sequence logical length overflow at ".to_owned();
                s.append(path.to_display_string().as_str());
                s
            },
        }
    }
}

impl From<ApplyError> for CollaError {
    /// Classifies an apply failure and keeps its description as the reason.
    fn from(e: ApplyError) -> (r: CollaError)
        ensures
            r.code == apply_error_code(e),
            r.operation@ == "core"@,
            r.details_spec() == seq![("reason"@, apply_error_message(e))],
    {
        let reason = e.message();
        CollaError::new(e.code(), reason.as_str())
    }
}

impl vstd::std_specs::convert::FromSpecImpl<ApplyError> for CollaError {
    /// The converted error is stated field by field in the ensures of `from`,
    /// since its text fields have no spec-level constructor.
    open spec fn obeys_from_spec() -> bool {
        false
    }

    open spec fn from_spec(v: ApplyError) -> CollaError {
        choose|c: CollaError| c.code == apply_error_code(v)
    }
}

/// The human-readable description of a value construction failure.
pub open spec fn value_error_message(e: ValueError) -> Seq<char> {
    match e {
        ValueError::NonFiniteFloat => "float must be finite"@,
        ValueError::DuplicateKey(k) => "duplicate key: "@ + k@,
        ValueError::LengthOverflow => "length exceeds the platform limit"@,
    }
}

impl ValueError {
    /// Describes the failure for people.
    pub fn message(&self) -> (s: String)
        ensures
            s@ == value_error_message(*self),
    {
        match self {
            ValueError::NonFiniteFloat => "float must be finite".to_owned(),
            ValueError::DuplicateKey(k) => {
                let mut s = "duplicate key: ".to_owned();
                s.append(k.as_str());
                s
            },
            ValueError::LengthOverflow => "length exceeds the platform limit".to_owned(),
        }
    }
}

impl From<ValueError> for CollaError {
    /// Classifies a value construction failure and keeps its description as the reason.
    fn from(e: ValueError) -> (r: CollaError)
        ensures
            r.code == value_error_code(e),
            r.operation@ == "core"@,
            r.details_spec() == seq![("reason"@, value_error_message(e))],
    {
        let reason = e.message();
        CollaError::new(e.code(), reason.as_str())
    }
}

impl vstd::std_specs::convert::FromSpecImpl<ValueError> for CollaError {
    /// The converted error is stated field by field in the ensures of `from`,
    /// since its text fields have no spec-level constructor.
    open spec fn obeys_from_spec() -> bool {
        false
    }

    open spec fn from_spec(v: ValueError) -> CollaError {
        choose|c: CollaError| c.code == value_error_code(v)
    }
}

/// The reason text among `details`: the value of the first `reason` entry,
/// or nothing.
pub open spec fn reason_of(details: Seq<(Seq<char>, Seq<char>)>) -> Seq<char>
    decreases details.len(),
{
    if details.len() == 0 {
        seq![]
    } else if details[0].0 == "reason"@ {
        details[0].1
    } else {
        reason_of(details.drop_first())
    }
}

/// How an error reads: its code, the operation in parentheses, and the reason.
pub open spec fn error_text(e: CollaError) -> Seq<char> {
    code_name(e.code) + " ("@ + e.operation@ + "): "@ + reason_of(e.details_spec())
}

impl CollaError {
    /// Returns the human-readable reason, or an empty text when there is none.
    pub fn reason(&self) -> (s: &str)
        ensures
            s@ == reason_of(self.details_spec()),
    {
        let mut i: usize = 0;
        let ghost d = self.details_spec();
        let entries = self.details.entries();
        proof {
            assert(d.skip(0) =~= d);
        }
        while i < entries.len()
            invariant
                d == self.details_spec(),
                entries@.map_values(|x: (String, String)| entry_text(x)) == d,
                i <= d.len(),
                reason_of(d) == reason_of(d.skip(i as int)),
            decreases d.len() - i,
        {
            proof {
                assert(d.skip(i as int)[0] == d[i as int]);
                assert(d.skip(i as int).drop_first() =~= d.skip(i + 1));
            }
            if compare_keys(entries[i].0.as_str(), "reason") == KeyOrder::Equal {
                return entries[i].1.as_str();
            }
            i = i + 1;
        }
        proof {
            assert(d.skip(i as int) =~= Seq::<(Seq<char>, Seq<char>)>::empty());
            reveal_strlit("");
        }
        ""
    }

    /// Renders the error as `code (operation): reason`.
    pub fn to_display_string(&self) -> (s: String)
        ensures
            s@ == error_text(*self),
    {
        let mut s = self.code.as_str().to_owned();
        s.append(" (");
        s.append(self.operation.as_str());
        s.append("): ");
        s.append(self.reason());
        s
    }
}

} // verus!
