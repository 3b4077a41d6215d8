//! Identity-addressed locations, precedence and synchronization records.
use crate::change::byte_len;
use crate::error::{has_entry, sorted_entries, CollaError, ErrorCode};
use crate::identity::{id_text, ElementId};
use crate::keys::key_lt;
use crate::text_buf::str_byte_len;
use vstd::prelude::*;

pub use crate::operation::{apply, apply_operation, Change, Operation};
pub use crate::operation_compose::compose;
pub use crate::operation_invert::invert;
pub use crate::engine_transform::transform;
pub use crate::history::Editor;
pub use crate::sync::{edit, receive, Authority, Commit, EditResult, ServerMessage, SessionState, Submission, SyncSnapshot};
pub use crate::tree::{Body, Value};

verus! {

/// The source of a committed visible edit.
#[derive(Debug, Clone, Copy, PartialEq, Eq, Structural)]
pub enum Origin {
    /// An ordinary local transaction.
    Local,
    /// A remotely committed content change.
    Remote,
    /// An inverse submitted as a new local edit.
    Undo,
    /// A redo submitted as a new local edit.
    Redo,
}

/// Deterministic precedence for otherwise competing concurrent intents.
#[derive(Debug, Clone, Copy, PartialEq, Eq, Structural)]
pub enum Priority {
    /// Give the left concurrent input precedence.
    Left,
    /// Give the right concurrent input precedence.
    Right,
}

/// Atomic same-document weak reference; ownership and encoding never follow its target.
#[derive(Debug, Clone, Copy, PartialEq, Eq)]
pub struct Ref {
    /// Stable target identity; Ref targets may be absent.
    pub target: ElementId,
}

/// One Map-key or List-index step in a snapshot-relative path.
#[derive(Debug, Clone, PartialEq, Eq, PartialOrd, Ord)]
pub enum Segment {
    /// A Map key.
    Key(String),
    /// A List index.
    Index(usize),
}

/// An explicit stable identity or snapshot-relative path.
#[derive(Debug, Clone, PartialEq, Eq)]
pub enum Location {
    /// A stable element identity.
    Id(ElementId),
    /// A snapshot-relative navigation path.
    Path(Vec<Segment>),
}

/// The destination index is interpreted after detaching a moved source.
#[derive(Debug, Clone, PartialEq, Eq)]
pub struct Destination {
    /// Stable ID of the destination owning container.
    pub parent: ElementId,
    /// Vacant Map key or post-removal List position.
    pub slot: Segment,
}

/// A controlled rejection of one submitted edit.
#[derive(Debug, Clone, PartialEq, Eq)]
pub struct Rejection {
    document_id: String,
    client_id: String,
    sequence: u64,
    reason: CollaError,
}

impl Rejection {
    /// The application document identity.
    pub closed spec fn document_id_spec(&self) -> Seq<char> {
        self.document_id@
    }

    /// The application-provided writer identity.
    pub closed spec fn client_id_spec(&self) -> Seq<char> {
        self.client_id@
    }

    /// The sequence number of the rejected submission.
    pub closed spec fn sequence_spec(&self) -> u64 {
        self.sequence
    }

    /// The structured rejection reason.
    pub closed spec fn reason_spec(&self) -> CollaError {
        self.reason
    }

    /// Records the rejection of submission `sequence` by `client_id` on `document_id`.
    pub fn new(document_id: &str, client_id: &str, sequence: u64, reason: CollaError) -> (r:
        Rejection)
        ensures
            r.document_id_spec() == document_id@,
            r.client_id_spec() == client_id@,
            r.sequence_spec() == sequence,
            r.reason_spec() == reason,
    {
        Rejection {
            document_id: document_id.to_owned(),
            client_id: client_id.to_owned(),
            sequence,
            reason,
        }
    }

    /// Borrows the application document identity.
    pub fn document_id(&self) -> (s: &str)
        ensures
            s@ == self.document_id_spec(),
    {
        self.document_id.as_str()
    }

    /// Borrows the application-provided writer identity.
    pub fn client_id(&self) -> (s: &str)
        ensures
            s@ == self.client_id_spec(),
    {
        self.client_id.as_str()
    }

    /// Returns the positive monotonic sequence number.
    pub fn sequence(&self) -> (n: u64)
        ensures
            n == self.sequence_spec(),
    {
        self.sequence
    }

    /// Borrows the structured rejection reason.
    pub fn reason(&self) -> (e: &CollaError)
        ensures
            *e == self.reason_spec(),
    {
        &self.reason
    }
}

} // verus!

verus! {

/// A structural conflict with a human-readable reason.
pub fn structural(reason: &str) -> (e: CollaError)
    ensures
        e.code == ErrorCode::StructuralConflict,
        e.details_spec() == seq![("reason"@, reason@)],
{
    CollaError::new(ErrorCode::StructuralConflict, reason)
}

/// A type mismatch with a human-readable reason.
pub fn type_error(reason: &str) -> (e: CollaError)
    ensures
        e.code == ErrorCode::TypeMismatch,
        e.details_spec() == seq![("reason"@, reason@)],
{
    CollaError::new(ErrorCode::TypeMismatch, reason)
}

/// An action the runtime or editing scope cannot perform now.
pub fn invalid_state(reason: &str) -> (e: CollaError)
    ensures
        e.code == ErrorCode::InvalidState,
        e.details_spec() == seq![("reason"@, reason@)],
{
    CollaError::new(ErrorCode::InvalidState, reason)
}

/// Changes that cannot be combined, described by `reason`.
pub fn algebra_error(reason: &str) -> (e: CollaError)
    ensures
        e.code == ErrorCode::IncompatibleChange,
        e.details_spec() == seq![("reason"@, reason@)],
{
    CollaError::new(ErrorCode::IncompatibleChange, reason)
}

/// The element `id` is absent; the error names it.
pub fn missing(id: ElementId) -> (e: CollaError)
    ensures
        e.code == ErrorCode::MissingKey,
        has_entry(e.details_spec(), "reason"@, "element not found"@),
        has_entry(e.details_spec(), "elementId"@, id_text(id@)),
        sorted_entries(e.details_spec()),
{
    let e = CollaError::new(ErrorCode::MissingKey, "element not found");
    proof {
        let first = e.details_spec();
        assert(first[0] == ("reason"@, "element not found"@));
        assert(has_entry(first, "reason"@, "element not found"@));
    }
    let text = id.to_hex_string();
    let e = e.detail("elementId", text.as_str());
    proof {
        reveal_strlit("reason");
        reveal_strlit("elementId");
        assert(key_lt("elementId"@, "reason"@));
    }
    e
}

/// Rejects a string value longer than 16 MiB of UTF-8.
pub fn check_string(value: &str) -> (r: Result<(), CollaError>)
    ensures
        r is Ok <==> byte_len(value@) <= 16_777_216,
        r matches Err(e) ==> e.code == ErrorCode::LimitExceeded,
{
    if str_byte_len(value) > 16 * 1024 * 1024 {
        return Err(CollaError::new(ErrorCode::LimitExceeded, "string exceeds input limit"));
    }
    Ok(())
}

/// Rejects a document or client identity that is empty or over 4096 bytes.
pub fn identity(value: &str) -> (r: Result<(), CollaError>)
    ensures
        r is Ok <==> 1 <= byte_len(value@) <= 4096,
        r matches Err(e) ==> e.code == ErrorCode::InvalidArgument,
{
    let n = str_byte_len(value);
    if n == 0 || n > 4096 {
        return Err(
            CollaError::new(
                ErrorCode::InvalidArgument,
                "document/client identity must contain 1..4096 UTF-8 bytes",
            ),
        );
    }
    Ok(())
}

/// The end of the range of `count` elements from `index` in a sequence of `len`.
pub fn checked_end(index: usize, count: usize, len: usize) -> (r: Result<usize, CollaError>)
    ensures
        index + count <= len ==> r == Ok::<usize, CollaError>((index + count) as usize),
        index + count > len ==> (r is Err && r->Err_0.code == ErrorCode::OutOfBounds),
{
    match index.checked_add(count) {
        Some(end) => if end <= len {
            Ok(end)
        } else {
            Err(CollaError::new(ErrorCode::OutOfBounds, "sequence range is out of bounds"))
        },
        None => Err(CollaError::new(ErrorCode::OutOfBounds, "sequence range is out of bounds")),
    }
}

} // verus!
