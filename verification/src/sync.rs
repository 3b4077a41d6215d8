//! Client synchronization: one in-flight request, one composed buffer, and
//! the ordered server Commits that confirm it or rebase it.
use crate::change::byte_len;
use crate::engine::{identity, invalid_state, Origin, Priority, Rejection};
use crate::engine_transform::transform;
use crate::error::{has_entry, CollaError, ErrorCode};
use crate::keys::{compare_keys, KeyOrder};
use crate::operation::{apply, apply_steps, canonical_steps, Change, Operation, Step};
use crate::operation_compose::{compose, normalize};
use crate::operation_invert::invert;
use crate::path::{decimal, digit};
use crate::tree::{Tree, Value};
use vstd::prelude::*;

verus! {

/// The decimal text of `n`.
fn u64_text(n: u64) -> (s: String)
    ensures
        s@ == decimal(n as nat),
    decreases n,
{
    if n < 10 {
        let mut s = String::new();
        crate::text_buf::push_char(&mut s, digit(n as usize));
        s
    } else {
        let mut s = u64_text(n / 10);
        crate::text_buf::push_char(&mut s, digit((n % 10) as usize));
        s
    }
}

/// Whether two strings are equal.
fn same_str(a: &str, b: &str) -> (r: bool)
    ensures
        r == (a@ == b@),
{
    compare_keys(a, b) == KeyOrder::Equal
}

/// A copy of an error with its code and diagnostic fields.
fn copy_error(e: &CollaError) -> (c: CollaError)
    ensures
        c.code == e.code,
        c.operation@ == e.operation@,
        c.details_spec() == e.details_spec(),
{
    CollaError { code: e.code, operation: e.operation.clone(), details: e.details.clone() }
}

/// The model of an error: its code and diagnostic fields.
pub open spec fn error_view(e: CollaError) -> (ErrorCode, Seq<(Seq<char>, Seq<char>)>) {
    (e.code, e.details_spec())
}

/// Document identity, server revision and confirmed content.
#[derive(Debug)]
pub struct SyncSnapshot {
    document_id: String,
    revision: u64,
    value: Value,
}

impl View for SyncSnapshot {
    type V = (Seq<char>, u64, Tree);

    closed spec fn view(&self) -> (Seq<char>, u64, Tree) {
        (self.document_id@, self.revision, self.value@)
    }
}

impl SyncSnapshot {
    /// A confirmed snapshot of `value` at `revision` of the document
    /// `document_id`; the identity must hold 1 to 4096 bytes and the content
    /// must be valid.
    pub fn new(document_id: &str, revision: u64, value: Value) -> (r: Result<SyncSnapshot, CollaError>)
        ensures
            r is Ok <==> 1 <= byte_len(document_id@) <= 4096 && crate::tree::valid(value@),
            r matches Ok(s) ==> s@ == (document_id@, revision, value@),
    {
        identity(document_id)?;
        value.validate()?;
        Ok(SyncSnapshot { document_id: document_id.to_owned(), revision, value })
    }

    /// Borrows the application document identity.
    pub fn document_id(&self) -> (s: &str)
        ensures
            s@ == self@.0,
    {
        self.document_id.as_str()
    }

    /// Returns the confirmed server revision.
    pub fn revision(&self) -> (n: u64)
        ensures
            n == self@.1,
    {
        self.revision
    }

    /// Borrows the confirmed content.
    pub fn value(&self) -> (v: &Value)
        ensures
            v@ == self@.2,
    {
        &self.value
    }

    /// An independent copy.
    pub fn copy(&self) -> (c: SyncSnapshot)
        ensures
            c@ == self@,
    {
        SyncSnapshot { document_id: self.document_id.clone(), revision: self.revision, value: self.value.copy() }
    }
}

/// A request: the writer, its sequence number, the revision it was made on,
/// and its Change.
#[derive(Debug)]
pub struct Submission {
    document_id: String,
    client_id: String,
    sequence: u64,
    base_revision: u64,
    change: Change,
}

impl View for Submission {
    type V = (Seq<char>, Seq<char>, u64, u64, Seq<Step>);

    closed spec fn view(&self) -> (Seq<char>, Seq<char>, u64, u64, Seq<Step>) {
        (self.document_id@, self.client_id@, self.sequence, self.base_revision, self.change@)
    }
}

impl Submission {
    /// Borrows the application document identity.
    pub fn document_id(&self) -> (s: &str)
        ensures
            s@ == self@.0,
    {
        self.document_id.as_str()
    }

    /// Borrows the application-provided writer identity.
    pub fn client_id(&self) -> (s: &str)
        ensures
            s@ == self@.1,
    {
        self.client_id.as_str()
    }

    /// Returns the positive sequence number.
    pub fn sequence(&self) -> (n: u64)
        ensures
            n == self@.2,
    {
        self.sequence
    }

    /// Returns the server revision the request was made on.
    pub fn base_revision(&self) -> (n: u64)
        ensures
            n == self@.3,
    {
        self.base_revision
    }

    /// Borrows the Change carried by the request.
    pub fn change(&self) -> (c: &Change)
        ensures
            c@ == self@.4,
    {
        &self.change
    }

    /// Whether two requests are the same.
    fn same_submission(&self, other: &Submission) -> (r: bool)
        ensures
            r == (self@ == other@),
    {
        same_str(self.document_id.as_str(), other.document_id.as_str()) && same_str(
            self.client_id.as_str(),
            other.client_id.as_str(),
        ) && self.sequence == other.sequence && self.base_revision == other.base_revision
            && self.change.same_change(&other.change)
    }

    /// Checks that the request is well formed.
    fn validate(&self) -> (r: Result<(), CollaError>)
        ensures
            r is Ok <==> submission_formed(self@),
    {
        identity(self.document_id.as_str())?;
        identity(self.client_id.as_str())?;
        if self.sequence == 0 {
            return Err(CollaError::new(ErrorCode::InvalidEncoding, "request sequence must be positive"));
        }
        let canonical = Change::new(self.change.to_operations())?;
        if !canonical.same_change(&self.change) {
            return Err(CollaError::new(ErrorCode::InvalidEncoding, "noncanonical change"));
        }
        Ok(())
    }

    /// An independent copy.
    pub fn copy(&self) -> (c: Submission)
        ensures
            c@ == self@,
    {
        Submission {
            document_id: self.document_id.clone(),
            client_id: self.client_id.clone(),
            sequence: self.sequence,
            base_revision: self.base_revision,
            change: self.change.copy(),
        }
    }
}

/// A well-formed request: identities of 1 to 4096 bytes, a positive
/// sequence, and a canonical Change.
pub open spec fn submission_formed(c: (Seq<char>, Seq<char>, u64, u64, Seq<Step>)) -> bool {
    &&& 1 <= byte_len(c.0) <= 4096
    &&& 1 <= byte_len(c.1) <= 4096
    &&& c.2 > 0
    &&& canonical_steps(c.4) == Ok::<Seq<Step>, ErrorCode>(c.4)
}

/// A server-ordered request result, which also confirms the submitting
/// client's request.
#[derive(Debug)]
pub struct Commit {
    document_id: String,
    client_id: String,
    sequence: u64,
    revision: u64,
    change: Change,
}

impl View for Commit {
    type V = (Seq<char>, Seq<char>, u64, u64, Seq<Step>);

    closed spec fn view(&self) -> (Seq<char>, Seq<char>, u64, u64, Seq<Step>) {
        (self.document_id@, self.client_id@, self.sequence, self.revision, self.change@)
    }
}

/// A well-formed Commit: identities of 1 to 4096 bytes, a positive sequence
/// and revision, and a canonical Change.
pub open spec fn commit_formed(c: (Seq<char>, Seq<char>, u64, u64, Seq<Step>)) -> bool {
    &&& 1 <= byte_len(c.0) <= 4096
    &&& 1 <= byte_len(c.1) <= 4096
    &&& c.2 > 0
    &&& c.3 > 0
    &&& canonical_steps(c.4) == Ok::<Seq<Step>, ErrorCode>(c.4)
}

impl Commit {
    /// The Commit of request `sequence` of `client_id` at `revision`.
    pub fn new(document_id: &str, client_id: &str, sequence: u64, revision: u64, change: Change) -> (c:
        Commit)
        ensures
            c@ == (document_id@, client_id@, sequence, revision, change@),
    {
        Commit {
            document_id: document_id.to_owned(),
            client_id: client_id.to_owned(),
            sequence,
            revision,
            change,
        }
    }

    /// Borrows the application document identity.
    pub fn document_id(&self) -> (s: &str)
        ensures
            s@ == self@.0,
    {
        self.document_id.as_str()
    }

    /// Borrows the writer identity.
    pub fn client_id(&self) -> (s: &str)
        ensures
            s@ == self@.1,
    {
        self.client_id.as_str()
    }

    /// Returns the request's sequence number.
    pub fn sequence(&self) -> (n: u64)
        ensures
            n == self@.2,
    {
        self.sequence
    }

    /// Returns the confirmed server revision.
    pub fn revision(&self) -> (n: u64)
        ensures
            n == self@.3,
    {
        self.revision
    }

    /// Borrows the committed Change.
    pub fn change(&self) -> (c: &Change)
        ensures
            c@ == self@.4,
    {
        &self.change
    }

    /// An independent copy.
    pub fn copy(&self) -> (c: Commit)
        ensures
            c@ == self@,
    {
        Commit {
            document_id: self.document_id.clone(),
            client_id: self.client_id.clone(),
            sequence: self.sequence,
            revision: self.revision,
            change: self.change.copy(),
        }
    }

    fn same_commit(&self, other: &Commit) -> (r: bool)
        ensures
            r == (self@ == other@),
    {
        same_str(self.document_id.as_str(), other.document_id.as_str()) && same_str(
            self.client_id.as_str(),
            other.client_id.as_str(),
        ) && self.sequence == other.sequence && self.revision == other.revision
            && self.change.same_change(&other.change)
    }

    /// Checks that the Commit is well formed.
    fn validate(&self) -> (r: Result<(), CollaError>)
        ensures
            r is Ok <==> commit_formed(self@),
    {
        identity(self.document_id.as_str())?;
        identity(self.client_id.as_str())?;
        if self.sequence == 0 || self.revision == 0 {
            return Err(
                CollaError::new(ErrorCode::InvalidEncoding, "Commit sequence and revision must be positive"),
            );
        }
        let canonical = Change::new(self.change.to_operations())?;
        if !canonical.same_change(&self.change) {
            return Err(CollaError::new(ErrorCode::InvalidEncoding, "noncanonical change"));
        }
        Ok(())
    }
}

/// A formal ordered Commit, or the refusal of a request.
#[derive(Debug)]
pub enum ServerMessage {
    /// An ordered Commit, including confirmation of the sender.
    Commit(Commit),
    /// A refused request.
    Rejection(Rejection),
}

/// Complete evidence of one visible content commit.
#[derive(Debug)]
pub struct EditResult {
    /// Content immediately before the commit.
    pub before: Value,
    /// Content immediately after the commit.
    pub after: Value,
    /// The committed Change.
    pub change: Change,
    /// The reverse Change, preserving every owning identity.
    pub inverse: Change,
    /// The committed operations in order.
    pub edit_steps: Vec<Operation>,
    /// Local content version after the commit.
    pub version: u64,
    /// Source of the committed edit.
    pub origin: Origin,
}

/// The in-flight request: as submitted, the snapshot it was made on, and as
/// rebased onto the confirmed content.
#[derive(Debug)]
struct Pending {
    original: Submission,
    original_base: SyncSnapshot,
    rebased: Change,
}

impl View for Pending {
    type V = ((Seq<char>, Seq<char>, u64, u64, Seq<Step>), (Seq<char>, u64, Tree), Seq<Step>);

    closed spec fn view(&self) -> ((Seq<char>, Seq<char>, u64, u64, Seq<Step>), (Seq<char>, u64, Tree), Seq<Step>) {
        (self.original@, self.original_base@, self.rebased@)
    }
}

impl Pending {
    fn copy(&self) -> (c: Pending)
        ensures
            c@ == self@,
    {
        Pending { original: self.original.copy(), original_base: self.original_base.copy(), rebased: self.rebased.copy() }
    }
}

/// The model of a session.
pub struct SessionView {
    /// The visible content.
    pub value: Tree,
    /// The local content version.
    pub version: u64,
    /// The writer identity.
    pub client_id: Seq<char>,
    /// The next request sequence number.
    pub next_sequence: u64,
    /// The confirmed snapshot.
    pub confirmed: (Seq<char>, u64, Tree),
    /// The in-flight request.
    pub pending: Option<((Seq<char>, Seq<char>, u64, u64, Seq<Step>), (Seq<char>, u64, Tree), Seq<Step>)>,
    /// Local work composed after the in-flight request.
    pub buffer: Seq<Step>,
    /// Why safe synchronization stopped, if it did.
    pub recovery: Option<(ErrorCode, Seq<(Seq<char>, Seq<char>)>)>,
    /// The Commits kept for the in-flight request's rebase, by revision.
    pub received: Seq<(Seq<char>, Seq<char>, u64, u64, Seq<Step>)>,
}

/// Client synchronization state with one in-flight request and one composed
/// buffer.
#[derive(Debug)]
pub struct SessionState {
    value: Value,
    version: u64,
    client_id: String,
    next_sequence: u64,
    confirmed: SyncSnapshot,
    pending: Option<Pending>,
    buffer: Change,
    recovery: Option<CollaError>,
    received: Vec<Commit>,
}

/// The models of Commits.
pub open spec fn commit_views(s: Seq<Commit>) -> Seq<(Seq<char>, Seq<char>, u64, u64, Seq<Step>)> {
    Seq::new(s.len(), |i: int| s[i]@)
}

impl View for SessionState {
    type V = SessionView;

    closed spec fn view(&self) -> SessionView {
        SessionView {
            value: self.value@,
            version: self.version,
            client_id: self.client_id@,
            next_sequence: self.next_sequence,
            confirmed: self.confirmed@,
            pending: match self.pending {
                Some(p) => Some(p@),
                None => None,
            },
            buffer: self.buffer@,
            recovery: match self.recovery {
                Some(e) => Some(error_view(e)),
                None => None,
            },
            received: commit_views(self.received@),
        }
    }
}

/// What the confirmed content becomes with the in-flight request and the
/// buffer applied after it.
pub open spec fn projection(s: SessionView) -> Result<Tree, ErrorCode> {
    match s.pending {
        Some(p) => apply_steps(s.confirmed.2, p.2 + s.buffer),
        None => apply_steps(s.confirmed.2, s.buffer),
    }
}

/// Local work is fully queued: the confirmed content is valid, a buffer
/// exists only behind an in-flight request, and the confirmed content with
/// the in-flight request and the buffer applied is the visible content.
pub open spec fn queued(s: SessionView) -> bool {
    s.recovery is None ==> {
        &&& crate::tree::valid(s.confirmed.2)
        &&& s.pending is None ==> s.buffer.len() == 0
        &&& projection(s) == Ok::<Tree, ErrorCode>(s.value)
    }
}

/// The parts of `queued` that do not speak of the visible content.
pub open spec fn queued_core(s: SessionView) -> bool {
    s.recovery is None ==> {
        &&& crate::tree::valid(s.confirmed.2)
        &&& s.pending is None ==> s.buffer.len() == 0
    }
}

/// The result of the session step when nothing changes.
pub open spec fn unchanged(next: SessionState, state: SessionState) -> bool {
    next@ == state@
}

/// Whether the in-flight request of `s` is request `sequence` of `client`.
pub open spec fn pending_is(s: SessionView, client: Seq<char>, sequence: u64) -> bool {
    s.pending matches Some(p) && p.0.1 == client && p.0.2 == sequence
}

impl SessionState {
    /// Starts a session of writer `client_id` on a confirmed snapshot, with
    /// nothing in flight.
    pub fn create(client_id: &str, snapshot: SyncSnapshot) -> (r: Result<SessionState, CollaError>)
        ensures
            r is Ok <==> 1 <= byte_len(client_id@) <= 4096,
            r matches Ok(s) ==> {
                &&& s@.value == snapshot@.2
                &&& s@.confirmed == snapshot@
                &&& s@.next_sequence == 1
                &&& s@.pending is None
                &&& s@.buffer.len() == 0
                &&& s@.recovery is None
                &&& s@.client_id == client_id@
            },
    {
        identity(client_id)?;
        let value = snapshot.value.copy();
        let buffer = Change::noop();
        let s = SessionState {
            value,
            version: 0,
            client_id: client_id.to_owned(),
            next_sequence: 1,
            confirmed: snapshot,
            pending: None,
            buffer,
            recovery: None,
            received: Vec::new(),
        };
        Ok(s)
    }

    /// An independent copy of this state.
    pub fn copy(&self) -> (c: SessionState)
        ensures
            c@ == self@,
    {
        let pending = match &self.pending {
            Some(p) => Some(p.copy()),
            None => None,
        };
        let recovery = match &self.recovery {
            Some(e) => Some(copy_error(e)),
            None => None,
        };
        let mut received: Vec<Commit> = Vec::new();
        let mut i: usize = 0;
        while i < self.received.len()
            invariant
                0 <= i <= self.received@.len(),
                received@.len() == i,
                forall|j: int| 0 <= j < i ==> received@[j]@ == self.received@[j]@,
            decreases self.received.len() - i,
        {
            received.push(self.received[i].copy());
            i += 1;
        }
        let c = SessionState {
            value: self.value.copy(),
            version: self.version,
            client_id: self.client_id.clone(),
            next_sequence: self.next_sequence,
            confirmed: self.confirmed.copy(),
            pending,
            buffer: self.buffer.copy(),
            recovery,
            received,
        };
        proof {
            assert(commit_views(c.received@) =~= commit_views(self.received@));
            assert(c@ == self@);
        }
        c
    }

    /// Borrows the visible content.
    pub fn value(&self) -> (v: &Value)
        ensures
            v@ == self@.value,
    {
        &self.value
    }

    /// Returns the local content version.
    pub fn version(&self) -> (n: u64)
        ensures
            n == self@.version,
    {
        self.version
    }

    /// Returns the confirmed server revision.
    pub fn revision(&self) -> (n: u64)
        ensures
            n == self@.confirmed.1,
    {
        self.confirmed.revision
    }

    /// Returns why safe synchronization stopped, if it did.
    pub fn recovery_reason(&self) -> (r: Option<CollaError>)
        ensures
            match self@.recovery {
                Some(e) => r matches Some(x) && error_view(x) == e,
                None => r is None,
            },
    {
        match &self.recovery {
            Some(e) => Some(copy_error(e)),
            None => None,
        }
    }

    /// The in-flight request as submitted, or `None` when idle or recovering.
    pub fn outbound(&self) -> (r: Option<Submission>)
        ensures
            match self@.pending {
                Some(p) => if self@.recovery is None {
                    r matches Some(x) && x@ == p.0
                } else {
                    r is None
                },
                None => r is None,
            },
    {
        if self.recovery.is_some() {
            return None;
        }
        match &self.pending {
            Some(p) => Some(p.original.copy()),
            None => None,
        }
    }

    /// Makes `change` the in-flight request.
    fn promote(&mut self, change: Change) -> (r: Result<(), CollaError>)
        ensures
            final(self)@.value == old(self)@.value,
            final(self)@.confirmed == old(self)@.confirmed,
            final(self)@.recovery == old(self)@.recovery,
            final(self)@.buffer == old(self)@.buffer,
            r is Ok ==> (final(self)@.pending is Some && final(self)@.pending->Some_0.2 == change@),
    {
        let sequence = self.next_sequence;
        if sequence == u64::MAX {
            return Err(CollaError::new(ErrorCode::LimitExceeded, "submission sequence exhausted"));
        }
        self.next_sequence = sequence + 1;
        let original = Submission {
            document_id: self.confirmed.document_id.clone(),
            client_id: self.client_id.clone(),
            sequence,
            base_revision: self.confirmed.revision,
            change: change.copy(),
        };
        self.pending = Some(Pending { original, original_base: self.confirmed.copy(), rebased: change });
        Ok(())
    }

    /// Queues a local Change: it becomes the in-flight request, or is
    /// composed into the buffer behind it.
    fn enqueue(&mut self, change: &Change) -> (r: Result<(), CollaError>)
        ensures
            final(self)@.value == old(self)@.value,
            final(self)@.confirmed == old(self)@.confirmed,
            final(self)@.recovery == old(self)@.recovery,
            r is Ok && queued_core(old(self)@) && projection(old(self)@) is Ok && apply_steps(
                projection(old(self)@)->Ok_0,
                change@,
            ) is Ok ==> queued_core(final(self)@) && (final(self)@.recovery is None ==> projection(
                final(self)@,
            ) == apply_steps(projection(old(self)@)->Ok_0, change@)),
    {
        if self.recovery.is_some() || change.is_noop() {
            proof {
                if change@.len() == 0 && projection(self@) is Ok {
                    assert(apply_steps(projection(self@)->Ok_0, change@) == projection(self@));
                }
            }
            return Ok(());
        }
        match &self.pending {
            Some(p) => {
                let base = apply(&self.confirmed.value, &p.rebased)?;
                let buffer = compose(&base, &self.buffer, change)?;
                proof {
                    let v = self@;
                    if queued_core(v) && projection(v) is Ok && apply_steps(projection(v)->Ok_0, change@) is Ok {
                        crate::operation_laws::law_changes_keep_content_valid(v.confirmed.2, p.rebased@);
                        crate::operation_laws::law_apply_in_turn(v.confirmed.2, p.rebased@, v.buffer);
                        crate::operation_laws::law_apply_in_turn(base@, v.buffer, change@);
                        crate::operation_compose_law::law_compose_applies_in_turn(base@, v.buffer, change@);
                        crate::operation_laws::law_apply_in_turn(v.confirmed.2, p.rebased@, buffer@);
                    }
                }
                self.buffer = buffer;
                Ok(())
            },
            None => {
                let ghost before = self@;
                let r = self.promote(change.copy());
                proof {
                    if r is Ok && queued_core(before) && projection(before) is Ok {
                        assert(before.buffer =~= Seq::<Step>::empty());
                        assert(change@ + before.buffer =~= change@);
                        assert(apply_steps(before.confirmed.2, before.buffer) == Ok::<Tree, ErrorCode>(before.confirmed.2));
                    }
                }
                r
            },
        }
    }
}

/// Commits `change` to the visible content of `state`.
fn prepare(state: &mut SessionState, change: &Change, origin: Origin) -> (r: Result<EditResult, CollaError>)
    ensures
        r is Ok ==> final(state)@.value == apply_steps(old(state)@.value, change@)->Ok_0,
        r is Ok ==> apply_steps(old(state)@.value, change@) is Ok,
        final(state)@.confirmed == old(state)@.confirmed,
        final(state)@.pending == old(state)@.pending,
        final(state)@.buffer == old(state)@.buffer,
        final(state)@.recovery == old(state)@.recovery,
{
    let after = apply(&state.value, change)?;
    if state.version == u64::MAX {
        return Err(CollaError::new(ErrorCode::LimitExceeded, "local version exhausted"));
    }
    let version = state.version + 1;
    let inverse = invert(&state.value, change)?;
    let ops = change.operations();
    let mut edit_steps: Vec<Operation> = Vec::new();
    let mut i: usize = 0;
    while i < ops.len()
        decreases ops.len() - i,
    {
        edit_steps.push(ops[i].copy());
        i += 1;
    }
    let result = EditResult {
        before: state.value.copy(),
        after: after.copy(),
        change: change.copy(),
        inverse,
        edit_steps,
        version,
        origin,
    };
    state.value = after;
    state.version = version;
    Ok(result)
}

/// Commits a local Change to the visible content and queues it for the
/// server; the empty Change commits nothing.
pub fn edit(state: &SessionState, change: &Change) -> (r: Result<(SessionState, Option<EditResult>), CollaError>)
    ensures
        r matches Ok((s, e)) ==> (e is None <==> change@.len() == 0),
        r matches Ok((s, e)) ==> (change@.len() == 0 ==> s@ == state@),
        r matches Ok((s, e)) ==> (change@.len() > 0 ==> s@.value == apply_steps(state@.value, change@)->Ok_0),
        apply_steps(state@.value, change@) is Err ==> r is Err,
        r matches Ok((s, e)) ==> (queued(state@) ==> queued(s@)),
{
    let mut next = state.copy();
    if change.is_noop() {
        return Ok((next, None));
    }
    let ghost before = next@;
    let result = prepare(&mut next, change, Origin::Local)?;
    let ghost prepared = next@;
    next.enqueue(change)?;
    proof {
        assert(before == state@);
        assert(projection(prepared) == projection(before));
    }
    Ok((next, Some(result)))
}

/// The outcome of a Commit that advances the confirmed revision by one: an
/// own Commit confirms the in-flight request and promotes the buffer; another
/// writer's Commit rebases the in-flight request and the buffer over it and
/// shows the remote work that remains visible.
fn advance(state: &SessionState, commit: &Commit) -> (r: Result<(SessionState, Option<EditResult>), CollaError>)
    ensures
        r is Ok ==> apply_steps(state@.confirmed.2, commit@.4) is Ok,
        r matches Ok((s, e)) ==> s@.confirmed == (
            state@.confirmed.0,
            commit@.3,
            apply_steps(state@.confirmed.2, commit@.4)->Ok_0,
        ),
        apply_steps(state@.confirmed.2, commit@.4) is Err ==> r is Err && r->Err_0.code == apply_steps(
            state@.confirmed.2,
            commit@.4,
        )->Err_0,
{
    let mut sync = state.copy();
    let confirmed_value = apply(&sync.confirmed.value, &commit.change)?;
    let mut visible_remote = commit.change.copy();
    let own = same_str(commit.client_id.as_str(), sync.client_id.as_str());
    if own {
        let accepted = match &sync.pending {
            None => {
                return Err(invalid_state("own Commit has no in-flight request"));
            },
            Some(p) => {
                if p.original.sequence != commit.sequence {
                    false
                } else {
                    let v = apply(&sync.confirmed.value, &p.rebased)?;
                    v.same_value(&confirmed_value)
                }
            },
        };
        if !accepted {
            return Err(invalid_state("own Commit identity or accepted payload differs"));
        }
        sync.pending = None;
        visible_remote = Change::noop();
    } else {
        let rebased_pending = match &sync.pending {
            Some(p) => {
                let optimistic_base = apply(&sync.confirmed.value, &p.rebased)?;
                let (rebased, remote) = transform(
                    &sync.confirmed.value,
                    &p.rebased,
                    &visible_remote,
                    Priority::Right,
                )?;
                let (buffer, remote) = transform(&optimistic_base, &sync.buffer, &remote, Priority::Right)?;
                sync.buffer = buffer;
                visible_remote = remote;
                Some(Pending { original: p.original.copy(), original_base: p.original_base.copy(), rebased })
            },
            None => None,
        };
        if rebased_pending.is_some() {
            sync.pending = rebased_pending;
        }
    }
    sync.confirmed = SyncSnapshot {
        document_id: sync.confirmed.document_id.clone(),
        revision: commit.revision,
        value: confirmed_value,
    };
    let ghost confirmed = sync@.confirmed;
    if own && !sync.buffer.is_noop() {
        let buffered = sync.buffer.copy();
        sync.buffer = Change::noop();
        sync.promote(buffered)?;
    }
    let (kept, _) = normalize(&state.value, visible_remote.operations())?;
    let visible = Change::from_vec(kept);
    let edit = if visible.is_noop() {
        None
    } else {
        Some(prepare(&mut sync, &visible, Origin::Remote)?)
    };
    let revision = commit.revision;
    let retain_from: u64 = match &sync.pending {
        Some(p) => if p.original.base_revision == u64::MAX {
            u64::MAX
        } else {
            p.original.base_revision + 1
        },
        None => revision,
    };
    let mut received: Vec<Commit> = Vec::new();
    let mut placed = false;
    let mut i: usize = 0;
    while i < sync.received.len()
        decreases sync.received.len() - i,
    {
        let rev = sync.received[i].revision;
        if !placed && rev >= revision {
            if revision >= retain_from {
                received.push(commit.copy());
            }
            placed = true;
        }
        if rev != revision && rev >= retain_from {
            received.push(sync.received[i].copy());
        }
        i += 1;
    }
    if !placed && revision >= retain_from {
        received.push(commit.copy());
    }
    sync.received = received;
    proof {
        assert(sync@.confirmed == confirmed);
    }
    Ok((sync, edit))
}

/// Whether `received` holds a Commit at `revision` that differs from `c`.
pub open spec fn conflicting_receipt(
    received: Seq<(Seq<char>, Seq<char>, u64, u64, Seq<Step>)>,
    c: (Seq<char>, Seq<char>, u64, u64, Seq<Step>),
) -> bool {
    exists|i: int| 0 <= i < received.len() && received[i].3 == c.3 && received[i] != c
}

/// Whether `received` holds a Commit at the revision of `c` that differs from it.
fn conflicting(received: &Vec<Commit>, c: &Commit) -> (r: bool)
    ensures
        r == conflicting_receipt(commit_views(received@), c@),
{
    let mut i: usize = 0;
    while i < received.len()
        invariant
            0 <= i <= received@.len(),
            forall|j: int| 0 <= j < i && received@[j]@.3 == c@.3 ==> received@[j]@ == c@,
        decreases received.len() - i,
    {
        if received[i].revision == c.revision && !received[i].same_commit(c) {
            proof {
                assert(commit_views(received@)[i as int] == received@[i as int]@);
            }
            return true;
        }
        i += 1;
    }
    proof {
        if conflicting_receipt(commit_views(received@), c@) {
            let j = choose|j: int|
                0 <= j < commit_views(received@).len() && commit_views(received@)[j].3 == c@.3
                    && commit_views(received@)[j] != c@;
            assert(commit_views(received@)[j] == received@[j]@);
        }
    }
    false
}

/// The session `s` with recovery reason `e`.
pub open spec fn recovering(s: SessionView, e: (ErrorCode, Seq<(Seq<char>, Seq<char>)>)) -> SessionView {
    SessionView { recovery: Some(e), ..s }
}

/// Receives one server message and returns the next session state with the
/// outcome. A session that needs recovery refuses every message. A
/// rejection of the in-flight request puts the session into recovery with
/// the server's reason; other rejections change nothing. A Commit must be
/// well formed and for this document; one at or below the confirmed
/// revision is a repeat (refused where it differs from the Commit received
/// at that revision); one more than a revision ahead is a gap, answered with
/// `MissingRevision` and the missing range, the state unchanged; the next
/// revision advances the session, and a failure there puts the session into
/// recovery with that error.
pub fn receive(state: &SessionState, message: &ServerMessage) -> (r: (
    SessionState,
    Result<Option<EditResult>, CollaError>,
))
    ensures
        state@.recovery is Some ==> r.0@ == state@ && r.1 is Err && r.1->Err_0.code == ErrorCode::InvalidState,
        state@.recovery is None ==> match message {
            ServerMessage::Rejection(j) => {
                &&& r.1 matches Ok(x) && x is None
                &&& if j.document_id_spec() == state@.confirmed.0 && pending_is(
                    state@,
                    j.client_id_spec(),
                    j.sequence_spec(),
                ) {
                    r.0@ == recovering(state@, error_view(j.reason_spec()))
                } else {
                    r.0@ == state@
                }
            },
            ServerMessage::Commit(c) => {
                &&& !commit_formed(c@) ==> r.0@ == state@ && r.1 is Err
                &&& commit_formed(c@) && c@.0 != state@.confirmed.0 ==> r.0@ == state@ && r.1 is Err
                    && r.1->Err_0.code == ErrorCode::InvalidArgument
                &&& commit_formed(c@) && c@.0 == state@.confirmed.0 && c@.3 <= state@.confirmed.1 ==> {
                    &&& r.0@ == state@
                    &&& if conflicting_receipt(state@.received, c@) {
                        r.1 is Err && r.1->Err_0.code == ErrorCode::InvalidArgument
                    } else {
                        r.1 matches Ok(x) && x is None
                    }
                }
                &&& commit_formed(c@) && c@.0 == state@.confirmed.0 && c@.3 > state@.confirmed.1 + 1 ==> {
                    &&& r.0@ == state@
                    &&& r.1 is Err
                    &&& r.1->Err_0.code == ErrorCode::MissingRevision
                    &&& has_entry(r.1->Err_0.details_spec(), "fromRevision"@, decimal((state@.confirmed.1 + 1) as nat))
                    &&& has_entry(r.1->Err_0.details_spec(), "throughRevision"@, decimal((c@.3 - 1) as nat))
                }
                &&& commit_formed(c@) && c@.0 == state@.confirmed.0 && c@.3 == state@.confirmed.1 + 1 ==> {
                    &&& r.1 is Ok ==> r.0@.confirmed == (
                        state@.confirmed.0,
                        c@.3,
                        apply_steps(state@.confirmed.2, c@.4)->Ok_0,
                    ) && apply_steps(state@.confirmed.2, c@.4) is Ok
                    &&& r.1 is Err ==> r.0@ == recovering(state@, error_view(r.1->Err_0))
                }
            },
        },
{
    if state.recovery.is_some() {
        return (state.copy(), Err(invalid_state("session requires recovery")));
    }
    match message {
        ServerMessage::Rejection(j) => {
            let matches = same_str(j.document_id(), state.confirmed.document_id.as_str()) && match &state.pending {
                Some(p) => same_str(p.original.client_id.as_str(), j.client_id()) && p.original.sequence == j.sequence(),
                None => false,
            };
            let mut next = state.copy();
            if matches {
                next.recovery = Some(copy_error(j.reason()));
                proof {
                    assert(next@ == recovering(state@, error_view(j.reason_spec())));
                }
            }
            (next, Ok(None))
        },
        ServerMessage::Commit(c) => {
            match c.validate() {
                Ok(()) => {},
                Err(e) => {
                    return (state.copy(), Err(e));
                },
            }
            if !same_str(c.document_id.as_str(), state.confirmed.document_id.as_str()) {
                return (state.copy(), Err(CollaError::new(ErrorCode::InvalidArgument, "Commit document differs")));
            }
            if c.revision <= state.confirmed.revision {
                if conflicting(&state.received, c) {
                    return (
                        state.copy(),
                        Err(CollaError::new(ErrorCode::InvalidArgument, "revision reused with different Commit")),
                    );
                }
                return (state.copy(), Ok(None));
            }
            if state.confirmed.revision == u64::MAX || c.revision != state.confirmed.revision + 1 {
                let from = u64_text(state.confirmed.revision + 1);
                let through = u64_text(c.revision - 1);
                let e = CollaError::new(ErrorCode::MissingRevision, "Commit gap").detail("fromRevision", from.as_str()).detail(
                    "throughRevision",
                    through.as_str(),
                );
                proof {
                    reveal_strlit("fromRevision");
                    reveal_strlit("throughRevision");
                    assert("fromRevision"@[0] != "throughRevision"@[0]);
                }
                return (state.copy(), Err(e));
            }
            match advance(state, c) {
                Ok((next, edit)) => (next, Ok(edit)),
                Err(e) => {
                    let mut next = state.copy();
                    next.recovery = Some(copy_error(&e));
                    (next, Err(e))
                },
            }
        },
    }
}

/// A request with the Commit that answered it.
#[derive(Debug)]
struct Receipt {
    submission: Submission,
    commit: Commit,
}

/// The model of an Authority.
pub struct AuthorityView {
    /// The oldest retained snapshot.
    pub floor: (Seq<char>, u64, Tree),
    /// The retained Commits, in revision order.
    pub log: Seq<(Seq<char>, Seq<char>, u64, u64, Seq<Step>)>,
    /// The current confirmed content.
    pub value: Tree,
    /// The answered requests.
    pub receipts: Seq<((Seq<char>, Seq<char>, u64, u64, Seq<Step>), (Seq<char>, Seq<char>, u64, u64, Seq<Step>))>,
}

/// Centralized ordering and rebasing state; accepting a request gives a new
/// state.
#[derive(Debug)]
pub struct Authority {
    floor: SyncSnapshot,
    log: Vec<Commit>,
    receipts: Vec<Receipt>,
    value: Value,
}

/// The models of receipts.
closed spec fn receipt_views(s: Seq<Receipt>) -> Seq<((Seq<char>, Seq<char>, u64, u64, Seq<Step>), (Seq<char>, Seq<char>, u64, u64, Seq<Step>))> {
    Seq::new(s.len(), |i: int| (s[i].submission@, s[i].commit@))
}

impl View for Authority {
    type V = AuthorityView;

    closed spec fn view(&self) -> AuthorityView {
        AuthorityView {
            floor: self.floor@,
            log: commit_views(self.log@),
            value: self.value@,
            receipts: receipt_views(self.receipts@),
        }
    }
}

/// The confirmed revision of an Authority: that of its last Commit, or of
/// its floor.
pub open spec fn authority_revision(a: AuthorityView) -> u64 {
    if a.log.len() > 0 {
        a.log.last().3
    } else {
        a.floor.1
    }
}

impl Authority {
    /// Creates an Authority for document `document_id` on valid content, at
    /// revision zero.
    pub fn create(document_id: &str, value: Value) -> (r: Result<Authority, CollaError>)
        ensures
            r is Ok <==> 1 <= byte_len(document_id@) <= 4096 && crate::tree::valid(value@),
            r matches Ok(a) ==> a@.value == value@ && a@.log.len() == 0 && a@.floor == (
                document_id@,
                0u64,
                value@,
            ) && a@.receipts.len() == 0,
    {
        identity(document_id)?;
        value.validate()?;
        let floor = SyncSnapshot { document_id: document_id.to_owned(), revision: 0, value: value.copy() };
        let a = Authority { floor, log: Vec::new(), receipts: Vec::new(), value };
        proof {
            assert(commit_views(a.log@) =~= Seq::<(Seq<char>, Seq<char>, u64, u64, Seq<Step>)>::empty());
            assert(receipt_views(a.receipts@).len() == 0);
        }
        Ok(a)
    }

    /// Returns the confirmed server revision.
    pub fn revision(&self) -> (n: u64)
        ensures
            n == authority_revision(self@),
    {
        let n = self.log.len();
        if n > 0 {
            proof {
                assert(commit_views(self.log@).last() == self.log@[n - 1]@);
            }
            self.log[n - 1].revision
        } else {
            self.floor.revision
        }
    }

    /// The current confirmed snapshot.
    pub fn snapshot(&self) -> (s: SyncSnapshot)
        ensures
            s@ == (self@.floor.0, authority_revision(self@), self@.value),
    {
        SyncSnapshot { document_id: self.floor.document_id.clone(), revision: self.revision(), value: self.value.copy() }
    }

    /// An independent copy.
    pub fn copy(&self) -> (c: Authority)
        ensures
            c@ == self@,
    {
        let mut log: Vec<Commit> = Vec::new();
        let mut i: usize = 0;
        while i < self.log.len()
            invariant
                0 <= i <= self.log@.len(),
                log@.len() == i,
                forall|j: int| 0 <= j < i ==> log@[j]@ == self.log@[j]@,
            decreases self.log.len() - i,
        {
            log.push(self.log[i].copy());
            i += 1;
        }
        let mut receipts: Vec<Receipt> = Vec::new();
        let mut k: usize = 0;
        while k < self.receipts.len()
            invariant
                0 <= k <= self.receipts@.len(),
                receipts@.len() == k,
                forall|j: int|
                    0 <= j < k ==> receipts@[j].submission@ == self.receipts@[j].submission@
                        && receipts@[j].commit@ == self.receipts@[j].commit@,
            decreases self.receipts.len() - k,
        {
            receipts.push(
                Receipt { submission: self.receipts[k].submission.copy(), commit: self.receipts[k].commit.copy() },
            );
            k += 1;
        }
        let c = Authority { floor: self.floor.copy(), log, receipts, value: self.value.copy() };
        proof {
            assert(commit_views(c.log@) =~= commit_views(self.log@));
            assert(receipt_views(c.receipts@) =~= receipt_views(self.receipts@));
        }
        c
    }

    /// The content at `revision`, replaying the retained Commits from the
    /// floor; a revision before the floor has expired, one after the last
    /// Commit is missing.
    fn value_at(&self, revision: u64) -> (r: Result<Value, CollaError>)
        ensures
            revision < self@.floor.1 ==> r is Err && r->Err_0.code == ErrorCode::HistoryExpired,
            self@.floor.1 <= revision && revision > authority_revision(self@) ==> r is Err && r->Err_0.code
                == ErrorCode::MissingRevision,
    {
        if revision < self.floor.revision {
            let floor = u64_text(self.floor.revision);
            return Err(
                CollaError::new(ErrorCode::HistoryExpired, "requested revision precedes retained history").detail(
                    "floorRevision",
                    floor.as_str(),
                ),
            );
        }
        if revision > self.revision() {
            return Err(CollaError::new(ErrorCode::MissingRevision, "requested revision is not committed"));
        }
        let mut value = self.floor.value.copy();
        let mut i: usize = 0;
        while i < self.log.len()
            invariant
                self@.floor.1 <= revision,
                revision <= authority_revision(self@),
            decreases self.log.len() - i,
        {
            if self.log[i].revision > revision {
                break;
            }
            value = apply(&value, &self.log[i].change)?;
            i += 1;
        }
        Ok(value)
    }

    /// The retained Commits after `revision`, or the refusal of `value_at`.
    pub fn commits_since(&self, revision: u64) -> (r: Result<Vec<Commit>, CollaError>)
        ensures
            revision < self@.floor.1 ==> r is Err && r->Err_0.code == ErrorCode::HistoryExpired,
            self@.floor.1 <= revision && revision > authority_revision(self@) ==> r is Err && r->Err_0.code
                == ErrorCode::MissingRevision,
            r matches Ok(v) ==> forall|i: int| 0 <= i < v@.len() ==> (#[trigger] v@[i])@.3 > revision,
    {
        self.value_at(revision)?;
        let mut out: Vec<Commit> = Vec::new();
        let mut i: usize = 0;
        while i < self.log.len()
            invariant
                forall|j: int| 0 <= j < out@.len() ==> (#[trigger] out@[j])@.3 > revision,
            decreases self.log.len() - i,
        {
            if self.log[i].revision > revision {
                out.push(self.log[i].copy());
            }
            i += 1;
        }
        Ok(out)
    }

    /// A refusal of `submission` with `reason`, this Authority unchanged.
    fn reject(&self, submission: &Submission, reason: CollaError) -> (r: (Authority, ServerMessage))
        ensures
            r.0@ == self@,
            r.1 matches ServerMessage::Rejection(j) && j.reason_spec() == reason,
    {
        (
            self.copy(),
            ServerMessage::Rejection(
                Rejection::new(submission.document_id.as_str(), submission.client_id.as_str(), submission.sequence, reason),
            ),
        )
    }

    /// Rebases `submission` over the Commits after its base revision and
    /// onto the current content.
    fn rebase(&self, submission: &Submission) -> (r: Result<(Value, Change), CollaError>)
        ensures
            r matches Ok((v, c)) ==> apply_steps(self@.value, c@) == Ok::<Tree, ErrorCode>(v@),
    {
        let mut base = self.value_at(submission.base_revision)?;
        let mut change = submission.change.copy();
        apply(&base, &change)?;
        let mut i: usize = 0;
        while i < self.log.len()
            decreases self.log.len() - i,
        {
            if self.log[i].revision > submission.base_revision {
                let (rebased, _) = transform(&base, &change, &self.log[i].change, Priority::Right)?;
                change = rebased;
                base = apply(&base, &self.log[i].change)?;
            }
            i += 1;
        }
        let (kept, value) = normalize(&self.value, change.operations())?;
        let result = Change::from_vec(kept);
        proof {
            crate::operation_laws::law_normalized_keeps_effect(self@.value, change@);
            crate::operation_laws::lemma_normalize_run_effect(self@.value, change@);
        }
        Ok((value, result))
    }

    /// Accepts a request: a malformed one fails; one for another document,
    /// one that reuses a request identity with another payload, one out of
    /// the client's sequence, and one that cannot be rebased are rejected with
    /// this Authority unchanged; a repeated request gets its earlier Commit;
    /// any other is rebased onto the current content and committed at the
    /// next revision.
    pub fn accept(&self, submission: &Submission) -> (r: Result<(Authority, ServerMessage), CollaError>)
        ensures
            !submission_formed(submission@) ==> r is Err,
            submission_formed(submission@) && submission@.0 != self@.floor.0 ==> r is Ok && r->Ok_0.0@
                == self@ && r->Ok_0.1 is Rejection,
            r matches Ok((a, m)) ==> match m {
                ServerMessage::Rejection(_) => a@ == self@,
                ServerMessage::Commit(c) => a@ == self@ || {
                    &&& authority_revision(self@) < u64::MAX
                    &&& c@.3 == authority_revision(self@) + 1
                    &&& a@.log == self@.log.push(c@)
                    &&& apply_steps(self@.value, c@.4) == Ok::<Tree, ErrorCode>(a@.value)
                    &&& c@.0 == submission@.0 && c@.1 == submission@.1 && c@.2 == submission@.2
                },
            },
    {
        submission.validate()?;
        if !same_str(submission.document_id.as_str(), self.floor.document_id.as_str()) {
            return Ok(self.reject(submission, CollaError::new(ErrorCode::InvalidArgument, "submission document differs")));
        }
        let mut last: u64 = 0;
        let mut i: usize = 0;
        while i < self.receipts.len()
            invariant
                submission_formed(submission@),
                submission@.0 == self@.floor.0,
            decreases self.receipts.len() - i,
        {
            let receipt = &self.receipts[i];
            if same_str(receipt.submission.client_id.as_str(), submission.client_id.as_str()) {
                if receipt.submission.sequence == submission.sequence {
                    if !receipt.submission.same_submission(submission) {
                        return Ok(
                            self.reject(
                                submission,
                                CollaError::new(ErrorCode::InvalidArgument, "request identity reused with different payload"),
                            ),
                        );
                    }
                    return Ok((self.copy(), ServerMessage::Commit(receipt.commit.copy())));
                }
                if receipt.submission.sequence > last {
                    last = receipt.submission.sequence;
                }
            }
            i += 1;
        }
        if last == u64::MAX || last + 1 != submission.sequence {
            return Ok(
                self.reject(
                    submission,
                    CollaError::new(ErrorCode::InvalidArgument, "submission sequence is not the next client sequence"),
                ),
            );
        }
        let (value, change) = match self.rebase(submission) {
            Ok(r) => r,
            Err(e) => {
                return Ok(self.reject(submission, e));
            },
        };
        let current = self.revision();
        if current == u64::MAX {
            return Err(CollaError::new(ErrorCode::LimitExceeded, "Authority revision exhausted"));
        }
        let commit = Commit {
            document_id: submission.document_id.clone(),
            client_id: submission.client_id.clone(),
            sequence: submission.sequence,
            revision: current + 1,
            change,
        };
        let mut next = self.copy();
        let ghost old_log = commit_views(next.log@);
        next.log.push(commit.copy());
        next.receipts.push(Receipt { submission: submission.copy(), commit: commit.copy() });
        next.value = value;
        proof {
            assert(commit_views(next.log@) =~= old_log.push(commit@));
        }
        Ok((next, ServerMessage::Commit(commit)))
    }
}

} // verus!
