# colla

The algebra of collaborative text editing, verified with Verus.

A Text change is a canonical stream of retain, insert and delete operations
counted in Unicode scalars. The library applies, composes, transforms and
inverts such changes, and its contracts state what each operation does on
every base text:

- `apply_text` succeeds exactly when the change fits the base and the result
  fits one allocation;
- `compose_text` gives a change whose effect is the second change after the
  first;
- `transform_text` gives the two transformed changes, and both orders of
  application agree (TP1), with a tie break for concurrent insertions;
- `invert_text` gives a change that restores the base.

Above Text sits the recursive content model: immutable `Value`s (null,
booleans, integers, finite floats, strings, Text, Lists and key-ordered Maps)
and recursive `Change`s (replacement, checked integer addition, Map entry
insert/delete/modify, List retain/insert/delete/modify streams and Text
changes). `apply` states its result, or the first failure with the path where
it occurs, on every base; `compose` gives one Change with the effect of two
applied in turn (`compose_law.rs`); `invert` builds the canonical inverse, and
applying the inverse to the result restores the base (`invert_law.rs`).
`inspect_change` and `edit_steps` restate a Change on its base as located
entries and as replayable edit steps, Text positions in UTF-16 code units.

The identity-addressed model (module `engine`) gives every element a stable
`ElementId`: a `Value` is an owning tree whose elements are found by identity,
and a `Change` is an ordered sequence of `Operation`s (insert, delete, assign,
move, Text edit, checked add) addressed by those identities. `apply` states
its result, or the code of the first failure, for every base; moves keep the
moved subtree's identities and refuse to move an element into itself;
`transform` merges two concurrent Changes into one result, `priority`
deciding competing intents, and gives each side the identity-preserving delta
from its own result to the merged one; its contract states that the two
transformed paths converge (TP1) and that structural conflicts fail.
`SessionState` with `edit` and `receive` is the client side of centralized
synchronization (one in-flight request, one composed buffer, rebasing over
remote Commits, gaps answered with `MissingRevision`), and `Authority` the
server side that orders, deduplicates and rebases requests. `Editor` keeps a
collaborative undo and redo history whose units are rebased over remote work.
`validate` checks unique identities, bounded depth and size, sorted Map keys
and string sizes; `compose` and `invert` are exact over their specifications.
The laws of this model are proved (`operation_laws.rs`,
`operation_compose_law.rs`, `structure_laws.rs`, `unique_ids.rs`): a
successful Change keeps content valid; applying two Changes joined is
applying them in turn; in valid content each identity names exactly the
element at its path; a Move keeps the moved subtree with all its identities
and puts it at the requested destination; the inverse of every operation
(insert, delete, assign, move, Text edit, add) restores the content and every
identity, and so does the inverse of a whole Change; composing two Changes
keeps their effect, and is empty where they cancel; and inverting or
composing Changes that apply succeeds within the operation limits; undoing a
local edit restores the content (`history.rs`). For the recursive model,
`transform_law.rs` proves convergence of `transform_pair` for Changes
without List Changes.

Around this core: snapshot paths, stable error codes and structured errors,
element identities with their 48-digit text form and monotonic allocation,
RichText attribute sets and patches (applying two patches in turn is applying
their composition), receiver input limits, text metrics, the binary envelope
of typed payloads and the decoding of the wire primitives and Text change
bodies of untrusted change input.

Layout: `src/` is the verified library (`model.rs` holds the step semantics the
Text algebra is proved against, `laws.rs` the laws that relate several
operations, `content.rs`, `structure.rs`, `apply_change.rs` and
`invert_change.rs` the recursive model, `tree.rs`, `operation*.rs`,
`tree_laws.rs`, `structure_laws.rs`, `unique_ids.rs`, `engine_transform.rs`,
`sync.rs` and `history.rs` the identity-addressed model),
`tests/` its tests, and `app/` what stays outside the verified code: the
conversions between `f64` and its bit pattern, and the per-thread element ID
allocator with its scope.
