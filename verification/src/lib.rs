//! Collaborative structured-content algebra: identity-bearing content trees
//! with identity-addressed operations (apply, compose, invert, transform),
//! client and server synchronization and undo/redo history, immutable
//! Values and recursive Changes with a verified apply, canonical Text changes
//! with verified apply, compose, transform and invert, together with paths,
//! errors, element identities, input limits and the decoding of the wire
//! primitives and Text change bodies of untrusted input.
use vstd::prelude::*;

pub mod apply;
pub mod apply_change;
pub mod attrs;
pub mod change;
pub mod compose;
pub mod compose_change;
pub mod compose_law;
pub mod content;
pub mod context;
pub mod engine;
pub mod engine_transform;
pub mod edit_steps;
pub mod envelope;
pub mod fits;
pub mod error;
pub mod history;
pub mod identity;
pub mod input;
pub mod inspect;
pub mod invert;
pub mod invert_change;
pub mod invert_law;
pub mod keyed;
pub mod keys;
pub mod laws;
pub mod limits;
pub mod model;
pub mod normal_fit;
pub mod operation;
pub mod operation_compose;
pub mod operation_compose_law;
pub mod operation_invert;
pub mod operation_laws;
pub mod path;
pub mod richtext;
pub mod runs;
pub mod structure;
pub mod structure_laws;
pub mod sync;
mod reader;
mod text_buf;
pub mod transform;
pub mod transform_change;
pub mod transform_law;
pub mod list_transform_law;
pub mod list_converge;
pub mod tree;
pub mod tree_laws;
pub mod unique_ids;
pub mod value;

pub use apply::apply_text;
pub use apply_change::apply;
pub use change::{IntChange, TextChange, TextOp, TieBreak};
pub use compose::compose_text;
pub use compose_change::compose;
pub use content::{KeyMap, List, Value, ValueKind};
pub use context::Context;
pub use error::{
    ApplyError, CodecError, CollaError, ComposeError, Details, ErrorCode, InvertError, TransformError,
    Utf16PositionError, ValueError,
};
pub use identity::{ElementId, IdAllocator};
pub use edit_steps::{edit_steps, EditStep, ListEditStep, TextEditStep};
pub use inspect::{inspect_change, InspectEntry};
pub use invert::invert_text;
pub use invert_change::invert;
pub use limits::InputLimits;
pub use path::{Path, PathSeg};
pub use structure::{Change, ChangeKind, ListChange, ListOp, MapChange, MapEntryChange};
pub use transform::transform_text;
pub use transform_change::transform_pair;
pub use value::{Text, ValueType};

