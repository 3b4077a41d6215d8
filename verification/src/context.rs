//! An immutable operation facade that owns one set of resource limits.
use crate::limits::{default_limits, InputLimits};
use vstd::prelude::*;

verus! {

/// Immutable operation facade that applies one shared set of resource limits.
///
/// `Context` contains no document, session, or mutable application state.
#[derive(Debug, Clone, PartialEq, Eq, Structural)]
pub struct Context {
    limits: InputLimits,
}

impl Context {
    /// The limits this facade applies.
    pub closed spec fn limits_spec(&self) -> InputLimits {
        self.limits
    }

    /// Creates a facade that uses `limits` for every operation.
    pub fn new(limits: InputLimits) -> (c: Context)
        ensures
            c.limits_spec() == limits,
    {
        Context { limits }
    }

    /// Returns the immutable limits owned by this facade.
    pub fn limits(&self) -> (l: &InputLimits)
        ensures
            *l == self.limits_spec(),
    {
        &self.limits
    }
}

impl Default for Context {
    fn default() -> (c: Self)
        ensures
            c.limits_spec() == default_limits(),
    {
        Context::new(InputLimits::default())
    }
}

} // verus!
