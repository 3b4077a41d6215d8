//! Receiver-defined resource limits for untrusted input.
use crate::error::CodecError;
use vstd::prelude::*;

verus! {

/// Receiver-defined resource limits for untrusted Value and Change input.
///
/// Limits do not define the maximum valid in-memory value and are not applied
/// to algebra results.
#[derive(Debug, Clone, PartialEq, Eq, Structural)]
pub struct InputLimits {
    /// Maximum recursive depth of Value and Change nodes.
    pub max_depth: usize,
    /// Maximum number of Value nodes in one input.
    pub max_value_nodes: usize,
    /// Maximum number of Change nodes in one input.
    pub max_change_nodes: usize,
    /// Maximum number of entries in one container.
    pub max_container_len: usize,
    /// Maximum UTF-8 byte length of one string.
    pub max_string_bytes: usize,
    /// Maximum number of operations in one sequence Change.
    pub max_sequence_ops: usize,
    /// Maximum logical input or output length of a sequence.
    pub max_sequence_len: usize,
}

/// The limits a receiver applies when it configures nothing else.
pub open spec fn default_limits() -> InputLimits {
    InputLimits {
        max_depth: 128,
        max_value_nodes: 1_000_000,
        max_change_nodes: 1_000_000,
        max_container_len: 1_000_000,
        max_string_bytes: 16_777_216,
        max_sequence_ops: 1_000_000,
        max_sequence_len: 1_000_000,
    }
}

impl Default for InputLimits {
    fn default() -> (l: Self)
        ensures
            l == default_limits(),
    {
        InputLimits {
            max_depth: 128,
            max_value_nodes: 1_000_000,
            max_change_nodes: 1_000_000,
            max_container_len: 1_000_000,
            max_string_bytes: 16 * 1024 * 1024,
            max_sequence_ops: 1_000_000,
            max_sequence_len: 1_000_000,
        }
    }
}

} // verus!

verus! {

/// Refuses `actual` above `limit` as a codec limit failure.
pub fn check_limit(name: &'static str, actual: usize, limit: usize) -> (r: Result<(), CodecError>)
    ensures
        actual <= limit ==> r is Ok,
        actual > limit ==> r == Err::<(), CodecError>(CodecError::LimitExceeded { name, actual, limit }),
{
    if actual > limit {
        Err(CodecError::LimitExceeded { name, actual, limit })
    } else {
        Ok(())
    }
}

/// Adds `amount` to a running sequence length within the sequence limit.
pub fn add_len(current: usize, amount: usize, limits: &InputLimits) -> (r: Result<usize, CodecError>)
    ensures
        current + amount > usize::MAX ==> r == Err::<usize, CodecError>(
            CodecError::LimitExceeded {
                name: "sequence length",
                actual: usize::MAX,
                limit: limits.max_sequence_len,
            },
        ),
        current + amount <= usize::MAX && current + amount > limits.max_sequence_len ==> r
            == Err::<usize, CodecError>(
            CodecError::LimitExceeded {
                name: "sequence length",
                actual: (current + amount) as usize,
                limit: limits.max_sequence_len,
            },
        ),
        current + amount <= limits.max_sequence_len ==> r == Ok::<usize, CodecError>(
            (current + amount) as usize,
        ),
{
    let value = match current.checked_add(amount) {
        Some(v) => v,
        None => {
            return Err(
                CodecError::LimitExceeded {
                    name: "sequence length",
                    actual: usize::MAX,
                    limit: limits.max_sequence_len,
                },
            );
        },
    };
    check_limit("sequence length", value, limits.max_sequence_len)?;
    Ok(value)
}

} // verus!
