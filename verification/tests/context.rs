use colla::limits::{add_len, check_limit};
use colla::{CodecError, Context, InputLimits};

#[test]
fn context_owns_default_or_explicit_limits() {
    let default = Context::default();
    assert_eq!(default.limits(), &InputLimits::default());

    let limits = InputLimits {
        max_string_bytes: 32,
        ..InputLimits::default()
    };
    let expected = limits.clone();
    let context = Context::new(limits);
    assert_eq!(context.limits(), &expected);
}

#[test]
fn default_limits_have_documented_values() {
    let limits = InputLimits::default();
    assert_eq!(limits.max_depth, 128);
    assert_eq!(limits.max_value_nodes, 1_000_000);
    assert_eq!(limits.max_change_nodes, 1_000_000);
    assert_eq!(limits.max_container_len, 1_000_000);
    assert_eq!(limits.max_string_bytes, 16 * 1024 * 1024);
    assert_eq!(limits.max_sequence_ops, 1_000_000);
    assert_eq!(limits.max_sequence_len, 1_000_000);
}

#[test]
fn codec_length_accumulation_respects_the_sequence_limit() {
    let limits = InputLimits {
        max_sequence_len: 10,
        ..InputLimits::default()
    };
    assert_eq!(add_len(4, 6, &limits), Ok(10));
    assert_eq!(
        add_len(4, 7, &limits),
        Err(CodecError::LimitExceeded { name: "sequence length", actual: 11, limit: 10 })
    );
    assert_eq!(
        add_len(usize::MAX, 1, &limits),
        Err(CodecError::LimitExceeded { name: "sequence length", actual: usize::MAX, limit: 10 })
    );
    assert_eq!(check_limit("x", 1, 1), Ok(()));
}
