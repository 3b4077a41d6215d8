use colla::attrs::{AttrValue, Attrs};
use colla::input::{ChangeInputError, Decoder, SequenceLengths};
use colla::{InputLimits, TextOp, ValueError};

fn put_varint(mut value: u64, bytes: &mut Vec<u8>) {
    while value >= 0x80 {
        bytes.push(value as u8 | 0x80);
        value >>= 7;
    }
    bytes.push(value as u8);
}

fn put_string(value: &str, bytes: &mut Vec<u8>) {
    put_varint(value.len() as u64, bytes);
    bytes.extend_from_slice(value.as_bytes());
}

#[test]
fn varints_decode_up_to_ten_bytes() {
    let limits = InputLimits::default();
    for value in [0u64, 1, 127, 128, 300, u32::MAX as u64, u64::MAX] {
        let mut bytes = Vec::new();
        put_varint(value, &mut bytes);
        let mut d = Decoder::new(&bytes, &limits);
        assert_eq!(d.varint(), Ok(value));
        assert_eq!(d.offset(), bytes.len());
    }
}

#[test]
fn varints_refuse_an_eleventh_bit_group_and_truncation() {
    let limits = InputLimits::default();
    let mut bytes = vec![0xff; 9];
    bytes.push(2);
    let mut d = Decoder::new(&bytes, &limits);
    assert_eq!(
        d.varint(),
        Err(ChangeInputError::Encoding { offset: 0, reason: "integer is out of range" })
    );
    let bytes = [0x80, 0x80];
    let mut d = Decoder::new(&bytes, &limits);
    assert_eq!(
        d.varint(),
        Err(ChangeInputError::Encoding { offset: 2, reason: "unexpected end of ChangeInput" })
    );
}

#[test]
fn signed_integers_are_zigzag_encoded() {
    let limits = InputLimits::default();
    for (raw, value) in [(0u64, 0i64), (1, -1), (2, 1), (3, -2), (u64::MAX, i64::MIN), (u64::MAX - 1, i64::MAX)] {
        let mut bytes = Vec::new();
        put_varint(raw, &mut bytes);
        let mut d = Decoder::new(&bytes, &limits);
        assert_eq!(d.i64(), Ok(value));
    }
}

#[test]
fn strings_respect_the_byte_limit_and_utf8() {
    let limits = InputLimits { max_string_bytes: 4, ..InputLimits::default() };
    let mut bytes = Vec::new();
    put_string("añb", &mut bytes);
    let mut d = Decoder::new(&bytes, &limits);
    assert_eq!(d.string().unwrap(), "añb");

    let mut bytes = Vec::new();
    put_string("abcde", &mut bytes);
    let mut d = Decoder::new(&bytes, &limits);
    assert_eq!(
        d.string(),
        Err(ChangeInputError::Limit { name: "string bytes", actual: 5, maximum: 4 })
    );

    let bytes = [2u8, 0xc3, 0x28];
    let mut d = Decoder::new(&bytes, &limits);
    assert_eq!(
        d.string(),
        Err(ChangeInputError::Encoding { offset: 3, reason: "invalid UTF-8" })
    );
}

#[test]
fn exact_reads_refuse_running_past_the_end() {
    let limits = InputLimits::default();
    let bytes = [1u8, 2, 3];
    let mut d = Decoder::new(&bytes, &limits);
    assert_eq!(d.exact(2), Ok(&bytes[..2]));
    assert_eq!(
        d.exact(2),
        Err(ChangeInputError::Encoding { offset: 2, reason: "unexpected end of ChangeInput" })
    );
    assert_eq!(d.byte(), Ok(3));
    assert_eq!(
        d.byte(),
        Err(ChangeInputError::Encoding { offset: 3, reason: "unexpected end of ChangeInput" })
    );
    assert_eq!(
        d.exact(usize::MAX),
        Err(ChangeInputError::Encoding { offset: 3, reason: "length overflow" })
    );
}

#[test]
fn counts_and_depths_are_held_to_limits() {
    let limits = InputLimits { max_depth: 2, max_container_len: 3, ..InputLimits::default() };
    let bytes = [4u8];
    let mut d = Decoder::new(&bytes, &limits);
    assert_eq!(
        d.count("container length", limits.max_container_len),
        Err(ChangeInputError::Limit { name: "container length", actual: 4, maximum: 3 })
    );
    assert_eq!(d.check_depth(2), Ok(()));
    assert_eq!(
        d.check_depth(3),
        Err(ChangeInputError::Limit { name: "input depth", actual: 3, maximum: 2 })
    );
    assert_eq!(d.check_string("ab"), Ok(()));
    assert_eq!(
        d.encoding_at(7, "why"),
        ChangeInputError::Encoding { offset: 7, reason: "why" }
    );
    assert_eq!(d.encoding("why"), ChangeInputError::Encoding { offset: 1, reason: "why" });
    assert_eq!(
        d.limit_error("n", 1, 0),
        ChangeInputError::Limit { name: "n", actual: 1, maximum: 0 }
    );
}

#[test]
fn attribute_values_decode_by_tag() {
    let limits = InputLimits::default();
    let mut bytes = vec![0u8, 1, 2];
    put_varint(3, &mut bytes);
    bytes.push(3);
    bytes.extend_from_slice(&1.5f64.to_le_bytes());
    bytes.push(3);
    bytes.extend_from_slice(&(-0.0f64).to_le_bytes());
    bytes.push(4);
    put_string("red", &mut bytes);
    let mut d = Decoder::new(&bytes, &limits);
    assert_eq!(d.attr_value(), Ok(AttrValue::Bool(false)));
    assert_eq!(d.attr_value(), Ok(AttrValue::Bool(true)));
    assert_eq!(d.attr_value(), Ok(AttrValue::Int(-2)));
    match d.attr_value() {
        Ok(AttrValue::Float(f)) => assert_eq!(f64::from_bits(f.to_bits()), 1.5),
        other => panic!("unexpected {other:?}"),
    }
    match d.attr_value() {
        Ok(AttrValue::Float(f)) => assert_eq!(f.to_bits(), 0),
        other => panic!("unexpected {other:?}"),
    }
    assert_eq!(d.attr_value(), Ok(AttrValue::String("red".into())));

    let mut bytes = vec![3u8];
    bytes.extend_from_slice(&f64::NAN.to_le_bytes());
    bytes.push(9);
    let mut d = Decoder::new(&bytes, &limits);
    assert_eq!(d.attr_value(), Err(ChangeInputError::Value(ValueError::NonFiniteFloat)));
    assert_eq!(
        d.attr_value(),
        Err(ChangeInputError::Encoding { offset: 10, reason: "unknown attribute value type" })
    );
}

#[test]
fn normalizes_raw_text_operations() {
    let mut bytes = Vec::new();
    put_varint(5, &mut bytes);
    bytes.push(0);
    put_varint(0, &mut bytes);
    bytes.push(1);
    put_string("a", &mut bytes);
    bytes.push(1);
    put_string("b", &mut bytes);
    bytes.push(2);
    put_varint(0, &mut bytes);
    bytes.push(0);
    put_varint(9, &mut bytes);

    let limits = InputLimits::default();
    let mut d = Decoder::new(&bytes, &limits);
    let change = d.text_change().unwrap();
    assert_eq!(change.ops(), &[TextOp::Insert("ab".into())]);
    assert_eq!(d.offset(), bytes.len());
}

#[test]
fn applies_sequence_limits_before_normalization() {
    let mut bytes = Vec::new();
    put_varint(2, &mut bytes);
    bytes.push(0);
    put_varint(2, &mut bytes);
    bytes.push(2);
    put_varint(2, &mut bytes);
    let limits = InputLimits {
        max_sequence_len: 3,
        ..InputLimits::default()
    };
    let mut d = Decoder::new(&bytes, &limits);
    assert_eq!(
        d.text_change().unwrap_err(),
        ChangeInputError::Limit { name: "sequence length", actual: 4, maximum: 3 }
    );
}

#[test]
fn text_change_refuses_unknown_operations_and_too_many_ops() {
    let limits = InputLimits { max_sequence_ops: 1, ..InputLimits::default() };
    let bytes = [2u8];
    let mut d = Decoder::new(&bytes, &limits);
    assert_eq!(
        d.text_change().unwrap_err(),
        ChangeInputError::Limit { name: "sequence ops", actual: 2, maximum: 1 }
    );
    let bytes = [1u8, 7];
    let mut d = Decoder::new(&bytes, &limits);
    assert_eq!(
        d.text_change().unwrap_err(),
        ChangeInputError::Encoding { offset: 2, reason: "unknown TextChange operation" }
    );
}

#[test]
fn sequence_lengths_track_input_and_output() {
    let limits = InputLimits { max_sequence_len: 5, ..InputLimits::default() };
    let bytes: [u8; 0] = [];
    let d = Decoder::new(&bytes, &limits);
    let mut lengths = SequenceLengths::new();
    assert_eq!(lengths.retain(2, &d), Ok(()));
    assert_eq!(lengths.insert(3, &d), Ok(()));
    assert_eq!(lengths.delete(3, &d), Ok(()));
    assert_eq!(
        lengths.insert(1, &d),
        Err(ChangeInputError::Limit { name: "sequence length", actual: 6, maximum: 5 })
    );
}

#[test]
fn attribute_sets_are_held_to_container_and_string_limits() {
    let attrs = Attrs::from_entries(vec![
        ("bold".to_string(), AttrValue::Bool(true)),
        ("font".to_string(), AttrValue::String("serif".to_string())),
    ])
    .unwrap();
    let bytes: [u8; 0] = [];
    let roomy = InputLimits::default();
    assert_eq!(Decoder::new(&bytes, &roomy).count_attrs(&attrs), Ok(()));
    let few = InputLimits { max_container_len: 1, ..InputLimits::default() };
    assert_eq!(
        Decoder::new(&bytes, &few).count_attrs(&attrs),
        Err(ChangeInputError::Limit { name: "container length", actual: 2, maximum: 1 })
    );
    let short = InputLimits { max_string_bytes: 4, ..InputLimits::default() };
    assert_eq!(
        Decoder::new(&bytes, &short).count_attrs(&attrs),
        Err(ChangeInputError::Limit { name: "string bytes", actual: 5, maximum: 4 })
    );
}
