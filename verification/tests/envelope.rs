use colla::envelope::{decode_envelope, encode_envelope};
use colla::ErrorCode;

#[test]
fn envelopes_frame_a_typed_payload() {
    let bytes = encode_envelope(7, &[1, 2, 3]);
    assert_eq!(bytes, b"COLLA\x02\x00\x07\x01\x02\x03".to_vec());
    assert_eq!(decode_envelope(7, &bytes).unwrap(), &[1, 2, 3]);
}

#[test]
fn envelopes_refuse_wrong_kind_version_magic_or_length() {
    let bytes = encode_envelope(7, &[]);
    assert_eq!(decode_envelope(7, &bytes).unwrap(), &[] as &[u8]);
    assert_eq!(decode_envelope(8, &bytes).unwrap_err().code, ErrorCode::InvalidEncoding);
    let mut other_version = bytes.clone();
    other_version[5] = 1;
    assert_eq!(
        decode_envelope(7, &other_version).unwrap_err().code,
        ErrorCode::InvalidEncoding
    );
    assert_eq!(
        decode_envelope(7, b"COLLB\x02\x00\x07").unwrap_err().code,
        ErrorCode::InvalidEncoding
    );
    assert_eq!(decode_envelope(7, b"COLLA\x02\x00").unwrap_err().code, ErrorCode::InvalidEncoding);
}
