//! The typed version-2 binary envelope around a canonical payload.
//!
//! An envelope is the magic `COLLA`, the version as a little-endian `u16`,
//! one byte naming the payload kind, and the payload.
use crate::error::{CollaError, ErrorCode};
use vstd::prelude::*;

verus! {

/// The envelope format version.
pub const ENVELOPE_VERSION: u16 = 2;

/// The eight header bytes of an envelope holding a payload of `kind`.
pub open spec fn envelope_header(kind: u8) -> Seq<u8> {
    seq![0x43u8, 0x4fu8, 0x4cu8, 0x4cu8, 0x41u8, 2u8, 0u8, kind]
}

/// Frames `payload` as an envelope of `kind`.
pub fn encode_envelope(kind: u8, payload: &[u8]) -> (bytes: Vec<u8>)
    ensures
        bytes@ == envelope_header(kind) + payload@,
{
    let mut bytes: Vec<u8> = Vec::new();
    bytes.push(0x43);
    bytes.push(0x4f);
    bytes.push(0x4c);
    bytes.push(0x4c);
    bytes.push(0x41);
    bytes.push((ENVELOPE_VERSION % 256) as u8);
    bytes.push((ENVELOPE_VERSION / 256) as u8);
    bytes.push(kind);
    let ghost header = bytes@;
    proof {
        assert(header =~= envelope_header(kind));
    }
    let mut i: usize = 0;
    while i < payload.len()
        invariant
            i <= payload@.len(),
            header == envelope_header(kind),
            bytes@ == header + payload@.take(i as int),
        decreases payload@.len() - i,
    {
        bytes.push(payload[i]);
        proof {
            assert(payload@.take(i + 1) =~= payload@.take(i as int).push(payload@[i as int]));
        }
        i = i + 1;
    }
    proof {
        assert(payload@.take(i as int) =~= payload@);
    }
    bytes
}

/// Checks the header of an envelope of `kind` and returns its payload.
pub fn decode_envelope(kind: u8, bytes: &[u8]) -> (r: Result<&[u8], CollaError>)
    ensures
        r is Ok <==> bytes@.len() >= 8 && bytes@.take(8) == envelope_header(kind),
        r matches Ok(payload) ==> payload@ == bytes@.skip(8),
        r matches Err(e) ==> e.code == ErrorCode::InvalidEncoding,
{
    if bytes.len() < 8 || bytes[0] != 0x43 || bytes[1] != 0x4f || bytes[2] != 0x4c || bytes[3]
        != 0x4c || bytes[4] != 0x41 || bytes[5] != 2 || bytes[6] != 0 || bytes[7] != kind {
        proof {
            if bytes@.len() >= 8 && bytes@.take(8) == envelope_header(kind) {
                assert(bytes@.take(8)[7] == kind);
                assert(bytes@.take(8)[0] == 0x43u8);
            }
        }
        return Err(
            CollaError::new(ErrorCode::InvalidEncoding, "invalid envelope magic, version, or kind"),
        );
    }
    proof {
        assert(bytes@.take(8) =~= envelope_header(kind));
    }
    let (_, payload) = bytes.split_at(8);
    Ok(payload)
}

/// Decoding an envelope of the kind it was encoded with gives the payload back.
pub proof fn lemma_envelope_roundtrip(kind: u8, payload: Seq<u8>)
    ensures
        (envelope_header(kind) + payload).len() >= 8,
        (envelope_header(kind) + payload).take(8) == envelope_header(kind),
        (envelope_header(kind) + payload).skip(8) == payload,
{
    assert((envelope_header(kind) + payload).take(8) =~= envelope_header(kind));
    assert((envelope_header(kind) + payload).skip(8) =~= payload);
}

/// An envelope is refused under any kind but the one it was encoded with.
pub proof fn lemma_envelope_kind_checked(kind: u8, other: u8, payload: Seq<u8>)
    requires
        kind != other,
    ensures
        (envelope_header(kind) + payload).take(8) != envelope_header(other),
{
    assert((envelope_header(kind) + payload).take(8)[7] == kind);
}

} // verus!
