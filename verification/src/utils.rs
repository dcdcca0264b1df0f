use vstd::prelude::*;

use crate::error::PngError;

verus! {

/// The unsigned value of a 4-byte big-endian sequence.
pub open spec fn be32(s: Seq<u8>) -> u32
    recommends
        s.len() == 4,
{
    ((s[0] as int) * 0x100_0000 + (s[1] as int) * 0x1_0000 + (s[2] as int) * 0x100 + (
    s[3] as int)) as u32
}

/// The unsigned value of a 2-byte big-endian sequence.
pub open spec fn be16(s: Seq<u8>) -> u16
    recommends
        s.len() == 2,
{
    ((s[0] as int) * 0x100 + (s[1] as int)) as u16
}

/// The 4-byte big-endian encoding of a 32-bit value.
pub open spec fn be32_bytes(v: u32) -> Seq<u8> {
    seq![
        (v as int / 0x100_0000) as u8,
        ((v as int / 0x1_0000) % 0x100) as u8,
        ((v as int / 0x100) % 0x100) as u8,
        ((v as int) % 0x100) as u8,
    ]
}

/// What `slice_to_u32` returns: the big-endian value of a slice of exactly
/// 4 bytes, and a `LengthMismatch` failure on any other width.
pub open spec fn spec_slice_to_u32(s: Seq<u8>) -> Result<u32, PngError> {
    if s.len() == 4 {
        Ok(be32(s))
    } else {
        Err(PngError::LengthMismatch)
    }
}

/// What `slice_to_u16` returns: the big-endian value of a slice of exactly
/// 2 bytes, and a `LengthMismatch` failure on any other width.
pub open spec fn spec_slice_to_u16(s: Seq<u8>) -> Result<u16, PngError> {
    if s.len() == 2 {
        Ok(be16(s))
    } else {
        Err(PngError::LengthMismatch)
    }
}

/// Interprets a slice of exactly 4 bytes as a big-endian unsigned 32-bit
/// integer; any other width is a `LengthMismatch` failure.
pub fn slice_to_u32(slice: &[u8]) -> (r: Result<u32, PngError>)
    ensures
        r == spec_slice_to_u32(slice@),
{
    if slice.len() == 4 {
        Ok((slice[0] as u32) * 0x100_0000 + (slice[1] as u32) * 0x1_0000 + (slice[2] as u32) * 0x100
            + (slice[3] as u32))
    } else {
        Err(PngError::LengthMismatch)
    }
}

/// Interprets a slice of exactly 2 bytes as a big-endian unsigned 16-bit
/// integer; any other width is a `LengthMismatch` failure.
pub fn slice_to_u16(slice: &[u8]) -> (r: Result<u16, PngError>)
    ensures
        r == spec_slice_to_u16(slice@),
{
    if slice.len() == 2 {
        Ok((slice[0] as u16) * 0x100 + (slice[1] as u16))
    } else {
        Err(PngError::LengthMismatch)
    }
}

/// Decoding 4 bytes big-endian and re-encoding the value gives the bytes back.
pub proof fn lemma_be32_decode_encode(s: Seq<u8>)
    requires
        s.len() == 4,
    ensures
        be32_bytes(be32(s)) == s,
{
    let b0 = s[0];
    let b1 = s[1];
    let b2 = s[2];
    let b3 = s[3];
    let v = be32(s);
    assert(v == (b0 as int) * 0x100_0000 + (b1 as int) * 0x1_0000 + (b2 as int) * 0x100 + (
    b3 as int));
    assert((v as int / 0x100_0000) as u8 == b0 && ((v as int / 0x1_0000) % 0x100) as u8 == b1 && ((
    v as int / 0x100) % 0x100) as u8 == b2 && ((v as int) % 0x100) as u8 == b3) by {
        let w = (b0 as int) * 0x100_0000 + (b1 as int) * 0x1_0000 + (b2 as int) * 0x100 + (
        b3 as int);
        assert(w / 0x100_0000 == b0 as int && (w / 0x1_0000) % 0x100 == b1 as int && (w / 0x100)
            % 0x100 == b2 as int && w % 0x100 == b3 as int) by (nonlinear_arith)
            requires
                0 <= b0 < 256 && 0 <= b1 < 256 && 0 <= b2 < 256 && 0 <= b3 < 256 && w == (
                b0 as int) * 0x100_0000 + (b1 as int) * 0x1_0000 + (b2 as int) * 0x100 + (b3 as int),
        ;
    }
    assert(be32_bytes(be32(s)) =~= s);
}

/// Encoding a 32-bit value big-endian and decoding the bytes gives the value back.
pub proof fn lemma_be32_encode_decode(v: u32)
    ensures
        be32(be32_bytes(v)) == v,
{
    let x = v as int;
    assert((x / 0x100_0000) * 0x100_0000 + ((x / 0x1_0000) % 0x100) * 0x1_0000 + ((x / 0x100)
        % 0x100) * 0x100 + x % 0x100 == x) by (nonlinear_arith)
        requires
            0 <= x < 0x1_0000_0000,
    ;
}

} // verus!
