use vstd::prelude::*;

verus! {

/// The little-endian value of two bytes.
pub open spec fn le_u16_spec(b0: u8, b1: u8) -> u16 {
    (b0 as u16 | (b1 as u16) << 8u16) as u16
}

/// The little-endian value of four bytes.
pub open spec fn le_u32_spec(b0: u8, b1: u8, b2: u8, b3: u8) -> u32 {
    (b0 as u32 | (b1 as u32) << 8u32 | (b2 as u32) << 16u32 | (b3 as u32) << 24u32) as u32
}

/// The little-endian `u16` that starts at `offset` in `s`.
pub open spec fn u16_at(s: Seq<u8>, offset: int) -> u16 {
    le_u16_spec(s[offset], s[offset + 1])
}

/// The little-endian `u32` that starts at `offset` in `s`.
pub open spec fn u32_at(s: Seq<u8>, offset: int) -> u32 {
    le_u32_spec(s[offset], s[offset + 1], s[offset + 2], s[offset + 3])
}

/// Reads a little-endian `u32` at `offset`, or `None` past the end.
pub fn read_u32_le(bytes: &[u8], offset: usize) -> (r: Option<u32>)
    ensures
        r is Some <==> offset + 4 <= bytes@.len(),
        r matches Some(v) ==> v == u32_at(bytes@, offset as int),
{
    if offset > bytes.len() || bytes.len() - offset < 4 {
        return None;
    }
    Some(
        (bytes[offset] as u32) | ((bytes[offset + 1] as u32) << 8u32) | ((bytes[offset + 2] as u32)
            << 16u32) | ((bytes[offset + 3] as u32) << 24u32),
    )
}

/// The little-endian `u16` at `offset`, which lies inside `bytes`.
pub fn u16_le_at(bytes: &[u8], offset: usize) -> (r: u16)
    requires
        offset + 2 <= bytes@.len(),
    ensures
        r == u16_at(bytes@, offset as int),
{
    (bytes[offset] as u16) | ((bytes[offset + 1] as u16) << 8u16)
}

/// The little-endian `u32` at `offset`, which lies inside `bytes`.
pub fn u32_le_at(bytes: &[u8], offset: usize) -> (r: u32)
    requires
        offset + 4 <= bytes@.len(),
    ensures
        r == u32_at(bytes@, offset as int),
{
    (bytes[offset] as u32) | ((bytes[offset + 1] as u32) << 8u32) | ((bytes[offset + 2] as u32)
        << 16u32) | ((bytes[offset + 3] as u32) << 24u32)
}

} // verus!
