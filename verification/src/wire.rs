//! The byte order of multi-byte integers, on the medium and on the register
//! interface alike: little-endian, least significant byte first.

use vstd::prelude::*;

verus! {

/// The four bytes of `x`, least significant first.
pub open spec fn le_bytes(x: u32) -> Seq<u8> {
    seq![
        (x % 0x100) as u8,
        (x / 0x100 % 0x100) as u8,
        (x / 0x1_0000 % 0x100) as u8,
        (x / 0x100_0000) as u8,
    ]
}

/// The integer whose little-endian bytes are the first four of `bytes`.
pub open spec fn le_value(bytes: Seq<u8>) -> u32 {
    (bytes[0] + 0x100 * bytes[1] + 0x1_0000 * bytes[2] + 0x100_0000 * bytes[3]) as u32
}

/// Splits `x` into its little-endian bytes.
pub fn to_le(x: u32) -> (bytes: [u8; 4])
    ensures
        bytes@ == le_bytes(x),
{
    let bytes = [
        (x % 0x100) as u8,
        (x / 0x100 % 0x100) as u8,
        (x / 0x1_0000 % 0x100) as u8,
        (x / 0x100_0000) as u8,
    ];
    assert(bytes@ =~= le_bytes(x));
    bytes
}

/// Assembles an integer from its little-endian bytes.
pub fn from_le(b0: u8, b1: u8, b2: u8, b3: u8) -> (x: u32)
    ensures
        x == le_value(seq![b0, b1, b2, b3]),
{
    b0 as u32 + 0x100 * (b1 as u32) + 0x1_0000 * (b2 as u32) + 0x100_0000 * (b3 as u32)
}

/// Splitting and assembling are inverse to each other.
pub proof fn lemma_le_round_trip(x: u32, bytes: Seq<u8>)
    ensures
        le_bytes(x).len() == 4,
        le_value(le_bytes(x)) == x,
        bytes.len() == 4 ==> le_bytes(le_value(bytes)) == bytes,
{
    assert(x % 0x100 + 0x100 * (x / 0x100 % 0x100) + 0x1_0000 * (x / 0x1_0000 % 0x100) + 0x100_0000
        * (x / 0x100_0000) == x && x / 0x100_0000 < 0x100) by (bit_vector);
    if bytes.len() == 4 {
        let b0 = bytes[0];
        let b1 = bytes[1];
        let b2 = bytes[2];
        let b3 = bytes[3];
        let v = le_value(bytes);
        assert(v == b0 + 0x100 * b1 + 0x1_0000 * b2 + 0x100_0000 * b3);
        assert(v == b0 + 0x100 * b1 + 0x1_0000 * b2 + 0x100_0000 * b3 ==> v % 0x100 == b0 && v
            / 0x100 % 0x100 == b1 && v / 0x1_0000 % 0x100 == b2 && v / 0x100_0000 == b3)
            by (bit_vector);
        assert(le_bytes(v) =~= bytes);
    }
}

} // verus!
