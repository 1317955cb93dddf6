//! Hashes and roots as text: two lowercase hexadecimal digits for each byte.

use vstd::prelude::*;

verus! {

/// The sixteen hexadecimal digits, in order.
pub open spec fn hex_digits() -> Seq<char> {
    seq!['0', '1', '2', '3', '4', '5', '6', '7', '8', '9', 'a', 'b', 'c', 'd', 'e', 'f']
}

/// The hexadecimal text of a byte string: for each byte its high digit, then
/// its low digit.
pub open spec fn hex_string(bytes: Seq<u8>) -> Seq<char> {
    Seq::new(
        2 * bytes.len(),
        |i: int|
            if i % 2 == 0 {
                hex_digits()[bytes[i / 2] as int / 16]
            } else {
                hex_digits()[bytes[i / 2] as int % 16]
            },
    )
}

/// `hex::encode` of the `hex` crate: it writes each byte as two digits taken
/// from `0123456789abcdef`, the high half of the byte first.
#[verifier::external_body]
fn hex_encode(bytes: &[u8; 32]) -> (r: String)
    ensures
        r@ == hex_string(bytes@),
{
    hex::encode(bytes)
}

/// The 64 hexadecimal digits of a 32-byte string.
pub fn to_hex(bytes: &[u8; 32]) -> (r: String)
    ensures
        r@ == hex_string(bytes@),
        r@.len() == 64,
{
    hex_encode(bytes)
}

} // verus!
