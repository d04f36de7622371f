//! Object ids in hexadecimal, as the `gix-hash` crate writes them.

use vstd::prelude::*;
use vstd::utf8::encode_utf8;

use crate::metadata::refs::is_direct;
use crate::object::ObjectId;

verus! {

/// The lower-case hexadecimal digit for `value`.
pub open spec fn hex_digit(value: nat) -> char {
    if value < 10 {
        (0x30 + value) as char
    } else {
        (0x57 + value) as char
    }
}

/// `bytes` in lower-case hexadecimal, two digits each.
pub open spec fn hex_of(bytes: Seq<u8>) -> Seq<char> {
    Seq::new(
        2 * bytes.len(),
        |i: int|
            if i % 2 == 0 {
                hex_digit(bytes[i / 2] as nat / 16)
            } else {
                hex_digit(bytes[i / 2] as nat % 16)
            },
    )
}

/// Calls `gix_hash::ObjectId::to_hex` for an id: its twenty bytes in lower-case
/// hexadecimal.
#[verifier::external_body]
pub(crate) fn hex(id: ObjectId) -> (r: String)
    ensures
        r@ == hex_of(id.bytes()),
{
    let bytes = [&id.high.to_be_bytes()[..], &id.low.to_be_bytes()[..]].concat();
    gix_hash::ObjectId::from_bytes_or_panic(&bytes).to_hex().to_string()
}

/// The value of a hexadecimal digit of either case.
pub open spec fn digit_value(digit: u8) -> nat {
    if digit < 0x3a {
        (digit - 0x30) as nat
    } else if digit < 0x47 {
        (digit - 0x37) as nat
    } else {
        (digit - 0x57) as nat
    }
}

/// The id that forty hexadecimal digits spell; none for anything else.
pub open spec fn id_spelled(text: Seq<char>) -> Option<ObjectId> {
    let digits = encode_utf8(text);
    if is_direct(text) {
        Some(
            ObjectId::spelled(
                Seq::new(
                    20,
                    |i: int|
                        (16 * digit_value(digits[2 * i]) + digit_value(digits[2 * i + 1])) as u8,
                ),
            ),
        )
    } else {
        None
    }
}

/// Calls `gix_hash::ObjectId::from_hex`: the id that forty digits of either
/// case spell. An id of another length is none of this library's.
#[verifier::external_body]
pub(crate) fn id_from_hex(text: &str) -> (id: Option<ObjectId>)
    ensures
        id == id_spelled(text@),
{
    let id = gix_hash::ObjectId::from_hex(text.as_bytes()).ok()?;
    let bytes: [u8; 20] = id.as_slice().try_into().ok()?;
    let (high, low) = bytes.split_at(16);
    Some(
        ObjectId {
            high: u128::from_be_bytes(high.try_into().ok()?),
            low: u32::from_be_bytes(low.try_into().ok()?),
        },
    )
}

} // verus!
