//! Hashing and hexadecimal text, as the `sha2` and `hex` crates provide them.
//!
//! Nothing in this file is proved: each item states what the outside
//! function's documentation and source show of it.

use hex::FromHexError;
use sha2::{Digest, Sha256};
use vstd::prelude::*;

verus! {

#[verifier::external_type_specification]
#[verifier::external_body]
pub struct ExFromHexError(FromHexError);

/// The SHA-256 digest of a byte string.
pub uninterp spec fn sha256_digest(data: Seq<u8>) -> Seq<u8>;

/// `Sha256::digest`: the 32 bytes of the SHA-256 digest of `data`.
#[verifier::external_body]
pub(crate) fn sha256(data: &Vec<u8>) -> (digest: [u8; 32])
    ensures
        digest@ == sha256_digest(data@),
{
    Sha256::digest(data.as_slice()).into()
}

/// The lower-case hexadecimal digit of a number below sixteen.
pub open spec fn hex_digit(nibble: int) -> char {
    if nibble < 10 {
        (('0' as u8) + nibble) as u8 as char
    } else {
        (('a' as u8) + nibble - 10) as u8 as char
    }
}

/// The bytes written as lower-case hexadecimal text, two digits for each
/// byte, the high half first.
pub open spec fn hex_text(bytes: Seq<u8>) -> Seq<char> {
    Seq::new(
        2 * bytes.len(),
        |i: int|
            if i % 2 == 0 {
                hex_digit(bytes[i / 2] as int / 16)
            } else {
                hex_digit(bytes[i / 2] as int % 16)
            },
    )
}

/// The value of a hexadecimal digit, upper or lower case, given as a byte
/// of text; `None` for any other byte.
pub open spec fn hex_value(byte: u8) -> Option<int> {
    if '0' as u8 <= byte <= '9' as u8 {
        Some(byte - '0' as u8)
    } else if 'a' as u8 <= byte <= 'f' as u8 {
        Some(byte - 'a' as u8 + 10)
    } else if 'A' as u8 <= byte <= 'F' as u8 {
        Some(byte - 'A' as u8 + 10)
    } else {
        None
    }
}

/// Whether the text, given as bytes, is hexadecimal: an even number of
/// hexadecimal digits.
pub open spec fn is_hex(text: Seq<u8>) -> bool {
    text.len() % 2 == 0 && forall|i: int| 0 <= i < text.len() ==> hex_value(#[trigger] text[i]) is Some
}

/// The bytes that hexadecimal text stands for.
pub open spec fn hex_bytes(text: Seq<u8>) -> Seq<u8> {
    Seq::new(
        text.len() / 2,
        |i: int| (hex_value(text[2 * i]).unwrap() * 16 + hex_value(text[2 * i + 1]).unwrap()) as u8,
    )
}

/// `hex::encode`: the bytes as lower-case hexadecimal text.
#[verifier::external_body]
pub(crate) fn hex_encode(bytes: &[u8; 32]) -> (text: String)
    ensures
        text@ == hex_text(bytes@),
{
    hex::encode(bytes)
}

/// `hex::decode`: the bytes that the text stands for where it is
/// hexadecimal, and an error where it is not.
#[verifier::external_body]
pub(crate) fn hex_decode(text: &str) -> (bytes: Result<Vec<u8>, FromHexError>)
    ensures
        bytes is Ok <==> is_hex(vstd::utf8::encode_utf8(text@)),
        bytes is Ok ==> bytes.unwrap()@ == hex_bytes(vstd::utf8::encode_utf8(text@)),
{
    hex::decode(text)
}

} // verus!
