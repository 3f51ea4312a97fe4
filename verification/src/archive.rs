//! Zip archives and bit vectors, as the `zip` and `bit_vec` crates provide
//! them, and one test on texts from the standard library.
//!
//! Nothing in this file is proved: each item states what the outside
//! function's documentation and source show of it.

use bit_vec::BitVec;
use std::io::{Cursor, Read};
use vstd::prelude::*;
use zip::result::ZipError;
use zip::ZipArchive;

verus! {

#[verifier::external_type_specification]
#[verifier::external_body]
pub struct ExZipError(ZipError);

#[verifier::external_type_specification]
#[verifier::external_body]
#[verifier::reject_recursive_types(B)]
pub struct ExBitVec<B>(BitVec<B>);

/// The names of the members of a zip archive, in the order of the archive;
/// `None` for bytes that are no archive, or that hold a member which cannot
/// be opened without a password.
pub uninterp spec fn zip_names(data: Seq<u8>) -> Option<Seq<Seq<char>>>;

/// The contents of the member at a place of a zip archive; `None` where the
/// bytes are no archive, or the member cannot be opened or read.
pub uninterp spec fn zip_member(data: Seq<u8>, index: int) -> Option<Seq<u8>>;

/// The names as plain values.
pub open spec fn view_names(names: Seq<String>) -> Seq<Seq<char>> {
    names.map_values(|name: String| name@)
}

/// `ZipArchive::new`, then `by_index_decrypt` with an empty password and
/// `ZipFile::name` for each member: the names of the members, or the error
/// of the first step that fails. A member that asks for a password counts
/// as a failure.
#[verifier::external_body]
pub(crate) fn zip_member_names(data: &Vec<u8>) -> (names: Result<Vec<String>, ZipError>)
    ensures
        match names {
            Ok(names) => zip_names(data@) == Some(view_names(names@)),
            Err(_) => zip_names(data@) is None,
        },
{
    let mut archive = ZipArchive::new(Cursor::new(data.as_slice()))?;
    let mut names = Vec::new();
    for i in 0..archive.len() {
        let file = archive.by_index_decrypt(i, b"")?.map_err(|_| ZipError::FileNotFound)?;
        names.push(file.name().to_string());
    }
    Ok(names)
}

/// `ZipArchive::new`, then `by_index_decrypt` with an empty password and
/// the reading of that one member to its end: the contents of the member,
/// or the error of the first step that fails.
#[verifier::external_body]
pub(crate) fn zip_read_member(data: &Vec<u8>, index: usize) -> (bytes: Result<Vec<u8>, ZipError>)
    ensures
        match bytes {
            Ok(bytes) => zip_member(data@, index as int) == Some(bytes@),
            Err(_) => zip_member(data@, index as int) is None,
        },
{
    let mut archive = ZipArchive::new(Cursor::new(data.as_slice()))?;
    let mut file = archive.by_index_decrypt(index, b"")?.map_err(|_| ZipError::FileNotFound)?;
    let mut bytes = Vec::new();
    file.read_to_end(&mut bytes)?;
    Ok(bytes)
}

/// Whether `text` ends with `ending`.
pub open spec fn is_ending(ending: Seq<char>, text: Seq<char>) -> bool {
    ending.len() <= text.len() && text.subrange(text.len() - ending.len(), text.len() as int)
        == ending
}

/// `str::ends_with`: whether the text ends with the given ending.
#[verifier::external_body]
pub(crate) fn text_ends_with(text: &str, ending: &str) -> (r: bool)
    ensures
        r == is_ending(ending@, text@),
{
    text.ends_with(ending)
}

/// The bits of a bit vector, in their order.
pub uninterp spec fn bitvec_bits(bits: BitVec<u32>) -> Seq<bool>;

/// `BitVec::len`: the number of bits.
#[verifier::external_body]
pub(crate) fn bitvec_len(bits: &BitVec<u32>) -> (len: usize)
    ensures
        len == bitvec_bits(*bits).len(),
{
    bits.len()
}

/// `BitVec::get`: the bit at the given place, or `None` behind the last
/// bit.
#[verifier::external_body]
pub(crate) fn bitvec_get(bits: &BitVec<u32>, i: usize) -> (bit: Option<bool>)
    ensures
        bit == (if i < bitvec_bits(*bits).len() {
            Some(bitvec_bits(*bits)[i as int])
        } else {
            None
        }),
{
    bits.get(i)
}

} // verus!
