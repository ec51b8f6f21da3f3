//! The earlier home of the GPT-2 byte conversion. Its functions show and read
//! bytes exactly as [`crate::encode`] does: a byte is shown as its GPT-2
//! character (so `[0x01, b'a']` is shown as `"āa"`).
use vstd::prelude::*;

use crate::encode::{bytes_chars, chars_bytes, is_byte_char};

verus! {

/// Shows every byte as its GPT-2 character.
pub fn bytes_to_string(bytes: &[u8]) -> (s: String)
    ensures
        s@ == bytes_chars(bytes@),
{
    crate::encode::bytes_to_string(bytes)
}

/// Reads GPT-2 characters back as the bytes they show.
pub fn string_to_bytes(s: &str) -> (bytes: Vec<u8>)
    requires
        forall|i: int| 0 <= i < s@.len() ==> is_byte_char(#[trigger] s@[i]),
    ensures
        bytes@ == chars_bytes(s@),
{
    crate::encode::string_to_bytes(s)
}

} // verus!
