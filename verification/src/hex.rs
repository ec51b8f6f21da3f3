//! Writing bytes as hexadecimal text.
use vstd::prelude::*;

use crate::text::string_push;

verus! {

/// The lowercase hexadecimal digit of a value below 16.
pub open spec fn hex_digit(d: u8) -> char {
    if d < 10 {
        (48 + d) as char
    } else {
        (87 + d) as char
    }
}

/// The two hexadecimal digits of each byte, high half first.
pub open spec fn hex_chars(bytes: Seq<u8>) -> Seq<char>
    decreases bytes.len(),
{
    if bytes.len() == 0 {
        seq![]
    } else {
        hex_chars(bytes.drop_last()) + seq![hex_digit(bytes.last() / 16), hex_digit(bytes.last() % 16)]
    }
}

/// The digit for a value below 16.
fn digit(d: u8) -> (c: char)
    requires
        d < 16,
    ensures
        c == hex_digit(d),
{
    if d < 10 {
        (48 + d) as char
    } else {
        (87 + d) as char
    }
}

/// Writes each byte as two lowercase hexadecimal digits, high half first.
pub fn hex_encode(bytes: &[u8]) -> (output: String)
    ensures
        output@ == hex_chars(bytes@),
{
    let mut output = String::new();
    for i in 0..bytes.len()
        invariant
            output@ == hex_chars(bytes@.take(i as int)),
    {
        let byte = bytes[i];
        proof {
            assert(bytes@.take(i + 1).drop_last() =~= bytes@.take(i as int));
            assert(byte >> 4u8 == byte / 16 && byte & 0x0fu8 == byte % 16) by (bit_vector);
        }
        string_push(&mut output, digit(byte >> 4));
        string_push(&mut output, digit(byte & 0x0f));
        proof {
            assert(output@ =~= hex_chars(bytes@.take(i + 1)));
        }
    }
    proof {
        assert(bytes@.take(bytes@.len() as int) =~= bytes@);
    }
    output
}

} // verus!
