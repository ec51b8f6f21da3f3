//! GPT-2 byte-level encoding: every byte is shown as one printable character.
//! Printable Latin-1 bytes stand for themselves; the other 68 bytes, in
//! ascending order, are shown by the code points `0x100`, `0x101`, ..., `0x143`.
use vstd::prelude::*;
use vstd::utf8::*;

use crate::text::string_from_utf8;

verus! {

broadcast use vstd::utf8::group_utf8_lib;

/// Bytes that GPT-2 shows as themselves: `!`..=`~`, `¡`..=`¬`, `®`..=`ÿ`.
pub open spec fn is_visible(b: u8) -> bool {
    (0x21 <= b && b <= 0x7E) || (b >= 0xA1 && b != 0xAD)
}

/// Code points that stand for a shifted (non-visible) byte.
pub open spec fn is_shifted(c: u32) -> bool {
    0x100 <= c && c <= 0x143
}

/// The code point that shows byte `b`: itself when visible, else the next unused
/// code point from `0x100` on, in byte order (`0x00..=0x20`, `0x7F..=0xA0`, `0xAD`).
pub open spec fn byte_code(b: u8) -> u32 {
    if is_visible(b) {
        b as u32
    } else if b <= 0x20 {
        (0x100 + b as u32) as u32
    } else if b <= 0xA0 {
        (0xA2 + b as u32) as u32
    } else {
        0x143
    }
}

/// The character that shows byte `b`.
pub open spec fn byte_char(b: u8) -> char {
    byte_code(b) as char
}

/// The characters that show a byte sequence.
pub open spec fn bytes_chars(bytes: Seq<u8>) -> Seq<char> {
    bytes.map_values(|b: u8| byte_char(b))
}

/// Characters that show some byte.
pub open spec fn is_byte_char(c: char) -> bool {
    is_shifted(c as u32) || ((c as u32) <= 0xFF && is_visible((c as u32) as u8))
}

/// The byte a shown character stands for.
pub open spec fn char_byte(c: char) -> u8 {
    shifted_byte(c as u32)
}

/// The byte a code point stands for.
pub open spec fn shifted_byte(c: u32) -> u8 {
    if !is_shifted(c) {
        c as u8
    } else if c <= 0x120 {
        (c - 0x100) as u8
    } else if c <= 0x142 {
        (c - 0xA2) as u8
    } else {
        0xAD
    }
}

/// The bytes a sequence of shown characters stands for.
pub open spec fn chars_bytes(cs: Seq<char>) -> Seq<u8> {
    cs.map_values(|c: char| char_byte(c))
}

fn is_gpt2_visible_byte(b: u8) -> (r: bool)
    ensures
        r == is_visible(b),
{
    (b >= 0x21 && b <= 0x7E) || (b >= 0xA1 && b != 0xAD)
}

fn is_gpt2_shifted_byte(b: u32) -> (r: bool)
    ensures
        r == is_shifted(b),
{
    b >= 0x100 && b <= 0x143
}

/// The code point that shows byte `b`.
fn gpt2_code(b: u8) -> (c: u16)
    ensures
        c as u32 == byte_code(b),
{
    if is_gpt2_visible_byte(b) {
        b as u16
    } else if b <= 0x20 {
        0x100 + b as u16
    } else if b <= 0xA0 {
        0xA2 + b as u16
    } else {
        0x143
    }
}

/// The byte a code point stands for.
fn gpt2_byte(c: u32) -> (b: u8)
    ensures
        b == shifted_byte(c),
{
    if !is_gpt2_shifted_byte(c) {
        c as u8
    } else if c <= 0x120 {
        (c - 0x100) as u8
    } else if c <= 0x142 {
        (c - 0xA2) as u8
    } else {
        0xAD
    }
}

proof fn lemma_byte_code_is_scalar(b: u8)
    ensures
        byte_code(b) < 0x200,
        (byte_char(b) as u32) == byte_code(b),
{
}

/// Appends the UTF-8 form of a code point below `0x200`.
fn byte_to_utf8(bytes: &mut Vec<u8>, x: u16)
    requires
        x < 0x200,
    ensures
        final(bytes)@ == old(bytes)@ + encode_scalar(x as u32),
{
    if x < 0x80 {
        assert(((x as u32) & 0x7F) as u8 == x as u8) by (bit_vector)
            requires x < 0x80;
        bytes.push(x as u8);
    } else {
        assert((0xC0u8 | ((x >> 6u16) as u8)) == (0xC0 | (((x as u32) >> 6u32) & 0x1F) as u8)
            && (0x80u8 | ((x & 0x3Fu16) as u8)) == (0x80 | ((x as u32) & 0x3F) as u8))
            by (bit_vector)
            requires 0x80 <= x < 0x200;
        bytes.push(0xC0 | ((x >> 6) as u8));
        bytes.push(0x80 | ((x & 0x3F) as u8));
    }
}

/// Shows every byte as its GPT-2 character.
pub fn bytes_to_string(bytes: &[u8]) -> (s: String)
    ensures
        s@ == bytes_chars(bytes@),
{
    let mut buf: Vec<u8> = Vec::new();
    let mut i: usize = 0;
    while i < bytes.len()
        invariant
            i <= bytes.len(),
            buf@ == encode_utf8(bytes_chars(bytes@.take(i as int))),
        decreases bytes.len() - i,
    {
        let b = bytes[i];
        proof {
            lemma_byte_code_is_scalar(b);
            lemma_encode_utf8_push(bytes_chars(bytes@.take(i as int)), byte_char(b));
            assert(bytes_chars(bytes@.take(i + 1)) == bytes_chars(bytes@.take(i as int)).push(
                byte_char(b),
            ));
        }
        byte_to_utf8(&mut buf, gpt2_code(b));
        i += 1;
    }
    assert(bytes@.take(bytes@.len() as int) == bytes@);
    match string_from_utf8(buf) {
        Some(s) => s,
        None => {
            assert(false);
            String::new()
        }
    }
}

/// `encode_utf8` of a sequence with one more character appends that character's encoding.
pub proof fn lemma_encode_utf8_push(cs: Seq<char>, c: char)
    ensures
        encode_utf8(cs.push(c)) == encode_utf8(cs) + encode_scalar(c as u32),
    decreases cs.len(),
{
    if cs.len() == 0 {
        assert(cs.push(c).drop_first() == Seq::<char>::empty());
        assert(encode_utf8(Seq::<char>::empty()) == Seq::<u8>::empty());
    } else {
        assert(cs.push(c).drop_first() == cs.drop_first().push(c));
        lemma_encode_utf8_push(cs.drop_first(), c);
    }
}

} // verus!

verus! {

/// Reads GPT-2 characters back as the bytes they show.
/// Whether a character shows some byte.
pub fn shows_byte(c: char) -> (r: bool)
    ensures
        r == is_byte_char(c),
{
    let code = c as u32;
    is_gpt2_shifted_byte(code) || (code <= 0xFF && is_gpt2_visible_byte(code as u8))
}

pub fn string_to_bytes(s: &str) -> (bytes: Vec<u8>)
    requires
        forall|i: int| 0 <= i < s@.len() ==> is_byte_char(#[trigger] s@[i]),
    ensures
        bytes@ == chars_bytes(s@),
{
    let mut bytes: Vec<u8> = Vec::new();
    for ch in it: s.chars()
        invariant
            forall|i: int| 0 <= i < s@.len() ==> is_byte_char(#[trigger] s@[i]),
            it.seq() == s@,
            bytes@ == chars_bytes(s@.take(it.index() as int)),
    {
        bytes.push(gpt2_byte(ch as u32));
        assert(chars_bytes(s@.take(it.index() + 1)) == chars_bytes(s@.take(it.index() as int)).push(char_byte(ch)));
    }
    assert(s@.take(s@.len() as int) == s@);
    bytes
}

} // verus!

verus! {

/// Every byte is shown by a character that reads back as that byte.
pub proof fn lemma_byte_char_roundtrip(b: u8)
    ensures
        is_byte_char(byte_char(b)),
        char_byte(byte_char(b)) == b,
{
    lemma_byte_code_is_scalar(b);
}

/// Every character that shows a byte is the character of the byte it shows.
pub proof fn lemma_char_byte_roundtrip(c: char)
    requires
        is_byte_char(c),
    ensures
        byte_char(char_byte(c)) == c,
{
    lemma_byte_code_is_scalar(char_byte(c));
    vstd::utf8::char_u32_cast(c, c as u32);
    assert(byte_code(char_byte(c)) == c as u32);
}

/// Reading back the characters that show some bytes gives those bytes.
pub proof fn law_bytes_roundtrip(bytes: Seq<u8>)
    ensures
        forall|i: int| 0 <= i < bytes_chars(bytes).len() ==> is_byte_char(#[trigger] bytes_chars(bytes)[i]),
        chars_bytes(bytes_chars(bytes)) == bytes,
{
    assert forall|i: int| 0 <= i < bytes_chars(bytes).len() implies is_byte_char(#[trigger] bytes_chars(bytes)[i]) by {
        lemma_byte_char_roundtrip(bytes[i]);
    }
    assert forall|i: int| 0 <= i < bytes.len() implies #[trigger] chars_bytes(bytes_chars(bytes))[i] == bytes[i] by {
        lemma_byte_char_roundtrip(bytes[i]);
    }
    assert(chars_bytes(bytes_chars(bytes)) =~= bytes);
}

/// Showing the bytes that GPT-2 characters stand for gives those characters back.
pub proof fn law_chars_roundtrip(cs: Seq<char>)
    requires
        forall|i: int| 0 <= i < cs.len() ==> is_byte_char(#[trigger] cs[i]),
    ensures
        bytes_chars(chars_bytes(cs)) == cs,
{
    assert forall|i: int| 0 <= i < cs.len() implies #[trigger] bytes_chars(chars_bytes(cs))[i] == cs[i] by {
        lemma_char_byte_roundtrip(cs[i]);
    }
    assert(bytes_chars(chars_bytes(cs)) =~= cs);
}

} // verus!
