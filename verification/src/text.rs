//! Trusted bridges to the `std` text functions that vstd leaves unspecified,
//! and the trimming of trailing white space that the file formats rely on.
use vstd::prelude::*;
use vstd::utf8::*;

verus! {

/// `String::from_utf8`: succeeds exactly on well-formed UTF-8 and then holds the
/// decoded characters (std documents both: the bytes are checked, not copied lossily).
#[verifier::external_body]
pub(crate) fn string_from_utf8(bytes: Vec<u8>) -> (r: Option<String>)
    ensures
        r is Some <==> valid_utf8(bytes@),
        r matches Some(s) ==> s@ == decode_utf8(bytes@),
{
    match String::from_utf8(bytes) {
        Ok(s) => Some(s),
        Err(_) => None,
    }
}

/// `std::str::from_utf8`: succeeds exactly on well-formed UTF-8, and then views
/// the bytes as the characters they encode; otherwise gives the reason.
#[verifier::external_body]
pub(crate) fn str_from_utf8(bytes: &[u8]) -> (r: Result<&str, std::str::Utf8Error>)
    ensures
        r is Ok <==> valid_utf8(bytes@),
        r matches Ok(s) ==> s@ == decode_utf8(bytes@),
{
    std::str::from_utf8(bytes)
}

/// `String::push`: appends one character.
#[verifier::external_body]
pub(crate) fn string_push(s: &mut String, c: char)
    ensures
        final(s)@ == old(s)@.push(c),
{
    s.push(c);
}

} // verus!

verus! {

/// The Unicode `White_Space` property (PropList.txt).
pub open spec fn is_white_space(c: char) -> bool {
    let u = c as u32;
    ||| 0x09 <= u <= 0x0D
    ||| u == 0x20
    ||| u == 0x85
    ||| u == 0xA0
    ||| u == 0x1680
    ||| 0x2000 <= u <= 0x200A
    ||| u == 0x2028
    ||| u == 0x2029
    ||| u == 0x202F
    ||| u == 0x205F
    ||| u == 0x3000
}

/// The characters left after removing trailing white space.
pub open spec fn trim_end(cs: Seq<char>) -> Seq<char>
    decreases cs.len(),
{
    if cs.len() > 0 && is_white_space(cs.last()) {
        trim_end(cs.drop_last())
    } else {
        cs
    }
}

/// Whether a character has the Unicode `White_Space` property.
fn white_space(c: char) -> (r: bool)
    ensures
        r == is_white_space(c),
{
    let u = c as u32;
    (0x09 <= u && u <= 0x0D) || u == 0x20 || u == 0x85 || u == 0xA0 || u == 0x1680 || (0x2000 <= u && u <= 0x200A)
        || u == 0x2028 || u == 0x2029 || u == 0x202F || u == 0x205F || u == 0x3000
}

/// The string without its trailing white space, as `str::trim_end` gives it.
pub(crate) fn str_trim_end(s: &str) -> (r: &str)
    ensures
        r@ == trim_end(s@),
{
    let n = s.unicode_len();
    let mut i: usize = 0;
    let mut keep: usize = 0;
    for ch in it: s.chars()
        invariant
            n == s@.len(),
            it.seq() == s@,
            i == it.index(),
            keep <= i,
            trim_end(s@.take(i as int)) == s@.take(keep as int),
    {
        assert(i < n);
        proof {
            let cs = s@.take(i as int);
            assert(s@.take(i + 1) == cs.push(ch));
            assert(cs.push(ch).drop_last() == cs);
            assert(s@.take(keep as int) == cs.take(keep as int));
        }
        i = i + 1;
        if !white_space(ch) {
            keep = i;
        }
    }
    assert(s@.take(i as int) == s@);
    s.substring_char(0, keep)
}

} // verus!
