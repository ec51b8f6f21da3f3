//! What can go wrong with a pattern, and how it reads.
use vstd::prelude::*;

use crate::text::string_push;

verus! {

/// Why a pattern could not be compiled or run.
#[derive(Debug)]
pub enum RegexError {
    /// The pattern did not compile: the engine's error code, the byte offset in
    /// the pattern where it stopped, and its message.
    Compile { code: i32, offset: usize, message: String },
    /// The engine could not allocate what matching needs.
    Allocation,
    /// Matching failed with the engine's error code.
    Match(i32),
    /// The engine reported offsets outside the subject.
    InvalidOffsets,
}

/// The character of a decimal digit.
pub open spec fn digit_char(d: nat) -> char {
    ((d + 48) as u8) as char
}

/// A natural number in decimal, most significant digit first, without leading zeros.
pub open spec fn decimal(n: nat) -> Seq<char>
    decreases n,
{
    if n < 10 {
        seq![digit_char(n)]
    } else {
        decimal(n / 10).push(digit_char(n % 10))
    }
}

/// An integer in decimal, with a leading `-` when it is negative.
pub open spec fn signed_decimal(i: int) -> Seq<char> {
    if i < 0 {
        seq!['-'] + decimal((-i) as nat)
    } else {
        decimal(i as nat)
    }
}

/// How a pattern error reads.
pub open spec fn regex_error_text(e: RegexError) -> Seq<char> {
    match e {
        RegexError::Compile { code, offset, message } => "PCRE2 compilation failed at byte "@ + decimal(
            offset as nat,
        ) + ": "@ + message@ + " (error "@ + signed_decimal(code as int) + ")"@,
        RegexError::Allocation => "PCRE2 allocation failed"@,
        RegexError::Match(code) => "PCRE2 matching failed: error "@ + signed_decimal(code as int),
        RegexError::InvalidOffsets => "PCRE2 returned invalid match offsets"@,
    }
}

fn digit(d: u64) -> (c: char)
    requires
        d < 10,
    ensures
        c == digit_char(d as nat),
{
    ((d as u8) + 48u8) as char
}

/// Appends `n` in decimal.
pub(crate) fn push_decimal(s: &mut String, n: u64)
    ensures
        final(s)@ == old(s)@ + decimal(n as nat),
    decreases n,
{
    if n >= 10 {
        push_decimal(s, n / 10);
    }
    let c = digit(n % 10);
    string_push(s, c);
    proof {
        if n >= 10 {
            assert(old(s)@ + decimal((n / 10) as nat) + seq![c] =~= old(s)@ + decimal(n as nat));
        } else {
            assert(old(s)@.push(c) =~= old(s)@ + decimal(n as nat));
        }
    }
}

/// Appends `i` in decimal, with its sign when it is negative.
pub(crate) fn push_signed(s: &mut String, i: i32)
    ensures
        final(s)@ == old(s)@ + signed_decimal(i as int),
{
    if i < 0 {
        string_push(s, '-');
        let magnitude: u64 = (0i64 - (i as i64)) as u64;
        push_decimal(s, magnitude);
        assert(old(s)@.push('-') + decimal(magnitude as nat) =~= old(s)@ + signed_decimal(i as int));
    } else {
        push_decimal(s, i as u64);
    }
}

impl RegexError {
    /// What went wrong, in words.
    pub fn message(&self) -> (m: String)
        ensures
            m@ == regex_error_text(*self),
    {
        let mut m = String::new();
        match self {
            RegexError::Compile { code, offset, message } => {
                m.append("PCRE2 compilation failed at byte ");
                push_decimal(&mut m, *offset as u64);
                m.append(": ");
                m.append(message.as_str());
                m.append(" (error ");
                push_signed(&mut m, *code);
                m.append(")");
            },
            RegexError::Allocation => {
                m.append("PCRE2 allocation failed");
            },
            RegexError::Match(code) => {
                m.append("PCRE2 matching failed: error ");
                push_signed(&mut m, *code);
            },
            RegexError::InvalidOffsets => {
                m.append("PCRE2 returned invalid match offsets");
            },
        }
        m
    }
}

} // verus!
