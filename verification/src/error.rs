//! The errors of the library.
use vstd::prelude::*;

use crate::regex::{regex_error_text, RegexError};
use vstd::std_specs::convert::FromSpecImpl;
use vstd::string::to_string_from_display_ensures;

verus! {

/// `std::str::Utf8Error`, carried through as the reason a byte range is not UTF-8.
#[verifier::external_type_specification]
#[verifier::external_body]
pub struct ExUtf8Error(std::str::Utf8Error);

/// Why an operation of the library failed.
#[derive(Debug)]
pub enum CustomError {
    /// Some bytes that should have been text are not well-formed UTF-8.
    InvalidUtf8(std::str::Utf8Error),
    /// A pattern could not be compiled or run.
    InvalidRegex(RegexError),
    /// A worker thread panicked.
    ThreadPanic,
}

/// How an error reads: of invalid UTF-8, the opening words followed by std's own
/// account of the bytes (what `to_string` gives for the `Utf8Error`).
pub open spec fn custom_error_reads(e: CustomError, text: Seq<char>) -> bool {
    match e {
        CustomError::InvalidUtf8(err) => exists|d: String|
            to_string_from_display_ensures::<std::str::Utf8Error>(&err, d) && text == "invalid UTF-8: "@ + d@,
        CustomError::InvalidRegex(r) => text == "invalid regex: "@ + regex_error_text(r),
        CustomError::ThreadPanic => text == "worker thread panicked"@,
    }
}

impl CustomError {
    /// What went wrong, in words.
    pub fn message(&self) -> (m: String)
        ensures
            custom_error_reads(*self, m@),
    {
        let mut m = String::new();
        match self {
            CustomError::InvalidUtf8(err) => {
                m.append("invalid UTF-8: ");
                let detail = err.to_string();
                m.append(detail.as_str());
                assert(to_string_from_display_ensures::<std::str::Utf8Error>(err, detail));
            },
            CustomError::InvalidRegex(err) => {
                m.append("invalid regex: ");
                let detail = err.message();
                m.append(detail.as_str());
            },
            CustomError::ThreadPanic => {
                m.append("worker thread panicked");
            },
        }
        m
    }
}

impl From<std::str::Utf8Error> for CustomError {
    fn from(err: std::str::Utf8Error) -> (r: Self) {
        CustomError::InvalidUtf8(err)
    }
}

impl FromSpecImpl<std::str::Utf8Error> for CustomError {
    open spec fn obeys_from_spec() -> bool {
        true
    }

    open spec fn from_spec(err: std::str::Utf8Error) -> Self {
        CustomError::InvalidUtf8(err)
    }
}

impl From<RegexError> for CustomError {
    fn from(err: RegexError) -> (r: Self) {
        CustomError::InvalidRegex(err)
    }
}

impl FromSpecImpl<RegexError> for CustomError {
    open spec fn obeys_from_spec() -> bool {
        true
    }

    open spec fn from_spec(err: RegexError) -> Self {
        CustomError::InvalidRegex(err)
    }
}

} // verus!
