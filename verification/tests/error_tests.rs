use cs336_rs::error::CustomError;
use cs336_rs::regex::RegexError;

#[test]
fn regex_compile_error_reads_offset_message_and_code() {
    let err = RegexError::Compile {
        code: 101,
        offset: 7,
        message: "missing closing parenthesis".to_string(),
    };
    assert_eq!(
        err.message(),
        "PCRE2 compilation failed at byte 7: missing closing parenthesis (error 101)"
    );
}

#[test]
fn regex_match_error_reads_negative_code() {
    assert_eq!(
        RegexError::Match(-47).message(),
        "PCRE2 matching failed: error -47"
    );
    assert_eq!(
        RegexError::Match(i32::MIN).message(),
        "PCRE2 matching failed: error -2147483648"
    );
}

#[test]
fn regex_fixed_errors_read_as_written() {
    assert_eq!(RegexError::Allocation.message(), "PCRE2 allocation failed");
    assert_eq!(
        RegexError::InvalidOffsets.message(),
        "PCRE2 returned invalid match offsets"
    );
    let zero = RegexError::Compile {
        code: 0,
        offset: 0,
        message: String::new(),
    };
    assert_eq!(zero.message(), "PCRE2 compilation failed at byte 0:  (error 0)");
}

#[test]
fn custom_errors_read_with_their_cause() {
    let bytes: Vec<u8> = vec![0x61, 0xff, 0x62];
    let utf8 = std::str::from_utf8(&bytes).unwrap_err();
    let expected = format!("invalid UTF-8: {utf8}");
    assert_eq!(CustomError::InvalidUtf8(utf8).message(), expected);
    assert_eq!(
        CustomError::InvalidRegex(RegexError::Allocation).message(),
        "invalid regex: PCRE2 allocation failed"
    );
    assert_eq!(CustomError::ThreadPanic.message(), "worker thread panicked");
}
