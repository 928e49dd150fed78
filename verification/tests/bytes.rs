use pdf_reader::bytes::{
    is_alphabetic_char, is_name_char, is_newline_char, is_numeric_char, is_whitespace_char,
    peek_char,
};
use pdf_reader::error::Error;

#[test]
fn should_peek_char() {
    assert_eq!(peek_char(b"Hi"), Ok(b'H'));
    assert_eq!(peek_char(b"i"), Ok(b'i'));
    assert_eq!(peek_char(b""), Err(Error::EOF));
}

#[test]
fn should_detect_whitespace_char() {
    assert_eq!(is_whitespace_char(0), true);
    assert_eq!(is_whitespace_char(b'\t'), true);
    assert_eq!(is_whitespace_char(b'\n'), true);
    assert_eq!(is_whitespace_char(0x0C), true);
    assert_eq!(is_whitespace_char(b'\r'), true);
    assert_eq!(is_whitespace_char(b' '), true);
    assert_eq!(is_whitespace_char(b'/'), false);
    assert_eq!(is_whitespace_char(b'#'), false);
    assert_eq!(is_whitespace_char(b'H'), false);
    assert_eq!(is_whitespace_char(b'i'), false);
    assert_eq!(is_whitespace_char(b'2'), false);
    assert_eq!(is_whitespace_char(b'0'), false);
    assert_eq!(is_whitespace_char(b'+'), false);
    assert_eq!(is_whitespace_char(b'-'), false);
    assert_eq!(is_whitespace_char(b'.'), false);
}

#[test]
fn should_detect_newline_char() {
    assert_eq!(is_newline_char(0), false);
    assert_eq!(is_newline_char(b'\t'), false);
    assert_eq!(is_newline_char(b'\n'), true);
    assert_eq!(is_newline_char(0x0C), false);
    assert_eq!(is_newline_char(b'\r'), true);
    assert_eq!(is_newline_char(b' '), false);
    assert_eq!(is_newline_char(b'/'), false);
    assert_eq!(is_newline_char(b'#'), false);
    assert_eq!(is_newline_char(b'H'), false);
    assert_eq!(is_newline_char(b'i'), false);
    assert_eq!(is_newline_char(b'2'), false);
    assert_eq!(is_newline_char(b'0'), false);
    assert_eq!(is_newline_char(b'+'), false);
    assert_eq!(is_newline_char(b'-'), false);
    assert_eq!(is_newline_char(b'.'), false);
}

#[test]
fn should_detect_alphabetic_char() {
    assert_eq!(is_alphabetic_char(0), false);
    assert_eq!(is_alphabetic_char(b'\t'), false);
    assert_eq!(is_alphabetic_char(b'\n'), false);
    assert_eq!(is_alphabetic_char(0x0C), false);
    assert_eq!(is_alphabetic_char(b'\r'), false);
    assert_eq!(is_alphabetic_char(b' '), false);
    assert_eq!(is_alphabetic_char(b'/'), false);
    assert_eq!(is_alphabetic_char(b'#'), false);
    assert_eq!(is_alphabetic_char(b'H'), true);
    assert_eq!(is_alphabetic_char(b'i'), true);
    assert_eq!(is_alphabetic_char(b'2'), false);
    assert_eq!(is_alphabetic_char(b'0'), false);
    assert_eq!(is_alphabetic_char(b'+'), false);
    assert_eq!(is_alphabetic_char(b'-'), false);
    assert_eq!(is_alphabetic_char(b'.'), false);
}

#[test]
fn should_detect_name_char() {
    assert_eq!(is_name_char(0), false);
    assert_eq!(is_name_char(b'\t'), false);
    assert_eq!(is_name_char(b'\n'), false);
    assert_eq!(is_name_char(0x0C), false);
    assert_eq!(is_name_char(b'\r'), false);
    assert_eq!(is_name_char(b' '), false);
    assert_eq!(is_name_char(b'/'), false);
    assert_eq!(is_name_char(b'#'), true);
    assert_eq!(is_name_char(b'H'), true);
    assert_eq!(is_name_char(b'i'), true);
    assert_eq!(is_name_char(b'2'), true);
    assert_eq!(is_name_char(b'0'), true);
    assert_eq!(is_name_char(b'+'), true);
    assert_eq!(is_name_char(b'-'), true);
    assert_eq!(is_name_char(b'.'), true);
}

#[test]
fn should_detect_numeric_char() {
    assert_eq!(is_numeric_char(0), false);
    assert_eq!(is_numeric_char(b'\t'), false);
    assert_eq!(is_numeric_char(b'\n'), false);
    assert_eq!(is_numeric_char(0x0C), false);
    assert_eq!(is_numeric_char(b'\r'), false);
    assert_eq!(is_numeric_char(b' '), false);
    assert_eq!(is_numeric_char(b'/'), false);
    assert_eq!(is_numeric_char(b'#'), false);
    assert_eq!(is_numeric_char(b'H'), false);
    assert_eq!(is_numeric_char(b'i'), false);
    assert_eq!(is_numeric_char(b'2'), true);
    assert_eq!(is_numeric_char(b'0'), true);
    assert_eq!(is_numeric_char(b'+'), true);
    assert_eq!(is_numeric_char(b'-'), true);
    assert_eq!(is_numeric_char(b'.'), true);
}
