//! Predicates over single bytes of the PDF grammar, and a single-byte peek.

use vstd::prelude::*;

use crate::error::Error;

verus! {

/// Whitespace bytes of the PDF grammar: NUL, HT, LF, FF, CR, SP.
pub open spec fn is_whitespace(c: u8) -> bool {
    c == 0x00 || c == 0x09 || c == 0x0a || c == 0x0c || c == 0x0d || c == 0x20
}

/// Newline bytes: LF and CR.
pub open spec fn is_newline(c: u8) -> bool {
    c == 0x0a || c == 0x0d
}

/// Delimiter bytes: `( ) < > [ ] { } / %`. A delimiter terminates the
/// syntactic entity preceding it and is not part of that entity.
pub open spec fn is_delimiter(c: u8) -> bool {
    c == 0x28 || c == 0x29 || c == 0x3c || c == 0x3e || c == 0x5b || c == 0x5d
        || c == 0x7b || c == 0x7d || c == 0x2f || c == 0x25
}

/// Bytes of the roman alphabet.
pub open spec fn is_alphabetic(c: u8) -> bool {
    (0x61 <= c && c <= 0x7a) || (0x41 <= c && c <= 0x5a)
}

/// Bytes that may occur in a name token, after the leading `/`:
/// everything that is neither a delimiter nor whitespace.
pub open spec fn is_name_byte(c: u8) -> bool {
    !is_delimiter(c) && !is_whitespace(c)
}

/// Bytes that may occur in a numeric token: `+ - .` and the decimal digits.
pub open spec fn is_numeric_byte(c: u8) -> bool {
    c == 0x2b || c == 0x2d || c == 0x2e || is_digit(c)
}

/// Decimal digit bytes.
pub open spec fn is_digit(c: u8) -> bool {
    0x30 <= c && c <= 0x39
}

/// Octal digit bytes.
pub open spec fn is_octal_digit(c: u8) -> bool {
    0x30 <= c && c <= 0x37
}

/// Hexadecimal digit bytes, either case.
pub open spec fn is_hex_digit(c: u8) -> bool {
    is_digit(c) || (0x41 <= c && c <= 0x46) || (0x61 <= c && c <= 0x66)
}

/// Numeric value of a hexadecimal digit byte.
pub open spec fn hex_value(c: u8) -> u8 {
    if is_digit(c) {
        (c - 0x30) as u8
    } else if 0x41 <= c && c <= 0x46 {
        (c - 0x41 + 10) as u8
    } else if 0x61 <= c && c <= 0x66 {
        (c - 0x61 + 10) as u8
    } else {
        0
    }
}

/// Returns true if the byte is PDF whitespace.
pub fn is_whitespace_char(c: u8) -> (r: bool)
    ensures
        r == is_whitespace(c),
{
    c == 0x00 || c == 0x09 || c == 0x0a || c == 0x0c || c == 0x0d || c == 0x20
}

/// Returns true if the byte is a newline (LF or CR).
pub fn is_newline_char(c: u8) -> (r: bool)
    ensures
        r == is_newline(c),
{
    c == 0x0a || c == 0x0d
}

/// Returns true if the byte is from the roman alphabet.
pub fn is_alphabetic_char(c: u8) -> (r: bool)
    ensures
        r == is_alphabetic(c),
{
    (0x61 <= c && c <= 0x7a) || (0x41 <= c && c <= 0x5a)
}

/// Returns true if the byte may be part of a name token (after the `/`).
pub fn is_name_char(c: u8) -> (r: bool)
    ensures
        r == is_name_byte(c),
{
    let delimiter = c == 0x28 || c == 0x29 || c == 0x3c || c == 0x3e || c == 0x5b
        || c == 0x5d || c == 0x7b || c == 0x7d || c == 0x2f || c == 0x25;
    !delimiter && !is_whitespace_char(c)
}

/// Returns true if the byte may be part of a numeric token.
pub fn is_numeric_char(c: u8) -> (r: bool)
    ensures
        r == is_numeric_byte(c),
{
    c == 0x2b || c == 0x2d || c == 0x2e || (0x30 <= c && c <= 0x39)
}

/// Returns the first byte of the buffer, or `Error::EOF` when it is empty.
pub fn peek_char(raw: &[u8]) -> (r: Result<u8, Error>)
    ensures
        match r {
            Ok(c) => raw@.len() > 0 && c == raw@[0],
            Err(e) => raw@.len() == 0 && e == Error::EOF,
        },
{
    if raw.len() == 0 {
        Err(Error::EOF)
    } else {
        Ok(raw[0])
    }
}

} // verus!
