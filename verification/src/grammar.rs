//! The PDF lexical grammar as mathematics: recursive functions over byte
//! sequences that say, for every input, which token comes next and what
//! remains. The executable tokenizer is proved equal to these functions.

use vstd::prelude::*;

use crate::bytes::{is_whitespace, is_newline, is_alphabetic, is_name_byte, is_numeric_byte,
    is_digit, is_octal_digit, is_hex_digit, hex_value};
use crate::error::SpecError;
use crate::keywords::kw_endstream;
use crate::keywords::kw_stream;
use crate::scan::first_match;

verus! {

/// A token of the PDF grammar, at the specification level. Byte payloads are
/// sequences; a real number keeps the bytes of its numeric token.
pub enum SpecToken {
    Keyword(Seq<u8>),
    Integer(i64),
    Real(Seq<u8>),
    LiteralString(Seq<u8>),
    HexadecimalString(Seq<u8>),
    Name(Seq<u8>),
    BeginArray,
    EndArray,
    BeginDictionary,
    EndDictionary,
    Stream(Seq<u8>),
}

// ---------------------------------------------------------------------------
// Whitespace and comments
// ---------------------------------------------------------------------------

/// Consumes whitespace and `%`-comments. With `in_comment` set the head of
/// `s` is inside a comment, which runs to the next newline. Reaching the end
/// of input is an error: every caller expects to find something after.
pub open spec fn spec_skip_ws(s: Seq<u8>, in_comment: bool) -> Result<Seq<u8>, SpecError>
    decreases s.len(),
{
    if s.len() == 0 {
        Err(SpecError::Eof)
    } else if in_comment {
        if is_newline(s[0]) {
            spec_skip_ws(s.skip(1), false)
        } else {
            spec_skip_ws(s.skip(1), true)
        }
    } else if is_whitespace(s[0]) {
        spec_skip_ws(s.skip(1), false)
    } else if s[0] == 0x25 {
        spec_skip_ws(s.skip(1), true)
    } else {
        Ok(s)
    }
}

/// A block of whitespace, comments included.
pub open spec fn spec_parse_whitespace(s: Seq<u8>) -> Result<Seq<u8>, SpecError> {
    spec_skip_ws(s, false)
}

// ---------------------------------------------------------------------------
// Maximal runs of a byte class
// ---------------------------------------------------------------------------

/// Length of the maximal alphabetic prefix of `s`.
pub open spec fn run_alpha(s: Seq<u8>) -> int
    decreases s.len(),
{
    if s.len() > 0 && is_alphabetic(s[0]) {
        1 + run_alpha(s.skip(1))
    } else {
        0
    }
}

/// Length of the maximal numeric-byte prefix of `s`.
pub open spec fn run_numeric(s: Seq<u8>) -> int
    decreases s.len(),
{
    if s.len() > 0 && is_numeric_byte(s[0]) {
        1 + run_numeric(s.skip(1))
    } else {
        0
    }
}

/// Length of the maximal name-byte prefix of `s`.
pub open spec fn run_name(s: Seq<u8>) -> int
    decreases s.len(),
{
    if s.len() > 0 && is_name_byte(s[0]) {
        1 + run_name(s.skip(1))
    } else {
        0
    }
}

/// Length of the maximal octal-digit prefix of `s`.
pub open spec fn run_octal(s: Seq<u8>) -> int
    decreases s.len(),
{
    if s.len() > 0 && is_octal_digit(s[0]) {
        1 + run_octal(s.skip(1))
    } else {
        0
    }
}

// ---------------------------------------------------------------------------
// Numeric text
// ---------------------------------------------------------------------------

/// Every byte of `t` is a decimal digit.
pub open spec fn digits_only(t: Seq<u8>) -> bool {
    forall|i: int| 0 <= i < t.len() ==> is_digit(t[i])
}

/// Value of a decimal digit string.
pub open spec fn dec_value(t: Seq<u8>) -> int
    decreases t.len(),
{
    if t.len() == 0 {
        0
    } else {
        dec_value(t.take(t.len() - 1)) * 10 + (t[t.len() - 1] - 0x30)
    }
}

/// Value of an octal digit string.
pub open spec fn oct_value(t: Seq<u8>) -> int
    decreases t.len(),
{
    if t.len() == 0 {
        0
    } else {
        oct_value(t.take(t.len() - 1)) * 8 + (t[t.len() - 1] - 0x30)
    }
}

/// `t` with one leading `+` removed, if present.
pub open spec fn strip_plus(t: Seq<u8>) -> Seq<u8> {
    if t.len() > 0 && t[0] == 0x2b {
        t.skip(1)
    } else {
        t
    }
}

/// `t` with one leading `+` or `-` removed, if present.
pub open spec fn strip_sign(t: Seq<u8>) -> Seq<u8> {
    if t.len() > 0 && (t[0] == 0x2b || t[0] == 0x2d) {
        t.skip(1)
    } else {
        t
    }
}

/// `t` denotes a negative number: it starts with `-`.
pub open spec fn has_minus(t: Seq<u8>) -> bool {
    t.len() > 0 && t[0] == 0x2d
}

/// `t` is the text of an unsigned 64-bit integer: an optional `+`, then at
/// least one digit, and a value in range.
pub open spec fn is_u64_text(t: Seq<u8>) -> bool {
    let d = strip_plus(t);
    d.len() > 0 && digits_only(d) && dec_value(d) <= u64::MAX
}

/// The value of an unsigned integer text.
pub open spec fn u64_of(t: Seq<u8>) -> int {
    dec_value(strip_plus(t))
}

/// `t` is the text of a signed 64-bit integer: an optional sign, then at
/// least one digit, and a value in range.
pub open spec fn is_i64_text(t: Seq<u8>) -> bool {
    let d = strip_sign(t);
    d.len() > 0 && digits_only(d) && if has_minus(t) {
        dec_value(d) <= 0x8000_0000_0000_0000
    } else {
        dec_value(d) <= i64::MAX
    }
}

/// The value of a signed integer text.
pub open spec fn i64_of(t: Seq<u8>) -> int {
    if has_minus(t) {
        -dec_value(strip_sign(t))
    } else {
        dec_value(strip_sign(t))
    }
}

/// How many bytes of `t` are the decimal point.
pub open spec fn dot_count(t: Seq<u8>) -> int
    decreases t.len(),
{
    if t.len() == 0 {
        0
    } else {
        dot_count(t.take(t.len() - 1)) + if t[t.len() - 1] == 0x2e { 1int } else { 0int }
    }
}

/// Every byte of `t` is a digit or a decimal point.
pub open spec fn digits_or_dot(t: Seq<u8>) -> bool {
    forall|i: int| 0 <= i < t.len() ==> (is_digit(t[i]) || t[i] == 0x2e)
}

/// `t` is the text of a real number: an optional sign, then digits with
/// exactly one decimal point among them and at least one digit.
pub open spec fn is_real_text(t: Seq<u8>) -> bool {
    let d = strip_sign(t);
    d.len() >= 2 && digits_or_dot(d) && dot_count(d) == 1
}

/// The value of a digit string is never negative.
pub proof fn lemma_dec_value_nonneg(t: Seq<u8>)
    requires
        digits_only(t),
    ensures
        dec_value(t) >= 0,
    decreases t.len(),
{
    if t.len() > 0 {
        assert(digits_only(t.take(t.len() - 1)));
        lemma_dec_value_nonneg(t.take(t.len() - 1));
    }
}

/// One more digit multiplies the value by ten and adds the digit.
pub proof fn lemma_dec_value_step(t: Seq<u8>, j: int)
    requires
        0 <= j < t.len(),
    ensures
        dec_value(t.take(j + 1)) == dec_value(t.take(j)) * 10 + (t[j] - 0x30),
{
    assert(t.take(j + 1).take(j) =~= t.take(j));
    assert(t.take(j + 1)[j] == t[j]);
}

/// Once a digit prefix exceeds a bound, the whole string does too.
pub proof fn lemma_dec_value_grows(t: Seq<u8>, j: int, bound: int)
    requires
        0 <= j <= t.len(),
        bound >= 5,
        dec_value(t.take(j)) > bound,
    ensures
        dec_value(t) > bound,
    decreases t.len() - j,
{
    if j < t.len() {
        lemma_dec_value_step(t, j);
        lemma_dec_value_grows(t, j + 1, bound);
    } else {
        assert(t.take(j) =~= t);
    }
}

// ---------------------------------------------------------------------------
// Keywords and numbers
// ---------------------------------------------------------------------------

/// A keyword: the maximal alphabetic run, possibly empty. Reaching the end of
/// input while scanning is an error.
pub open spec fn spec_parse_keyword(s: Seq<u8>) -> Result<(Seq<u8>, Seq<u8>), SpecError> {
    let n = run_alpha(s);
    if n == s.len() {
        Err(SpecError::Eof)
    } else {
        Ok((s.take(n), s.skip(n)))
    }
}

/// An unsigned decimal number after optional whitespace, as used by the
/// trailer and cross-reference machinery.
pub open spec fn spec_parse_number(s: Seq<u8>) -> Result<(u64, Seq<u8>), SpecError> {
    match spec_parse_whitespace(s) {
        Err(e) => Err(e),
        Ok(r) => {
            let n = run_numeric(r);
            if n == r.len() {
                Err(SpecError::Eof)
            } else {
                let t = r.take(n);
                if is_u64_text(t) {
                    Ok((u64_of(t) as u64, r.skip(n)))
                } else {
                    Err(SpecError::ParseInt)
                }
            }
        },
    }
}

/// A numeric token: the maximal numeric run, read as a real when it holds a
/// decimal point and as a signed integer otherwise.
pub open spec fn spec_parse_numeric(s: Seq<u8>) -> Result<(SpecToken, Seq<u8>), SpecError> {
    let n = run_numeric(s);
    if n == s.len() {
        Err(SpecError::Eof)
    } else {
        let t = s.take(n);
        if dot_count(t) > 0 {
            if is_real_text(t) {
                Ok((SpecToken::Real(t), s.skip(n)))
            } else {
                Err(SpecError::ParseFloat)
            }
        } else {
            if is_i64_text(t) {
                Ok((SpecToken::Integer(i64_of(t) as i64), s.skip(n)))
            } else {
                Err(SpecError::ParseInt)
            }
        }
    }
}

// ---------------------------------------------------------------------------
// Names
// ---------------------------------------------------------------------------

/// Decodes the body of a name token: a `#` followed by two hexadecimal
/// digits stands for one byte; any other use of `#` is malformed.
pub open spec fn spec_decode_name(t: Seq<u8>) -> Option<Seq<u8>>
    decreases t.len(),
{
    if t.len() == 0 {
        Some(Seq::empty())
    } else if t[0] == 0x23 {
        if t.len() >= 3 && is_hex_digit(t[1]) && is_hex_digit(t[2]) {
            match spec_decode_name(t.skip(3)) {
                Some(rest) => Some(
                    seq![(hex_value(t[1]) * 16 + hex_value(t[2])) as u8] + rest,
                ),
                None => None,
            }
        } else {
            None
        }
    } else {
        match spec_decode_name(t.skip(1)) {
            Some(rest) => Some(seq![t[0]] + rest),
            None => None,
        }
    }
}

/// A name token: a `/`, then the maximal run of name bytes, decoded.
/// Zero-length names are legal.
pub open spec fn spec_parse_name(s: Seq<u8>) -> Result<(Seq<u8>, Seq<u8>), SpecError> {
    if s.len() == 0 {
        Err(SpecError::Eof)
    } else if s[0] != 0x2f {
        Err(SpecError::Syntax)
    } else {
        let r = s.skip(1);
        let n = run_name(r);
        if n == r.len() {
            Err(SpecError::Eof)
        } else {
            match spec_decode_name(r.take(n)) {
                Some(name) => Ok((name, r.skip(n))),
                None => Err(SpecError::Syntax),
            }
        }
    }
}

// ---------------------------------------------------------------------------
// Escape sequences and literal strings
// ---------------------------------------------------------------------------

/// An escape sequence, starting at the backslash. Yields the decoded byte, or
/// nothing for a line continuation, and what remains. One to three octal
/// digits decode the byte of that value; a value over 255 is malformed.
pub open spec fn spec_parse_escape(s: Seq<u8>) -> Result<(Option<u8>, Seq<u8>), SpecError> {
    if s.len() == 0 || s[0] != 0x5c {
        Err(SpecError::Syntax)
    } else {
        let r = s.skip(1);
        let oct = if run_octal(r) > 3 { 3int } else { run_octal(r) };
        if oct >= 1 {
            let v = oct_value(r.take(oct));
            if v <= 255 {
                Ok((Some(v as u8), r.skip(oct)))
            } else {
                Err(SpecError::ParseInt)
            }
        } else if r.len() == 0 {
            Err(SpecError::Syntax)
        } else if r[0] == 0x6e {  // n
            Ok((Some(0x0a), r.skip(1)))
        } else if r[0] == 0x72 {  // r
            Ok((Some(0x0a), r.skip(1)))
        } else if r[0] == 0x74 {  // t
            Ok((Some(0x09), r.skip(1)))
        } else if r[0] == 0x62 {  // b
            Ok((Some(0x08), r.skip(1)))
        } else if r[0] == 0x66 {  // f
            Ok((Some(0x0c), r.skip(1)))
        } else if r[0] == 0x28 || r[0] == 0x29 || r[0] == 0x5c {
            Ok((Some(r[0]), r.skip(1)))
        } else if r[0] == 0x0a {
            Ok((None, r.skip(1)))
        } else if r[0] == 0x0d {
            if r.len() >= 2 && r[1] == 0x0a {
                Ok((None, r.skip(2)))
            } else {
                Ok((None, r.skip(1)))
            }
        } else {
            Err(SpecError::Syntax)
        }
    }
}

/// Bound on what an escape consumes, used for termination below.
pub proof fn lemma_escape_consumes(s: Seq<u8>)
    ensures
        spec_parse_escape(s) matches Ok((b, r)) ==> r.len() + 2 <= s.len(),
{
    if s.len() > 0 && s[0] == 0x5c {
        let r = s.skip(1);
        lemma_run_octal(r);
    }
}

/// Decodes the body of a literal string, after the opening parenthesis, with
/// `depth` open parentheses. Stops after the parenthesis that closes depth
/// one; nested parentheses stay in the string. A bare CR or CR LF becomes a
/// single LF. Input that ends before the string balances is malformed.
pub open spec fn spec_lit_decode(s: Seq<u8>, depth: int) -> Result<(Seq<u8>, Seq<u8>), SpecError>
    decreases s.len(),
    via spec_lit_decode_decreases
{
    if s.len() == 0 {
        Err(SpecError::Syntax)
    } else if s[0] == 0x29 {  // )
        if depth == 1 {
            Ok((Seq::empty(), s.skip(1)))
        } else {
            match spec_lit_decode(s.skip(1), depth - 1) {
                Ok((d, r)) => Ok((seq![0x29u8] + d, r)),
                Err(e) => Err(e),
            }
        }
    } else if s[0] == 0x28 {  // (
        match spec_lit_decode(s.skip(1), depth + 1) {
            Ok((d, r)) => Ok((seq![0x28u8] + d, r)),
            Err(e) => Err(e),
        }
    } else if s[0] == 0x5c {  // backslash
        match spec_parse_escape(s) {
            Err(e) => Err(e),
            Ok((b, rest)) => match spec_lit_decode(rest, depth) {
                Ok((d, r)) => Ok(
                    (
                        match b {
                            Some(c) => seq![c] + d,
                            None => d,
                        },
                        r,
                    ),
                ),
                Err(e) => Err(e),
            },
        }
    } else if s[0] == 0x0d {  // CR or CR LF, normalized to LF
        let rest = if s.len() >= 2 && s[1] == 0x0a {
            s.skip(2)
        } else {
            s.skip(1)
        };
        match spec_lit_decode(rest, depth) {
            Ok((d, r)) => Ok((seq![0x0au8] + d, r)),
            Err(e) => Err(e),
        }
    } else {
        match spec_lit_decode(s.skip(1), depth) {
            Ok((d, r)) => Ok((seq![s[0]] + d, r)),
            Err(e) => Err(e),
        }
    }
}

#[via_fn]
proof fn spec_lit_decode_decreases(s: Seq<u8>, depth: int) {
    lemma_escape_consumes(s);
}

/// A literal string token: from its opening parenthesis to the matching
/// closing one, escapes and newlines decoded.
pub open spec fn spec_parse_literal_string(s: Seq<u8>) -> Result<(Seq<u8>, Seq<u8>), SpecError> {
    if s.len() == 0 {
        Err(SpecError::Eof)
    } else if s[0] != 0x28 {
        Err(SpecError::Syntax)
    } else {
        spec_lit_decode(s.skip(1), 1)
    }
}

// ---------------------------------------------------------------------------
// Hexadecimal strings
// ---------------------------------------------------------------------------

/// Decodes the inside of a hexadecimal string: whitespace is skipped, hex
/// digits pair into bytes, a trailing lone digit is padded with zero, and any
/// other byte is malformed. `pending` holds an unpaired digit.
pub open spec fn spec_hex_decode(t: Seq<u8>, pending: Option<u8>) -> Option<Seq<u8>>
    decreases t.len(),
{
    if t.len() == 0 {
        match pending {
            None => Some(Seq::empty()),
            Some(h) => Some(seq![(hex_value(h) * 16) as u8]),
        }
    } else if is_whitespace(t[0]) {
        spec_hex_decode(t.skip(1), pending)
    } else if is_hex_digit(t[0]) {
        match pending {
            None => spec_hex_decode(t.skip(1), Some(t[0])),
            Some(h) => match spec_hex_decode(t.skip(1), None) {
                Some(rest) => Some(seq![(hex_value(h) * 16 + hex_value(t[0])) as u8] + rest),
                None => None,
            },
        }
    } else {
        None
    }
}

/// A hexadecimal string token: from `<` to the first `>`.
pub open spec fn spec_parse_hexadecimal_string(s: Seq<u8>) -> Result<(Seq<u8>, Seq<u8>), SpecError> {
    if s.len() == 0 {
        Err(SpecError::Eof)
    } else if s[0] != 0x3c {
        Err(SpecError::Syntax)
    } else {
        match first_match(s, seq![0x3eu8]) {
            None => Err(SpecError::Syntax),
            Some(p) => match spec_hex_decode(s.subrange(1, p), None) {
                Some(bytes) => Ok((bytes, s.skip(p + 1))),
                None => Err(SpecError::ParseInt),
            },
        }
    }
}

// ---------------------------------------------------------------------------
// Stream bodies
// ---------------------------------------------------------------------------

/// The body of a stream, starting at the end-of-line that follows the
/// `stream` keyword: one LF or CR LF, then every byte up to the next
/// `endstream`, which is consumed. A lone CR after the keyword, or input
/// that ends before `endstream` arrives, is malformed.
pub open spec fn spec_stream_body(s: Seq<u8>) -> Result<(Seq<u8>, Seq<u8>), SpecError> {
    if s.len() == 0 {
        Err(SpecError::Syntax)
    } else if s[0] == 0x0a {
        spec_stream_body_from(s.skip(1))
    } else if s[0] == 0x0d {
        if s.len() >= 2 && s[1] == 0x0a {
            spec_stream_body_from(s.skip(2))
        } else {
            Err(SpecError::Syntax)
        }
    } else {
        Err(SpecError::Syntax)
    }
}

/// The byte run up to the next `endstream`, which is then consumed. A body
/// that no `endstream` closes is malformed.
pub open spec fn spec_stream_body_from(r: Seq<u8>) -> Result<(Seq<u8>, Seq<u8>), SpecError> {
    match first_match(r, kw_endstream()) {
        Some(p) => Ok((r.take(p), r.skip(p + kw_endstream().len()))),
        None => Err(SpecError::Syntax),
    }
}

// ---------------------------------------------------------------------------
// Tokens
// ---------------------------------------------------------------------------

/// The next token of `s`: whitespace and comments, then one token, decided by
/// its first byte. The `stream` keyword switches to raw-body mode and yields
/// the stream body as a token.
pub open spec fn spec_parse_token(s: Seq<u8>) -> Result<(SpecToken, Seq<u8>), SpecError> {
    match spec_parse_whitespace(s) {
        Err(e) => Err(e),
        Ok(r) => {
            let c = r[0];
            if is_numeric_byte(c) {
                spec_parse_numeric(r)
            } else if is_alphabetic(c) {
                match spec_parse_keyword(r) {
                    Err(e) => Err(e),
                    Ok((kw, r2)) => {
                        if kw == kw_stream() {
                            match spec_stream_body(r2) {
                                Ok((body, r3)) => Ok((SpecToken::Stream(body), r3)),
                                Err(e) => Err(e),
                            }
                        } else {
                            Ok((SpecToken::Keyword(kw), r2))
                        }
                    },
                }
            } else if c == 0x2f {  // /
                match spec_parse_name(r) {
                    Ok((name, r2)) => Ok((SpecToken::Name(name), r2)),
                    Err(e) => Err(e),
                }
            } else if c == 0x28 {  // (
                match spec_parse_literal_string(r) {
                    Ok((str, r2)) => Ok((SpecToken::LiteralString(str), r2)),
                    Err(e) => Err(e),
                }
            } else if c == 0x3c {  // <
                if r.len() >= 2 && r[1] == 0x3c {
                    Ok((SpecToken::BeginDictionary, r.skip(2)))
                } else if r.len() == 1 {
                    Err(SpecError::Eof)
                } else {
                    match spec_parse_hexadecimal_string(r) {
                        Ok((str, r2)) => Ok((SpecToken::HexadecimalString(str), r2)),
                        Err(e) => Err(e),
                    }
                }
            } else if c == 0x3e {  // >
                if r.len() >= 2 && r[1] == 0x3e {
                    Ok((SpecToken::EndDictionary, r.skip(2)))
                } else if r.len() == 1 {
                    Err(SpecError::Eof)
                } else {
                    Err(SpecError::Syntax)
                }
            } else if c == 0x5b {  // [
                Ok((SpecToken::BeginArray, r.skip(1)))
            } else if c == 0x5d {  // ]
                Ok((SpecToken::EndArray, r.skip(1)))
            } else {
                Err(SpecError::Syntax)
            }
        },
    }
}

// ---------------------------------------------------------------------------
// Bounds of the runs
// ---------------------------------------------------------------------------

/// The maximal alphabetic run: its bytes are alphabetic and it stops at the
/// first byte that is not.
pub proof fn lemma_run_alpha(s: Seq<u8>)
    ensures
        0 <= run_alpha(s) <= s.len(),
        forall|i: int| 0 <= i < run_alpha(s) ==> is_alphabetic(s[i]),
        run_alpha(s) < s.len() ==> !is_alphabetic(s[run_alpha(s)]),
    decreases s.len(),
{
    if s.len() > 0 && is_alphabetic(s[0]) {
        lemma_run_alpha(s.skip(1));
        assert forall|i: int| 0 <= i < run_alpha(s) implies is_alphabetic(s[i]) by {
            if i > 0 {
                assert(s.skip(1)[i - 1] == s[i]);
            }
        }
        if run_alpha(s) < s.len() {
            assert(s.skip(1)[run_alpha(s) - 1] == s[run_alpha(s)]);
        }
    }
}

/// The maximal numeric run: its bytes are numeric and it stops at the first
/// byte that is not.
pub proof fn lemma_run_numeric(s: Seq<u8>)
    ensures
        0 <= run_numeric(s) <= s.len(),
        forall|i: int| 0 <= i < run_numeric(s) ==> is_numeric_byte(s[i]),
        run_numeric(s) < s.len() ==> !is_numeric_byte(s[run_numeric(s)]),
    decreases s.len(),
{
    if s.len() > 0 && is_numeric_byte(s[0]) {
        lemma_run_numeric(s.skip(1));
        assert forall|i: int| 0 <= i < run_numeric(s) implies is_numeric_byte(s[i]) by {
            if i > 0 {
                assert(s.skip(1)[i - 1] == s[i]);
            }
        }
        if run_numeric(s) < s.len() {
            assert(s.skip(1)[run_numeric(s) - 1] == s[run_numeric(s)]);
        }
    }
}

/// The maximal name run: its bytes are name bytes and it stops at the first
/// byte that is not.
pub proof fn lemma_run_name(s: Seq<u8>)
    ensures
        0 <= run_name(s) <= s.len(),
        forall|i: int| 0 <= i < run_name(s) ==> is_name_byte(s[i]),
        run_name(s) < s.len() ==> !is_name_byte(s[run_name(s)]),
    decreases s.len(),
{
    if s.len() > 0 && is_name_byte(s[0]) {
        lemma_run_name(s.skip(1));
        assert forall|i: int| 0 <= i < run_name(s) implies is_name_byte(s[i]) by {
            if i > 0 {
                assert(s.skip(1)[i - 1] == s[i]);
            }
        }
        if run_name(s) < s.len() {
            assert(s.skip(1)[run_name(s) - 1] == s[run_name(s)]);
        }
    }
}

/// The maximal octal run: its bytes are octal digits and it stops at the
/// first byte that is not.
pub proof fn lemma_run_octal(s: Seq<u8>)
    ensures
        0 <= run_octal(s) <= s.len(),
        forall|i: int| 0 <= i < run_octal(s) ==> is_octal_digit(s[i]),
        run_octal(s) < s.len() ==> !is_octal_digit(s[run_octal(s)]),
    decreases s.len(),
{
    if s.len() > 0 && is_octal_digit(s[0]) {
        lemma_run_octal(s.skip(1));
        assert forall|i: int| 0 <= i < run_octal(s) implies is_octal_digit(s[i]) by {
            if i > 0 {
                assert(s.skip(1)[i - 1] == s[i]);
            }
        }
        if run_octal(s) < s.len() {
            assert(s.skip(1)[run_octal(s) - 1] == s[run_octal(s)]);
        }
    }
}

// ---------------------------------------------------------------------------
// What each parser consumes
// ---------------------------------------------------------------------------

/// Skipping whitespace stops within the input, on a byte that is neither
/// whitespace nor a comment sign.
pub proof fn lemma_skip_ws_bounds(s: Seq<u8>, in_comment: bool)
    ensures
        spec_skip_ws(s, in_comment) matches Ok(r) ==> {
            &&& 0 < r.len() <= s.len()
            &&& !is_whitespace(r[0])
            &&& r[0] != 0x25
        },
    decreases s.len(),
{
    if s.len() == 0 {
    } else if in_comment {
        if is_newline(s[0]) {
            lemma_skip_ws_bounds(s.skip(1), false);
        } else {
            lemma_skip_ws_bounds(s.skip(1), true);
        }
    } else if is_whitespace(s[0]) {
        lemma_skip_ws_bounds(s.skip(1), false);
    } else if s[0] == 0x25 {
        lemma_skip_ws_bounds(s.skip(1), true);
    }
}

/// Decoding a literal string consumes at least its closing parenthesis.
pub proof fn lemma_lit_decode_bounds(s: Seq<u8>, depth: int)
    ensures
        spec_lit_decode(s, depth) matches Ok((d, r)) ==> r.len() < s.len(),
    decreases s.len(),
{
    if s.len() == 0 {
    } else if s[0] == 0x29 {
        if depth != 1 {
            lemma_lit_decode_bounds(s.skip(1), depth - 1);
        }
    } else if s[0] == 0x28 {
        lemma_lit_decode_bounds(s.skip(1), depth + 1);
    } else if s[0] == 0x5c {
        lemma_escape_consumes(s);
        match spec_parse_escape(s) {
            Ok((b, rest)) => lemma_lit_decode_bounds(rest, depth),
            Err(e) => (),
        }
    } else if s[0] == 0x0d {
        let rest = if s.len() >= 2 && s[1] == 0x0a {
            s.skip(2)
        } else {
            s.skip(1)
        };
        lemma_lit_decode_bounds(rest, depth);
    } else {
        lemma_lit_decode_bounds(s.skip(1), depth);
    }
}

/// Reading a stream body consumes at least the end-of-line and the
/// `endstream` keyword.
pub proof fn lemma_stream_body_bounds(s: Seq<u8>)
    ensures
        spec_stream_body(s) matches Ok((b, r)) ==> r.len() < s.len(),
{
    if s.len() > 0 {
        if s[0] == 0x0a {
            crate::scan::lemma_first_match_from(s.skip(1), kw_endstream(), 0);
        } else if s[0] == 0x0d && s.len() >= 2 && s[1] == 0x0a {
            crate::scan::lemma_first_match_from(s.skip(2), kw_endstream(), 0);
        }
    }
}

/// Reading a number consumes at least one byte.
pub proof fn lemma_parse_number_consumes(s: Seq<u8>)
    ensures
        spec_parse_number(s) matches Ok((v, r)) ==> r.len() < s.len(),
{
    lemma_skip_ws_bounds(s, false);
    match spec_parse_whitespace(s) {
        Err(_) => (),
        Ok(r0) => {
            lemma_run_numeric(r0);
            let n = run_numeric(r0);
            if n < r0.len() && is_u64_text(r0.take(n)) {
                assert(strip_plus(r0.take(n)).len() > 0);
                assert(n >= 1);
            }
        },
    }
}

/// Tokenizer totality and progress: for every input, the next token either
/// comes with a strictly shorter remainder or an error is returned. The
/// tokenizer never hangs and never advances by zero on success.
pub proof fn lemma_token_progress(s: Seq<u8>)
    ensures
        spec_parse_token(s) matches Ok((t, r)) ==> r.len() < s.len(),
{
    lemma_skip_ws_bounds(s, false);
    match spec_parse_whitespace(s) {
        Err(_) => (),
        Ok(r0) => {
            let c = r0[0];
            lemma_run_numeric(r0);
            lemma_run_alpha(r0);
            if is_numeric_byte(c) {
            } else if is_alphabetic(c) {
                let n = run_alpha(r0);
                match spec_parse_keyword(r0) {
                    Err(_) => (),
                    Ok((kw, r2)) => {
                        if kw == kw_stream() {
                            lemma_stream_body_bounds(r2);
                        }
                    },
                }
            } else if c == 0x2f {
                let tail = r0.skip(1);
                lemma_run_name(tail);
            } else if c == 0x28 {
                lemma_lit_decode_bounds(r0.skip(1), 1);
            } else if c == 0x3c {
                if !(r0.len() >= 2 && r0[1] == 0x3c) && r0.len() != 1 {
                    crate::scan::lemma_first_match_from(r0, seq![0x3eu8], 0);
                }
            } else {
            }
        },
    }
}

} // verus!
