//! The tokenizer over PDF's byte-oriented grammar. Every parser here takes a
//! byte slice and returns the parsed value together with the remaining slice;
//! each is proved equal to its counterpart in [`crate::grammar`].

use vstd::prelude::*;
use vstd::slice::slice_subrange;

use crate::bytes::{
    is_alphabetic_char, is_numeric_char, is_whitespace_char, is_newline_char, is_name_char,
};
use crate::bytes::{is_digit, is_hex_digit, hex_value};
use crate::error::{Error, SpecError};
use crate::keywords::kw_endstream;
use crate::scan::{first_match, first_match_from, matches_at};
use crate::grammar::{
    SpecToken, spec_skip_ws, spec_parse_whitespace, spec_parse_keyword, spec_parse_number,
    spec_parse_numeric, spec_parse_name, spec_decode_name, spec_parse_escape,
    spec_lit_decode, spec_parse_literal_string, spec_hex_decode,
    spec_parse_hexadecimal_string, spec_stream_body, spec_parse_token,
    lemma_skip_ws_bounds, lemma_token_progress,
    run_alpha, run_numeric, run_name, run_octal, oct_value,
    digits_only, dec_value, strip_plus, strip_sign, has_minus,
    is_u64_text, u64_of, is_i64_text, i64_of, dot_count, digits_or_dot, is_real_text,
    lemma_run_numeric, lemma_run_octal,
    lemma_dec_value_nonneg, lemma_dec_value_step, lemma_dec_value_grows,
};

verus! {

/// A token: between a byte and an object in complexity. Some tokens are whole
/// objects (names, numbers, strings), others mark where composites begin and
/// end. A real number keeps the bytes of its numeric token.
#[derive(Debug, PartialEq)]
pub enum Token {
    Keyword(Vec<u8>),
    Integer(i64),
    Real(Vec<u8>),
    LiteralString(Vec<u8>),
    HexadecimalString(Vec<u8>),
    Name(Vec<u8>),
    BeginArray,
    EndArray,
    BeginDictionary,
    EndDictionary,
    Stream(Vec<u8>),
}

impl View for Token {
    type V = SpecToken;

    open spec fn view(&self) -> SpecToken {
        match self {
            Token::Keyword(k) => SpecToken::Keyword(k@),
            Token::Integer(i) => SpecToken::Integer(*i),
            Token::Real(t) => SpecToken::Real(t@),
            Token::LiteralString(s) => SpecToken::LiteralString(s@),
            Token::HexadecimalString(s) => SpecToken::HexadecimalString(s@),
            Token::Name(n) => SpecToken::Name(n@),
            Token::BeginArray => SpecToken::BeginArray,
            Token::EndArray => SpecToken::EndArray,
            Token::BeginDictionary => SpecToken::BeginDictionary,
            Token::EndDictionary => SpecToken::EndDictionary,
            Token::Stream(b) => SpecToken::Stream(b@),
        }
    }
}

/// The slice from index `i` to the end.
pub(crate) fn tail<'a>(raw: &'a [u8], i: usize) -> (r: &'a [u8])
    requires
        i <= raw@.len(),
    ensures
        r@ == raw@.skip(i as int),
{
    let n = raw.len();
    let r = slice_subrange(raw, i, n);
    proof {
        assert(raw@.subrange(i as int, raw@.len() as int) =~= raw@.skip(i as int));
    }
    r
}

/// Parses a block of whitespace, comments included. Reaching the end of the
/// input is an error: every caller expects to find something after.
pub fn parse_whitespace<'a>(raw: &'a [u8]) -> (r: Result<((), &'a [u8]), Error>)
    ensures
        match r {
            Ok((u, rest)) => spec_parse_whitespace(raw@) == Ok::<Seq<u8>, SpecError>(rest@),
            Err(e) => spec_parse_whitespace(raw@) == Err::<Seq<u8>, SpecError>(e@),
        },
{
    let n = raw.len();
    let mut i: usize = 0;
    let mut in_comment = false;
    proof {
        assert(raw@.skip(0) =~= raw@);
    }
    loop
        invariant
            0 <= i <= n,
            n == raw@.len(),
            spec_parse_whitespace(raw@) == spec_skip_ws(raw@.skip(i as int), in_comment),
        decreases n - i,
    {
        if i == n {
            return Err(Error::EOF);
        }
        let c = raw[i];
        proof {
            assert(raw@.skip(i as int)[0] == c);
            assert(raw@.skip(i as int).skip(1) =~= raw@.skip(i + 1));
        }
        if in_comment {
            if is_newline_char(c) {
                in_comment = false;
            }
            i = i + 1;
        } else if is_whitespace_char(c) {
            i = i + 1;
        } else if c == 0x25 {
            in_comment = true;
            i = i + 1;
        } else {
            return Ok(((), tail(raw, i)));
        }
    }
}

/// Parses a keyword: the maximal run of alphabetic bytes, possibly empty.
pub fn parse_keyword<'a>(raw: &'a [u8]) -> (r: Result<(&'a [u8], &'a [u8]), Error>)
    ensures
        match r {
            Ok((kw, rest)) => spec_parse_keyword(raw@) == Ok::<(Seq<u8>, Seq<u8>), SpecError>(
                (kw@, rest@),
            ),
            Err(e) => spec_parse_keyword(raw@) == Err::<(Seq<u8>, Seq<u8>), SpecError>(e@),
        },
{
    let n = raw.len();
    let mut i: usize = 0;
    proof {
        assert(raw@.skip(0) =~= raw@);
    }
    loop
        invariant
            0 <= i <= n,
            n == raw@.len(),
            run_alpha(raw@) == i + run_alpha(raw@.skip(i as int)),
        decreases n - i,
    {
        if i == n {
            return Err(Error::EOF);
        }
        let c = raw[i];
        proof {
            assert(raw@.skip(i as int)[0] == c);
            assert(raw@.skip(i as int).skip(1) =~= raw@.skip(i + 1));
        }
        if is_alphabetic_char(c) {
            i = i + 1;
        } else {
            proof {
                assert(run_alpha(raw@.skip(i as int)) == 0);
                assert(raw@.subrange(0, i as int) =~= raw@.take(i as int));
            }
            let kw = slice_subrange(raw, 0, i);
            return Ok((kw, tail(raw, i)));
        }
    }
}

/// Parses an unsigned decimal number after optional whitespace, as the
/// trailer and cross-reference machinery use it: an optional `+`, then at
/// least one digit, with a value that fits 64 bits.
#[verifier::loop_isolation(false)]
pub fn parse_number<'a>(raw: &'a [u8]) -> (r: Result<(u64, &'a [u8]), Error>)
    ensures
        match r {
            Ok((v, rest)) => spec_parse_number(raw@) == Ok::<(u64, Seq<u8>), SpecError>(
                (v, rest@),
            ),
            Err(e) => spec_parse_number(raw@) == Err::<(u64, Seq<u8>), SpecError>(e@),
        },
{
    let (_, r) = match parse_whitespace(raw) {
        Ok(x) => x,
        Err(e) => {
            return Err(e);
        },
    };
    let n = r.len();
    // Scan the maximal run of numeric bytes.
    let mut m: usize = 0;
    proof {
        assert(r@.skip(0) =~= r@);
    }
    while m < n && (r[m] == 0x2b || r[m] == 0x2d || r[m] == 0x2e
        || (0x30 <= r[m] && r[m] <= 0x39))
        invariant
            0 <= m <= n,
            n == r@.len(),
            run_numeric(r@) == m + run_numeric(r@.skip(m as int)),
        decreases n - m,
    {
        proof {
            assert(r@.skip(m as int)[0] == r@[m as int]);
            assert(r@.skip(m as int).skip(1) =~= r@.skip(m + 1));
        }
        m = m + 1;
    }
    if m == n {
        proof {
            assert(r@.skip(m as int).len() == 0);
            assert(run_numeric(r@.skip(m as int)) == 0);
        }
        return Err(Error::EOF);
    }
    proof {
        assert(r@.skip(m as int)[0] == r@[m as int]);
        assert(run_numeric(r@.skip(m as int)) == 0);
        assert(run_numeric(r@) == m);
    }
    let ghost t = r@.take(m as int);
    // Decode the run as digits after an optional plus sign.
    let start: usize = if m > 0 && r[0] == 0x2b {
        1
    } else {
        0
    };
    let ghost d = strip_plus(t);
    proof {
        if start == 1 {
            assert(t[0] == 0x2b);
            assert(d =~= r@.subrange(1, m as int));
        } else {
            if t.len() > 0 {
                assert(t[0] == r@[0]);
            }
            assert(d == t);
            assert(d =~= r@.subrange(0, m as int));
        }
    }
    if start == m {
        // No digits at all.
        proof {
            assert(d.len() == 0);
        }
        return Err(Error::ParseInt);
    }
    let mut val: u64 = 0;
    let mut j = start;
    while j < m
        invariant
            start <= j <= m,
            m <= n == r@.len(),
            t == r@.take(m as int),
            d == strip_plus(t),
            d =~= r@.subrange(start as int, m as int),
            digits_only(d.take(j - start)),
            val == dec_value(d.take(j - start)),
        decreases m - j,
    {
        let c = r[j];
        proof {
            assert(d[j - start] == c);
        }
        if !(0x30 <= c && c <= 0x39) {
            proof {
                assert(!is_digit(d[j - start]));
                assert(!digits_only(d));
            }
            return Err(Error::ParseInt);
        }
        let dg = (c - 0x30) as u64;
        proof {
            lemma_dec_value_step(d, j - start);
            lemma_dec_value_nonneg(d.take(j - start));
        }
        if val > (0xffff_ffff_ffff_ffffu64 - dg) / 10 {
            proof {
                vstd::arithmetic::div_mod::lemma_fundamental_div_mod(
                    u64::MAX - dg as int,
                    10,
                );
                assert(val * 10 + dg > u64::MAX);
                assert(dec_value(d.take(j - start + 1)) > u64::MAX);
                lemma_dec_value_grows(d, j - start + 1, u64::MAX as int);
                assert(d.take(d.len() as int) =~= d);
                assert(!is_u64_text(t));
            }
            return Err(Error::ParseInt);
        }
        val = val * 10 + dg;
        proof {
            assert(digits_only(d.take(j - start + 1)));
        }
        j = j + 1;
    }
    proof {
        assert(d.take(j - start) =~= d);
        assert(is_u64_text(t));
        assert(u64_of(t) == val);
    }
    Ok((val, tail(r, m)))
}

} // verus!

verus! {

/// Parses a numeric object token: the maximal run of numeric bytes, read as
/// a real number when it holds a decimal point and as a signed integer
/// otherwise. A real number token keeps its bytes.
#[verifier::loop_isolation(false)]
#[verifier::rlimit(60)]
pub fn parse_numeric<'a>(raw: &'a [u8]) -> (res: Result<(Token, &'a [u8]), Error>)
    ensures
        match res {
            Ok((tok, rest)) => spec_parse_numeric(raw@) == Ok::<(SpecToken, Seq<u8>), SpecError>(
                (tok@, rest@),
            ),
            Err(e) => spec_parse_numeric(raw@) == Err::<(SpecToken, Seq<u8>), SpecError>(e@),
        },
{
    let n = raw.len();
    // Scan the maximal run of numeric bytes.
    let mut m: usize = 0;
    proof {
        assert(raw@.skip(0) =~= raw@);
    }
    while m < n && is_numeric_char(raw[m])
        invariant
            0 <= m <= n,
            n == raw@.len(),
            run_numeric(raw@) == m + run_numeric(raw@.skip(m as int)),
        decreases n - m,
    {
        proof {
            assert(raw@.skip(m as int)[0] == raw@[m as int]);
            assert(raw@.skip(m as int).skip(1) =~= raw@.skip(m + 1));
        }
        m = m + 1;
    }
    if m == n {
        proof {
            assert(run_numeric(raw@.skip(m as int)) == 0);
        }
        return Err(Error::EOF);
    }
    proof {
        assert(raw@.skip(m as int)[0] == raw@[m as int]);
        assert(run_numeric(raw@.skip(m as int)) == 0);
        assert(run_numeric(raw@) == m);
    }
    let ghost t = raw@.take(m as int);
    // Count the decimal points of the run.
    let mut dots: usize = 0;
    let mut j: usize = 0;
    proof {
        assert(t.take(0) =~= Seq::<u8>::empty());
    }
    while j < m
        invariant
            0 <= j <= m <= n == raw@.len(),
            t == raw@.take(m as int),
            dots <= j,
            dots == dot_count(t.take(j as int)),
        decreases m - j,
    {
        proof {
            assert(t.take(j + 1).take(j as int) =~= t.take(j as int));
            assert(t.take(j + 1)[j as int] == raw@[j as int]);
        }
        if raw[j] == 0x2e {
            dots = dots + 1;
        }
        j = j + 1;
    }
    proof {
        assert(t.take(m as int) =~= t);
    }
    let has_sign = raw[0] == 0x2b || raw[0] == 0x2d;
    let start: usize = if has_sign {
        1
    } else {
        0
    };
    let ghost d = strip_sign(t);
    proof {
        lemma_run_numeric(raw@);
        if m > 0 {
            assert(t[0] == raw@[0]);
        }
        if start == 1 {
            assert(d =~= raw@.subrange(1, m as int));
        } else {
            assert(d == t);
            assert(d =~= raw@.subrange(0, m as int));
        }
    }
    if dots > 0 {
        // A real number: validate the shape and keep the bytes.
        if m - start < 2 {
            return Err(Error::ParseFloat);
        }
        let mut dots_d: usize = 0;
        let mut k = start;
        proof {
            assert(d.take(0) =~= Seq::<u8>::empty());
        }
        while k < m
            invariant
                start <= k <= m <= n == raw@.len(),
                start == if has_sign { 1int } else { 0int },
                t == raw@.take(m as int),
                d == strip_sign(t),
                d =~= raw@.subrange(start as int, m as int),
                dots_d <= k,
                dots_d == dot_count(d.take(k - start)),
                digits_or_dot(d.take(k - start)),
            decreases m - k,
        {
            let c = raw[k];
            proof {
                assert(d[k - start] == c);
                assert(d.take(k - start + 1).take(k - start) =~= d.take(k - start));
                assert(d.take(k - start + 1)[k - start] == c);
            }
            if c == 0x2e {
                dots_d = dots_d + 1;
            } else if !(0x30 <= c && c <= 0x39) {
                proof {
                    assert(!is_digit(d[k - start]) && d[k - start] != 0x2e);
                }
                return Err(Error::ParseFloat);
            }
            k = k + 1;
        }
        proof {
            assert(d.take(m - start) =~= d);
        }
        if dots_d != 1 {
            return Err(Error::ParseFloat);
        }
        proof {
            assert(is_real_text(t));
            assert(raw@.subrange(0, m as int) =~= t);
        }
        let text = vstd::slice::slice_to_vec(slice_subrange(raw, 0, m));
        return Ok((Token::Real(text), tail(raw, m)));
    }
    // An integer: decode the digits after the optional sign.
    let neg = raw[0] == 0x2d;
    if start == m {
        proof {
            assert(d.len() == 0);
        }
        return Err(Error::ParseInt);
    }
    let bound: u64 = if neg {
        0x8000_0000_0000_0000u64
    } else {
        0x7fff_ffff_ffff_ffffu64
    };
    let mut val: u64 = 0;
    let mut k = start;
    while k < m
        invariant
            start <= k <= m <= n == raw@.len(),
            start == if has_sign { 1int } else { 0int },
            neg == has_minus(t),
            bound == if neg { 0x8000_0000_0000_0000u64 } else { 0x7fff_ffff_ffff_ffffu64 },
            t == raw@.take(m as int),
            d == strip_sign(t),
            d =~= raw@.subrange(start as int, m as int),
            digits_only(d.take(k - start)),
            val == dec_value(d.take(k - start)),
            val <= bound,
        decreases m - k,
    {
        let c = raw[k];
        proof {
            assert(d[k - start] == c);
        }
        if !(0x30 <= c && c <= 0x39) {
            proof {
                assert(!is_digit(d[k - start]));
            }
            return Err(Error::ParseInt);
        }
        let dg = (c - 0x30) as u64;
        proof {
            lemma_dec_value_step(d, k - start);
            lemma_dec_value_nonneg(d.take(k - start));
        }
        if val > (bound - dg) / 10 {
            proof {
                vstd::arithmetic::div_mod::lemma_fundamental_div_mod(
                    bound - dg as int,
                    10,
                );
                assert(val * 10 + dg > bound);
                assert(dec_value(d.take(k - start + 1)) > bound);
                lemma_dec_value_grows(d, k - start + 1, bound as int);
                assert(d.take(d.len() as int) =~= d);
                assert(!is_i64_text(t));
            }
            return Err(Error::ParseInt);
        }
        val = val * 10 + dg;
        proof {
            assert(digits_only(d.take(k - start + 1)));
        }
        k = k + 1;
    }
    proof {
        assert(d.take(k - start) =~= d);
        assert(is_i64_text(t));
    }
    let tok_val: i64 = if neg {
        if val == 0x8000_0000_0000_0000u64 {
            i64::MIN
        } else {
            -(val as i64)
        }
    } else {
        val as i64
    };
    proof {
        assert(tok_val == i64_of(t));
    }
    Ok((Token::Integer(tok_val), tail(raw, m)))
}

/// Parses a name token: a `/`, then the maximal run of name bytes, in which
/// `#` followed by two hexadecimal digits decodes to one byte. Zero-length
/// names are legal.
#[verifier::loop_isolation(false)]
pub fn parse_name<'a>(raw: &'a [u8]) -> (res: Result<(Vec<u8>, &'a [u8]), Error>)
    ensures
        match res {
            Ok((name, rest)) => spec_parse_name(raw@) == Ok::<(Seq<u8>, Seq<u8>), SpecError>(
                (name@, rest@),
            ),
            Err(e) => spec_parse_name(raw@) == Err::<(Seq<u8>, Seq<u8>), SpecError>(e@),
        },
{
    if raw.len() == 0 {
        return Err(Error::EOF);
    }
    if raw[0] != 0x2f {
        return Err(Error::Syntax("Name must start with a '/'"));
    }
    let r = tail(raw, 1);
    let n = r.len();
    // Scan the maximal run of name bytes.
    let mut m: usize = 0;
    proof {
        assert(r@.skip(0) =~= r@);
    }
    while m < n && is_name_char(r[m])
        invariant
            0 <= m <= n,
            n == r@.len(),
            run_name(r@) == m + run_name(r@.skip(m as int)),
        decreases n - m,
    {
        proof {
            assert(r@.skip(m as int)[0] == r@[m as int]);
            assert(r@.skip(m as int).skip(1) =~= r@.skip(m + 1));
        }
        m = m + 1;
    }
    if m == n {
        proof {
            assert(run_name(r@.skip(m as int)) == 0);
        }
        return Err(Error::EOF);
    }
    proof {
        assert(r@.skip(m as int)[0] == r@[m as int]);
        assert(run_name(r@.skip(m as int)) == 0);
        assert(run_name(r@) == m);
    }
    let ghost t = r@.take(m as int);
    // Decode the run, with `#hh` hexadecimal escapes.
    let mut out: Vec<u8> = Vec::new();
    let mut j: usize = 0;
    proof {
        assert(t.skip(0) =~= t);
        assert(out@ + spec_decode_name(t).unwrap() =~= spec_decode_name(t).unwrap());
    }
    while j < m
        invariant
            0 <= j <= m <= n == r@.len(),
            t == r@.take(m as int),
            spec_decode_name(t) matches Some(whole) ==> {
                &&& spec_decode_name(t.skip(j as int)) matches Some(d)
                &&& whole == out@ + d
            },
            spec_decode_name(t.skip(j as int)) is Some ==> spec_decode_name(t) is Some,
        decreases m - j,
    {
        let c = r[j];
        proof {
            assert(t.skip(j as int)[0] == c);
        }
        if c == 0x23 {
            if j + 2 >= m {
                proof {
                    assert(t.skip(j as int).len() < 3);
                    assert(spec_decode_name(t.skip(j as int)) is None);
                }
                return Err(Error::Syntax("'#' in a name needs two hexadecimal digits"));
            }
            let h1 = r[j + 1];
            let h2 = r[j + 2];
            proof {
                assert(t.skip(j as int)[1] == h1);
                assert(t.skip(j as int)[2] == h2);
            }
            let v1 = hex_digit_value(h1);
            let v2 = hex_digit_value(h2);
            match (v1, v2) {
                (Some(a), Some(b)) => {
                    out.push(a * 16 + b);
                    proof {
                        assert(t.skip(j as int).skip(3) =~= t.skip(j + 3));
                    }
                    j = j + 3;
                },
                _ => {
                    proof {
                        assert(spec_decode_name(t.skip(j as int)) is None);
                    }
                    return Err(Error::Syntax("'#' in a name needs two hexadecimal digits"));
                },
            }
        } else {
            out.push(c);
            proof {
                assert(t.skip(j as int).skip(1) =~= t.skip(j + 1));
            }
            j = j + 1;
        }
    }
    proof {
        assert(t.skip(m as int).len() == 0);
        assert(spec_decode_name(t.skip(m as int)) == Some(Seq::<u8>::empty()));
        assert(out@ + Seq::<u8>::empty() =~= out@);
    }
    Ok((out, tail(r, m)))
}

/// An escape sequence read at index `i` of `raw`, which must hold the
/// backslash. Yields the decoded byte, or nothing for a line continuation,
/// and the index after the sequence.
#[verifier::loop_isolation(false)]
fn escape_at(raw: &[u8], i: usize) -> (res: Result<(Option<u8>, usize), Error>)
    requires
        i <= raw@.len(),
    ensures
        match res {
            Ok((b, ni)) => {
                &&& i < ni <= raw@.len()
                &&& spec_parse_escape(raw@.skip(i as int))
                    == Ok::<(Option<u8>, Seq<u8>), SpecError>((b, raw@.skip(ni as int)))
            },
            Err(e) => spec_parse_escape(raw@.skip(i as int))
                == Err::<(Option<u8>, Seq<u8>), SpecError>(e@),
        },
{
    let n = raw.len();
    let ghost s = raw@.skip(i as int);
    if i == n || raw[i] != 0x5c {
        proof {
            if i < n {
                assert(s[0] == raw@[i as int]);
            }
        }
        return Err(Error::Syntax("an escape sequence must start with a backslash"));
    }
    proof {
        assert(s[0] == 0x5c);
        assert(s.skip(1) =~= raw@.skip(i + 1));
    }
    let ghost rg = raw@.skip(i + 1);
    // Measure the octal run after the backslash, capped at three digits.
    let mut oct: usize = 0;
    if i + 1 < n && 0x30 <= raw[i + 1] && raw[i + 1] <= 0x37 {
        oct = 1;
        if i + 2 < n && 0x30 <= raw[i + 2] && raw[i + 2] <= 0x37 {
            oct = 2;
            if i + 3 < n && 0x30 <= raw[i + 3] && raw[i + 3] <= 0x37 {
                oct = 3;
            }
        }
    }
    proof {
        lemma_run_octal(rg);
        if i + 1 < n {
            assert(rg[0] == raw@[i + 1]);
        }
        if i + 2 < n {
            assert(rg[1] == raw@[i + 2]);
        }
        if i + 3 < n {
            assert(rg[2] == raw@[i + 3]);
        }
        assert(oct == if run_octal(rg) > 3 { 3int } else { run_octal(rg) });
    }
    if oct >= 1 {
        let d0 = (raw[i + 1] - 0x30) as u32;
        let v: u32 = if oct == 1 {
            d0
        } else if oct == 2 {
            d0 * 8 + (raw[i + 2] - 0x30) as u32
        } else {
            d0 * 64 + (raw[i + 2] - 0x30) as u32 * 8 + (raw[i + 3] - 0x30) as u32
        };
        proof {
            let t = rg.take(oct as int);
            lemma_oct_value_small(t);
            assert(t[0] == rg[0]);
            if oct >= 2 {
                assert(t[1] == rg[1]);
            }
            if oct == 3 {
                assert(t[2] == rg[2]);
            }
            assert(v == oct_value(t));
        }
        if v <= 255 {
            proof {
                assert(rg.skip(oct as int) =~= raw@.skip(i + 1 + oct));
            }
            return Ok((Some(v as u8), i + 1 + oct));
        } else {
            return Err(Error::ParseInt);
        }
    }
    if i + 1 == n {
        return Err(Error::Syntax("the input ended inside an escape sequence"));
    }
    let c = raw[i + 1];
    proof {
        assert(rg[0] == c);
        assert(rg.skip(1) =~= raw@.skip(i + 2));
    }
    if c == 0x6e {  // n
        Ok((Some(0x0a), i + 2))
    } else if c == 0x72 {  // r
        Ok((Some(0x0a), i + 2))
    } else if c == 0x74 {  // t
        Ok((Some(0x09), i + 2))
    } else if c == 0x62 {  // b
        Ok((Some(0x08), i + 2))
    } else if c == 0x66 {  // f
        Ok((Some(0x0c), i + 2))
    } else if c == 0x28 || c == 0x29 || c == 0x5c {
        Ok((Some(c), i + 2))
    } else if c == 0x0a {
        Ok((None, i + 2))
    } else if c == 0x0d {
        if i + 2 < n && raw[i + 2] == 0x0a {
            proof {
                assert(rg[1] == raw@[i + 2]);
                assert(rg.skip(2) =~= raw@.skip(i + 3));
            }
            Ok((None, i + 3))
        } else {
            proof {
                if i + 2 < n {
                    assert(rg[1] == raw@[i + 2]);
                }
            }
            Ok((None, i + 2))
        }
    } else {
        Err(Error::Syntax("invalid escape sequence"))
    }
}

/// The value of an octal digit string of up to three digits, written out.
proof fn lemma_oct_value_small(t: Seq<u8>)
    ensures
        t.len() == 1 ==> oct_value(t) == t[0] - 0x30,
        t.len() == 2 ==> oct_value(t) == (t[0] - 0x30) * 8 + (t[1] - 0x30),
        t.len() == 3 ==> oct_value(t) == ((t[0] - 0x30) * 8 + (t[1] - 0x30)) * 8 + (t[2] - 0x30),
{
    reveal_with_fuel(oct_value, 4);
    if t.len() == 1 {
        assert(t.take(0) =~= Seq::<u8>::empty());
    } else if t.len() == 2 {
        assert(t.take(1).take(0) =~= Seq::<u8>::empty());
        assert(t.take(1)[0] == t[0]);
    } else if t.len() == 3 {
        assert(t.take(2).take(1).take(0) =~= Seq::<u8>::empty());
        assert(t.take(2).take(1) =~= t.take(1));
        assert(t.take(1)[0] == t[0]);
        assert(t.take(2)[1] == t[1]);
    }
}

/// Parses an escape sequence, such as those inside a literal string, starting
/// at the backslash.
pub fn parse_escape_sequence<'a>(raw: &'a [u8]) -> (res: Result<(Option<u8>, &'a [u8]), Error>)
    ensures
        match res {
            Ok((b, rest)) => spec_parse_escape(raw@)
                == Ok::<(Option<u8>, Seq<u8>), SpecError>((b, rest@)),
            Err(e) => spec_parse_escape(raw@) == Err::<(Option<u8>, Seq<u8>), SpecError>(e@),
        },
{
    proof {
        assert(raw@.skip(0) =~= raw@);
    }
    match escape_at(raw, 0) {
        Ok((b, ni)) => Ok((b, tail(raw, ni))),
        Err(e) => Err(e),
    }
}

/// Parses a literal string token: from its opening parenthesis to the
/// matching closing one. Nested balanced parentheses stay in the string;
/// escapes decode as written; a bare CR or CR LF becomes a single LF.
#[verifier::loop_isolation(false)]
pub fn parse_literal_string<'a>(raw: &'a [u8]) -> (res: Result<(Vec<u8>, &'a [u8]), Error>)
    ensures
        match res {
            Ok((s, rest)) => spec_parse_literal_string(raw@)
                == Ok::<(Seq<u8>, Seq<u8>), SpecError>((s@, rest@)),
            Err(e) => spec_parse_literal_string(raw@)
                == Err::<(Seq<u8>, Seq<u8>), SpecError>(e@),
        },
{
    let n = raw.len();
    if n == 0 {
        return Err(Error::EOF);
    }
    if raw[0] != 0x28 {
        return Err(Error::Syntax("a literal string must start with '('"));
    }
    let mut out: Vec<u8> = Vec::new();
    let mut i: usize = 1;
    let mut depth: usize = 1;
    proof {
        assert(raw@.skip(1) =~= raw@.skip(1));
    }
    loop
        invariant
            1 <= i <= n,
            n == raw@.len(),
            1 <= depth <= i,
            spec_parse_literal_string(raw@) == match spec_lit_decode(
                raw@.skip(i as int),
                depth as int,
            ) {
                Ok(dr) => Ok::<(Seq<u8>, Seq<u8>), SpecError>((out@ + dr.0, dr.1)),
                Err(e) => Err(e),
            },
        decreases n - i,
    {
        let ghost s_i = raw@.skip(i as int);
        let ghost out0 = out@;
        if i == n {
            return Err(Error::Syntax("the input ended inside a literal string"));
        }
        let c = raw[i];
        proof {
            assert(s_i[0] == c);
            assert(s_i.skip(1) =~= raw@.skip(i + 1));
        }
        if c == 0x29 {
            if depth == 1 {
                proof {
                    assert(out0 + Seq::<u8>::empty() =~= out0);
                }
                return Ok((out, tail(raw, i + 1)));
            }
            out.push(0x29);
            depth = depth - 1;
            i = i + 1;
            proof {
                lemma_push_assoc(out0, 0x29, raw@.skip(i as int), depth as int);
            }
        } else if c == 0x28 {
            out.push(0x28);
            depth = depth + 1;
            i = i + 1;
            proof {
                lemma_push_assoc(out0, 0x28, raw@.skip(i as int), depth as int);
            }
        } else if c == 0x5c {
            match escape_at(raw, i) {
                Err(e) => {
                    return Err(e);
                },
                Ok((b, ni)) => {
                    if let Some(v) = b {
                        out.push(v);
                    }
                    i = ni;
                    proof {
                        if let Some(v) = b {
                            lemma_push_assoc(out0, v, raw@.skip(i as int), depth as int);
                        }
                    }
                },
            }
        } else if c == 0x0d {
            out.push(0x0a);
            if i + 1 < n && raw[i + 1] == 0x0a {
                proof {
                    assert(s_i[1] == raw@[i + 1]);
                    assert(s_i.skip(2) =~= raw@.skip(i + 2));
                }
                i = i + 2;
            } else {
                proof {
                    if i + 1 < n {
                        assert(s_i[1] == raw@[i + 1]);
                    }
                }
                i = i + 1;
            }
            proof {
                lemma_push_assoc(out0, 0x0a, raw@.skip(i as int), depth as int);
            }
        } else {
            out.push(c);
            i = i + 1;
            proof {
                lemma_push_assoc(out0, c, raw@.skip(i as int), depth as int);
            }
        }
    }
}

/// Appending one byte to the output commutes with prepending it to what the
/// decoder has yet to produce.
proof fn lemma_push_assoc(out: Seq<u8>, b: u8, s: Seq<u8>, depth: int)
    ensures
        match spec_lit_decode(s, depth) {
            Ok(dr) => (out.push(b)) + dr.0 =~= out + (seq![b] + dr.0),
            Err(e) => true,
        },
{
    match spec_lit_decode(s, depth) {
        Ok(dr) => {
            assert((out.push(b)) + dr.0 =~= out + (seq![b] + dr.0));
        },
        Err(e) => (),
    }
}

/// Parses a hexadecimal string token: from `<` to the first `>`. Whitespace
/// inside is skipped; hex digits pair into bytes; a trailing lone digit is
/// padded with zero.
#[verifier::loop_isolation(false)]
pub fn parse_hexadecimal_string<'a>(raw: &'a [u8]) -> (res: Result<(Vec<u8>, &'a [u8]), Error>)
    ensures
        match res {
            Ok((s, rest)) => spec_parse_hexadecimal_string(raw@)
                == Ok::<(Seq<u8>, Seq<u8>), SpecError>((s@, rest@)),
            Err(e) => spec_parse_hexadecimal_string(raw@)
                == Err::<(Seq<u8>, Seq<u8>), SpecError>(e@),
        },
{
    let n = raw.len();
    if n == 0 {
        return Err(Error::EOF);
    }
    if raw[0] != 0x3c {
        return Err(Error::Syntax("a hexadecimal string must start with '<'"));
    }
    // Find the first '>'.
    let ghost gt = seq![0x3eu8];
    let mut p: usize = 0;
    while p < n && raw[p] != 0x3e
        invariant
            0 <= p <= n,
            n == raw@.len(),
            first_match(raw@, gt) == first_match_from(raw@, gt, p as int),
        decreases n - p,
    {
        proof {
            assert(raw@.subrange(p as int, p + 1)[0] == raw@[p as int]);
            assert(!matches_at(raw@, gt, p as int));
        }
        p = p + 1;
    }
    if p == n {
        proof {
            assert(first_match_from(raw@, gt, p as int) is None);
        }
        return Err(Error::Syntax("a hexadecimal string must end with '>'"));
    }
    proof {
        assert(raw@.subrange(p as int, p + 1) =~= gt);
        assert(first_match(raw@, gt) == Some(p as int));
    }
    // Decode the digits between the brackets.
    let ghost inner = raw@.subrange(1, p as int);
    let mut out: Vec<u8> = Vec::new();
    let mut pending: Option<u8> = None;
    let mut j: usize = 1;
    proof {
        assert(inner.skip(0) =~= inner);
    }
    while j < p
        invariant
            1 <= j <= p < n == raw@.len(),
            inner == raw@.subrange(1, p as int),
            raw@[p as int] == 0x3e,
            first_match(raw@, gt) == Some(p as int),
            pending matches Some(h) ==> is_hex_digit(h),
            spec_hex_decode(inner, None) == match spec_hex_decode(inner.skip(j - 1), pending) {
                Some(d) => Some(out@ + d),
                None => None::<Seq<u8>>,
            },
        decreases p - j,
    {
        let c = raw[j];
        let ghost out0 = out@;
        proof {
            assert(inner.skip(j - 1)[0] == c);
            assert(inner.skip(j - 1).skip(1) =~= inner.skip(j + 1 - 1));
        }
        if is_whitespace_char(c) {
            j = j + 1;
        } else {
            match hex_digit_value(c) {
                None => {
                    proof {
                        assert(spec_hex_decode(inner.skip(j - 1), pending) is None);
                    }
                    return Err(Error::ParseInt);
                },
                Some(v) => {
                    match pending {
                        None => {
                            pending = Some(c);
                        },
                        Some(h) => {
                            let hv = hex_digit_value(h).unwrap();
                            out.push(hv * 16 + v);
                            pending = None;
                            proof {
                                match spec_hex_decode(inner.skip(j + 1 - 1), None::<u8>) {
                                    Some(d) => {
                                        assert(out0.push((hex_value(h) * 16 + hex_value(c)) as u8)
                                            + d =~= out0 + (seq![(hex_value(h) * 16
                                            + hex_value(c)) as u8] + d));
                                    },
                                    None => (),
                                }
                            }
                        },
                    }
                    j = j + 1;
                },
            }
        }
    }
    proof {
        assert(inner.skip(p - 1).len() == 0);
    }
    // A digit left over is padded with a zero.
    if let Some(h) = pending {
        let hv = hex_digit_value(h).unwrap();
        let ghost out0 = out@;
        out.push(hv * 16);
        proof {
            assert(out0.push((hex_value(h) * 16) as u8)
                =~= out0 + seq![(hex_value(h) * 16) as u8]);
        }
    } else {
        proof {
            assert(out@ + Seq::<u8>::empty() =~= out@);
        }
    }
    Ok((out, tail(raw, p + 1)))
}

/// Parses to the end of a stream, starting at the end-of-line that follows
/// the `stream` keyword: one LF or CR LF, then every byte up to the next
/// `endstream` keyword, which is consumed. The body is returned as a slice.
pub fn parse_to_end_of_stream<'a>(raw: &'a [u8]) -> (res: Result<(&'a [u8], &'a [u8]), Error>)
    ensures
        match res {
            Ok((body, rest)) => spec_stream_body(raw@)
                == Ok::<(Seq<u8>, Seq<u8>), SpecError>((body@, rest@)),
            Err(e) => spec_stream_body(raw@) == Err::<(Seq<u8>, Seq<u8>), SpecError>(e@),
        },
{
    let n = raw.len();
    if n == 0 {
        return Err(Error::Syntax("the 'stream' keyword must be followed by an end-of-line"));
    }
    let start: usize = if raw[0] == 0x0a {
        1
    } else if raw[0] == 0x0d {
        if n >= 2 && raw[1] == 0x0a {
            2
        } else {
            return Err(Error::Syntax("the 'stream' keyword must not be followed by a lone CR"));
        }
    } else {
        return Err(Error::Syntax("the 'stream' keyword must be followed by an end-of-line"));
    };
    let r = tail(raw, start);
    let endstream = crate::keywords::endstream_keyword();
    match crate::scan::position_of_sequence(r, endstream.as_slice()) {
        Some(p) => {
            proof {
                crate::scan::lemma_first_match_from(r@, kw_endstream(), 0);
                assert(r@.subrange(0, p as int) =~= r@.take(p as int));
                assert(r@.skip(p + kw_endstream().len() as int)
                    =~= r@.skip(p as int + kw_endstream().len() as int));
            }
            let body = slice_subrange(r, 0, p);
            let rest = tail(r, p + endstream.len());
            Ok((body, rest))
        },
        None => Err(Error::Syntax("a stream body must end with the 'endstream' keyword")),
    }
}

/// Parses the next token, deciding its shape from its first byte after
/// whitespace and comments. On success the remainder is a proper suffix of
/// the input: the tokenizer consumes a nonempty prefix and always makes
/// progress.
pub fn parse_token<'a>(raw: &'a [u8]) -> (res: Result<(Token, &'a [u8]), Error>)
    ensures
        match res {
            Ok((tok, rest)) => spec_parse_token(raw@)
                == Ok::<(SpecToken, Seq<u8>), SpecError>((tok@, rest@))
                && rest@.len() < raw@.len()
                && rest@ == raw@.skip(raw@.len() - rest@.len()),
            Err(e) => spec_parse_token(raw@) == Err::<(SpecToken, Seq<u8>), SpecError>(e@),
        },
{
    proof {
        lemma_token_progress(raw@);
        crate::laws::lemma_token_suffix(raw@);
    }
    let (_, r) = match parse_whitespace(raw) {
        Ok(x) => x,
        Err(e) => {
            return Err(e);
        },
    };
    proof {
        lemma_skip_ws_bounds(raw@, false);
    }
    let c = r[0];
    if is_numeric_char(c) {
        match parse_numeric(r) {
            Ok((tok, rest)) => Ok((tok, rest)),
            Err(e) => Err(e),
        }
    } else if is_alphabetic_char(c) {
        let (kw, r2) = match parse_keyword(r) {
            Ok(x) => x,
            Err(e) => {
                return Err(e);
            },
        };
        let stream_kw = crate::keywords::stream_keyword();
        if crate::scan::bytes_eq(kw, stream_kw.as_slice()) {
            match parse_to_end_of_stream(r2) {
                Ok((body, r3)) => Ok((Token::Stream(vstd::slice::slice_to_vec(body)), r3)),
                Err(e) => Err(e),
            }
        } else {
            Ok((Token::Keyword(vstd::slice::slice_to_vec(kw)), r2))
        }
    } else if c == 0x2f {
        match parse_name(r) {
            Ok((name, rest)) => Ok((Token::Name(name), rest)),
            Err(e) => Err(e),
        }
    } else if c == 0x28 {
        match parse_literal_string(r) {
            Ok((s, rest)) => Ok((Token::LiteralString(s), rest)),
            Err(e) => Err(e),
        }
    } else if c == 0x3c {
        if r.len() >= 2 && r[1] == 0x3c {
            Ok((Token::BeginDictionary, tail(r, 2)))
        } else if r.len() == 1 {
            Err(Error::EOF)
        } else {
            match parse_hexadecimal_string(r) {
                Ok((s, rest)) => Ok((Token::HexadecimalString(s), rest)),
                Err(e) => Err(e),
            }
        }
    } else if c == 0x3e {
        if r.len() >= 2 && r[1] == 0x3e {
            Ok((Token::EndDictionary, tail(r, 2)))
        } else if r.len() == 1 {
            Err(Error::EOF)
        } else {
            Err(Error::Syntax("expected a second '>'"))
        }
    } else if c == 0x5b {
        Ok((Token::BeginArray, tail(r, 1)))
    } else if c == 0x5d {
        Ok((Token::EndArray, tail(r, 1)))
    } else {
        Err(Error::Syntax("unrecognised token"))
    }
}

/// The value of one hexadecimal digit byte, either case.
fn hex_digit_value(c: u8) -> (r: Option<u8>)
    ensures
        match r {
            Some(v) => is_hex_digit(c) && v == hex_value(c) && v < 16,
            None => !is_hex_digit(c),
        },
{
    if 0x30 <= c && c <= 0x39 {
        Some(c - 0x30)
    } else if 0x41 <= c && c <= 0x46 {
        Some(c - 0x41 + 10)
    } else if 0x61 <= c && c <= 0x66 {
        Some(c - 0x61 + 10)
    } else {
        None
    }
}

} // verus!
