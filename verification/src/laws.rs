//! Laws of the grammar: statements that relate several functions of the
//! tokenizer, the parser and the reader, proved once and for all inputs.

use vstd::prelude::*;

use crate::bytes::{
    is_whitespace, is_newline, is_alphabetic, is_name_byte, is_numeric_byte, is_octal_digit,
    hex_value,
};
use crate::error::SpecError;
use crate::grammar::{
    SpecToken, spec_skip_ws, spec_parse_whitespace, spec_parse_keyword, spec_parse_numeric,
    spec_parse_name, spec_decode_name, spec_parse_escape, spec_lit_decode,
    spec_parse_literal_string, spec_parse_hexadecimal_string, spec_stream_body,
    spec_stream_body_from, spec_parse_token, run_alpha, run_numeric, run_name, run_octal,
    oct_value, lemma_run_alpha, lemma_run_numeric, lemma_run_name, lemma_run_octal,
    lemma_escape_consumes, lemma_token_progress, lemma_skip_ws_bounds,
};
use crate::keywords::kw_endstream;
use crate::objects::IndirectRef;
use crate::parser::{SpecEntry, spec_obj_loop, spec_parse_object_until};
use crate::scan::{matches_at, first_match, first_match_from, lemma_first_match_from};

verus! {

// ---------------------------------------------------------------------------
// Appending input does not disturb a parse that already succeeded
// ---------------------------------------------------------------------------

/// A maximal alphabetic run that stopped within the input stays the same when
/// more input is appended.
proof fn lemma_run_alpha_append(s: Seq<u8>, t: Seq<u8>)
    requires
        run_alpha(s) < s.len(),
    ensures
        run_alpha(s + t) == run_alpha(s),
    decreases s.len(),
{
    lemma_run_alpha(s);
    assert((s + t)[0] == s[0]);
    if s.len() > 0 && is_alphabetic(s[0]) {
        assert((s + t).skip(1) =~= s.skip(1) + t);
        lemma_run_alpha_append(s.skip(1), t);
    }
}

/// A maximal numeric run that stopped within the input stays the same when
/// more input is appended.
proof fn lemma_run_numeric_append(s: Seq<u8>, t: Seq<u8>)
    requires
        run_numeric(s) < s.len(),
    ensures
        run_numeric(s + t) == run_numeric(s),
    decreases s.len(),
{
    lemma_run_numeric(s);
    assert((s + t)[0] == s[0]);
    if s.len() > 0 && is_numeric_byte(s[0]) {
        assert((s + t).skip(1) =~= s.skip(1) + t);
        lemma_run_numeric_append(s.skip(1), t);
    }
}

/// A maximal name run that stopped within the input stays the same when more
/// input is appended.
proof fn lemma_run_name_append(s: Seq<u8>, t: Seq<u8>)
    requires
        run_name(s) < s.len(),
    ensures
        run_name(s + t) == run_name(s),
    decreases s.len(),
{
    lemma_run_name(s);
    assert((s + t)[0] == s[0]);
    if s.len() > 0 && is_name_byte(s[0]) {
        assert((s + t).skip(1) =~= s.skip(1) + t);
        lemma_run_name_append(s.skip(1), t);
    }
}

/// A maximal octal run that stopped within the input stays the same when more
/// input is appended.
proof fn lemma_run_octal_append(s: Seq<u8>, t: Seq<u8>)
    requires
        run_octal(s) < s.len(),
    ensures
        run_octal(s + t) == run_octal(s),
    decreases s.len(),
{
    lemma_run_octal(s);
    assert((s + t)[0] == s[0]);
    if s.len() > 0 && is_octal_digit(s[0]) {
        assert((s + t).skip(1) =~= s.skip(1) + t);
        lemma_run_octal_append(s.skip(1), t);
    }
}

/// Skipping whitespace that ends within the input is unchanged by appending.
proof fn lemma_skip_ws_append(s: Seq<u8>, t: Seq<u8>, f: bool)
    ensures
        spec_skip_ws(s, f) matches Ok(r) ==> spec_skip_ws(s + t, f) == Ok::<Seq<u8>, SpecError>(
            r + t,
        ),
    decreases s.len(),
{
    if s.len() > 0 {
        assert((s + t)[0] == s[0]);
        assert((s + t).skip(1) =~= s.skip(1) + t);
        if f {
            if is_newline(s[0]) {
                lemma_skip_ws_append(s.skip(1), t, false);
            } else {
                lemma_skip_ws_append(s.skip(1), t, true);
            }
        } else if is_whitespace(s[0]) {
            lemma_skip_ws_append(s.skip(1), t, false);
        } else if s[0] == 0x25 {
            lemma_skip_ws_append(s.skip(1), t, true);
        }
    }
}

/// A keyword read within the input is unchanged by appending.
proof fn lemma_keyword_append(s: Seq<u8>, t: Seq<u8>)
    ensures
        spec_parse_keyword(s) matches Ok((kw, r)) ==> spec_parse_keyword(s + t) == Ok::<
            (Seq<u8>, Seq<u8>),
            SpecError,
        >((kw, r + t)),
{
    lemma_run_alpha(s);
    let n = run_alpha(s);
    if n < s.len() {
        lemma_run_alpha_append(s, t);
        assert((s + t).take(n) =~= s.take(n));
        assert((s + t).skip(n) =~= s.skip(n) + t);
    }
}

/// A numeric token read within the input is unchanged by appending.
proof fn lemma_numeric_append(s: Seq<u8>, t: Seq<u8>)
    ensures
        spec_parse_numeric(s) matches Ok((tok, r)) ==> spec_parse_numeric(s + t) == Ok::<
            (SpecToken, Seq<u8>),
            SpecError,
        >((tok, r + t)),
{
    lemma_run_numeric(s);
    let n = run_numeric(s);
    if n < s.len() {
        lemma_run_numeric_append(s, t);
        assert((s + t).take(n) =~= s.take(n));
        assert((s + t).skip(n) =~= s.skip(n) + t);
    }
}

/// A name token read within the input is unchanged by appending.
proof fn lemma_name_append(s: Seq<u8>, t: Seq<u8>)
    ensures
        spec_parse_name(s) matches Ok((name, r)) ==> spec_parse_name(s + t) == Ok::<
            (Seq<u8>, Seq<u8>),
            SpecError,
        >((name, r + t)),
{
    if s.len() > 0 && s[0] == 0x2f {
        assert((s + t)[0] == s[0]);
        let body = s.skip(1);
        assert((s + t).skip(1) =~= body + t);
        lemma_run_name(body);
        let n = run_name(body);
        if n < body.len() {
            lemma_run_name_append(body, t);
            assert((body + t).take(n) =~= body.take(n));
            assert((body + t).skip(n) =~= body.skip(n) + t);
        }
    } else {
        if s.len() > 0 {
            assert((s + t)[0] == s[0]);
        }
    }
}

/// An escape sequence that leaves something behind is unchanged by appending.
proof fn lemma_escape_append(s: Seq<u8>, t: Seq<u8>)
    ensures
        spec_parse_escape(s) matches Ok((b, r)) ==> (r.len() > 0 ==> spec_parse_escape(s + t)
            == Ok::<(Option<u8>, Seq<u8>), SpecError>((b, r + t))),
{
    if s.len() > 0 && s[0] == 0x5c {
        assert((s + t)[0] == s[0]);
        let body = s.skip(1);
        assert((s + t).skip(1) =~= body + t);
        lemma_run_octal(body);
        let oct = if run_octal(body) > 3 {
            3int
        } else {
            run_octal(body)
        };
        if oct >= 1 {
            if run_octal(body) < body.len() {
                lemma_run_octal_append(body, t);
            } else {
                // The run filled the input; the remainder after at most three
                // digits would be empty only if the run was not longer.
                lemma_run_octal(body + t);
                if run_octal(body) < 3 {
                    // Then the remainder within `s` is empty.
                    assert(body.skip(oct).len() == 0);
                }
            }
            if body.skip(oct).len() > 0 {
                assert((body + t).take(oct) =~= body.take(oct));
                assert((body + t).skip(oct) =~= body.skip(oct) + t);
            }
        } else if body.len() > 0 {
            assert((body + t)[0] == body[0]);
            if body[0] == 0x0d {
                if body.len() >= 2 {
                    assert((body + t)[1] == body[1]);
                    assert((body + t).skip(2) =~= body.skip(2) + t);
                    assert((body + t).skip(1) =~= body.skip(1) + t);
                } else {
                    // A lone CR at the end leaves nothing behind.
                    assert(body.skip(1).len() == 0);
                }
            } else {
                assert((body + t).skip(1) =~= body.skip(1) + t);
            }
        }
    } else {
        if s.len() > 0 {
            assert((s + t)[0] == s[0]);
        }
    }
}

/// A literal string body decoded within the input is unchanged by appending.
proof fn lemma_lit_decode_append(s: Seq<u8>, t: Seq<u8>, depth: int)
    ensures
        spec_lit_decode(s, depth) matches Ok((d, r)) ==> spec_lit_decode(s + t, depth) == Ok::<
            (Seq<u8>, Seq<u8>),
            SpecError,
        >((d, r + t)),
    decreases s.len(),
{
    if s.len() > 0 {
        assert((s + t)[0] == s[0]);
        assert((s + t).skip(1) =~= s.skip(1) + t);
        if s[0] == 0x29 {
            if depth != 1 {
                lemma_lit_decode_append(s.skip(1), t, depth - 1);
            }
        } else if s[0] == 0x28 {
            lemma_lit_decode_append(s.skip(1), t, depth + 1);
        } else if s[0] == 0x5c {
            lemma_escape_consumes(s);
            match spec_parse_escape(s) {
                Err(_) => (),
                Ok((b, rest)) => {
                    match spec_lit_decode(rest, depth) {
                        Err(_) => (),
                        Ok(_) => {
                            // The inner decode succeeded, so the escape left
                            // something behind.
                            lemma_escape_append(s, t);
                            lemma_lit_decode_append(rest, t, depth);
                        },
                    }
                },
            }
        } else if s[0] == 0x0d {
            if s.len() >= 2 && s[1] == 0x0a {
                assert((s + t)[1] == s[1]);
                assert((s + t).skip(2) =~= s.skip(2) + t);
                lemma_lit_decode_append(s.skip(2), t, depth);
            } else {
                if s.len() >= 2 {
                    assert((s + t)[1] == s[1]);
                    lemma_lit_decode_append(s.skip(1), t, depth);
                } else {
                    // A lone CR at the end: what follows is empty, and the
                    // decode of the empty sequence fails.
                }
            }
        } else {
            lemma_lit_decode_append(s.skip(1), t, depth);
        }
    }
}

/// A first occurrence within the input is still the first when more input is
/// appended.
proof fn lemma_first_match_append(s: Seq<u8>, t: Seq<u8>, pat: Seq<u8>, i: int)
    requires
        0 <= i,
        first_match_from(s, pat, i) is Some,
    ensures
        first_match_from(s + t, pat, i) == first_match_from(s, pat, i),
    decreases s.len() - i + 1,
{
    let p = first_match_from(s, pat, i)->0;
    lemma_first_match_from(s, pat, i);
    if i + pat.len() <= s.len() {
        if matches_at(s, pat, i) {
            assert((s + t).subrange(i, i + pat.len()) =~= s.subrange(i, i + pat.len()));
        } else {
            assert((s + t).subrange(i, i + pat.len()) =~= s.subrange(i, i + pat.len()));
            assert(!matches_at(s + t, pat, i));
            lemma_first_match_append(s, t, pat, i + 1);
        }
    }
}

/// A stream body read within the input is unchanged by appending.
proof fn lemma_stream_body_append(s: Seq<u8>, t: Seq<u8>)
    ensures
        spec_stream_body(s) matches Ok((b, r)) ==> spec_stream_body(s + t) == Ok::<
            (Seq<u8>, Seq<u8>),
            SpecError,
        >((b, r + t)),
{
    if s.len() > 0 {
        assert((s + t)[0] == s[0]);
        if s[0] == 0x0a {
            lemma_stream_from_append(s.skip(1), t);
            assert((s + t).skip(1) =~= s.skip(1) + t);
        } else if s[0] == 0x0d && s.len() >= 2 && s[1] == 0x0a {
            assert((s + t)[1] == s[1]);
            lemma_stream_from_append(s.skip(2), t);
            assert((s + t).skip(2) =~= s.skip(2) + t);
        } else if s[0] == 0x0d && s.len() == 1 {
            assert((s + t)[0] == 0x0d);
        }
    }
}

/// The byte run before `endstream` is unchanged by appending.
proof fn lemma_stream_from_append(r: Seq<u8>, t: Seq<u8>)
    ensures
        spec_stream_body_from(r) matches Ok((b, rest)) ==> spec_stream_body_from(r + t) == Ok::<
            (Seq<u8>, Seq<u8>),
            SpecError,
        >((b, rest + t)),
{
    match first_match(r, kw_endstream()) {
        None => (),
        Some(p) => {
            lemma_first_match_from(r, kw_endstream(), 0);
            lemma_first_match_append(r, t, kw_endstream(), 0);
            assert((r + t).take(p) =~= r.take(p));
            assert((r + t).skip(p + kw_endstream().len()) =~= r.skip(p + kw_endstream().len())
                + t);
        },
    }
}

/// A hexadecimal string read within the input is unchanged by appending.
proof fn lemma_hex_append(s: Seq<u8>, t: Seq<u8>)
    ensures
        spec_parse_hexadecimal_string(s) matches Ok((b, r)) ==> spec_parse_hexadecimal_string(
            s + t,
        ) == Ok::<(Seq<u8>, Seq<u8>), SpecError>((b, r + t)),
{
    if s.len() > 0 {
        assert((s + t)[0] == s[0]);
        if s[0] == 0x3c {
            match first_match(s, seq![0x3eu8]) {
                None => (),
                Some(p) => {
                    lemma_first_match_from(s, seq![0x3eu8], 0);
                    lemma_first_match_append(s, t, seq![0x3eu8], 0);
                    assert(s.subrange(p, p + 1)[0] == s[p]);
                    assert(p >= 1);
                    assert((s + t).subrange(1, p) =~= s.subrange(1, p));
                    assert((s + t).skip(p + 1) =~= s.skip(p + 1) + t);
                },
            }
        }
    }
}

/// Parser locality at the token level: a token read within the input is the
/// same token when anything is appended; only the remainder grows.
pub proof fn lemma_token_append(s: Seq<u8>, t: Seq<u8>)
    ensures
        spec_parse_token(s) matches Ok((tok, r)) ==> spec_parse_token(s + t) == Ok::<
            (SpecToken, Seq<u8>),
            SpecError,
        >((tok, r + t)),
{
    lemma_skip_ws_append(s, t, false);
    lemma_skip_ws_bounds(s, false);
    match spec_parse_whitespace(s) {
        Err(_) => (),
        Ok(r0) => {
            let c = r0[0];
            assert((r0 + t)[0] == c);
            if is_numeric_byte(c) {
                lemma_numeric_append(r0, t);
            } else if is_alphabetic(c) {
                lemma_keyword_append(r0, t);
                match spec_parse_keyword(r0) {
                    Err(_) => (),
                    Ok((kw, r2)) => {
                        if kw == crate::keywords::kw_stream() {
                            lemma_stream_body_append(r2, t);
                        }
                    },
                }
            } else if c == 0x2f {
                lemma_name_append(r0, t);
            } else if c == 0x28 {
                if r0.len() > 0 {
                    assert((r0 + t).skip(1) =~= r0.skip(1) + t);
                    lemma_lit_decode_append(r0.skip(1), t, 1);
                }
            } else if c == 0x3c {
                if r0.len() >= 2 && r0[1] == 0x3c {
                    assert((r0 + t)[1] == r0[1]);
                    assert((r0 + t).skip(2) =~= r0.skip(2) + t);
                } else if r0.len() == 1 {
                } else {
                    assert((r0 + t)[1] == r0[1]);
                    lemma_hex_append(r0, t);
                }
            } else if c == 0x3e {
                if r0.len() >= 2 && r0[1] == 0x3e {
                    assert((r0 + t)[1] == r0[1]);
                    assert((r0 + t).skip(2) =~= r0.skip(2) + t);
                } else if r0.len() >= 2 {
                    assert((r0 + t)[1] == r0[1]);
                }
            } else if c == 0x5b || c == 0x5d {
                assert((r0 + t).skip(1) =~= r0.skip(1) + t);
            }
        },
    }
}

/// Parser locality: a prefix that parses to an object in isolation parses to
/// the same object with any suffix appended; only the remainder differs.
pub proof fn lemma_parse_prefix_invariance(p: Seq<u8>, t: Seq<u8>, kw: Seq<u8>)
    ensures
        spec_parse_object_until(p, kw) matches Ok((v, r)) ==> spec_parse_object_until(p + t, kw)
            == Ok::<((Option<IndirectRef>, crate::objects::SpecObject), Seq<u8>), SpecError>(
            (v, r + t),
        ),
{
    lemma_obj_loop_append(p, t, kw, Seq::empty(), None);
}

/// Parser locality, over the whole stack machine.
proof fn lemma_obj_loop_append(
    s: Seq<u8>,
    t: Seq<u8>,
    kw: Seq<u8>,
    stack: Seq<SpecEntry>,
    env: Option<IndirectRef>,
)
    ensures
        spec_obj_loop(s, kw, stack, env) matches Ok((v, r)) ==> spec_obj_loop(s + t, kw, stack, env)
            == Ok::<((Option<IndirectRef>, crate::objects::SpecObject), Seq<u8>), SpecError>(
            (v, r + t),
        ),
    decreases s.len(),
{
    lemma_token_append(s, t);
    lemma_token_progress(s);
    match spec_parse_token(s) {
        Err(_) => (),
        Ok((tok, r)) => {
            match tok {
                SpecToken::Integer(i) => {
                    lemma_obj_loop_append(
                        r,
                        t,
                        kw,
                        stack.push(
                            SpecEntry::Obj(crate::objects::SpecObject::Integer(i)),
                        ),
                        env,
                    );
                },
                SpecToken::Real(x) => {
                    lemma_obj_loop_append(
                        r,
                        t,
                        kw,
                        stack.push(SpecEntry::Obj(crate::objects::SpecObject::Real(x))),
                        env,
                    );
                },
                SpecToken::LiteralString(b) => {
                    lemma_obj_loop_append(
                        r,
                        t,
                        kw,
                        stack.push(SpecEntry::Obj(crate::objects::SpecObject::String(b))),
                        env,
                    );
                },
                SpecToken::HexadecimalString(b) => {
                    lemma_obj_loop_append(
                        r,
                        t,
                        kw,
                        stack.push(SpecEntry::Obj(crate::objects::SpecObject::String(b))),
                        env,
                    );
                },
                SpecToken::Name(n) => {
                    lemma_obj_loop_append(
                        r,
                        t,
                        kw,
                        stack.push(SpecEntry::Obj(crate::objects::SpecObject::Name(n))),
                        env,
                    );
                },
                SpecToken::BeginArray => {
                    lemma_obj_loop_append(r, t, kw, stack.push(SpecEntry::ArrayMark), env);
                },
                SpecToken::EndArray => {
                    match crate::parser::spec_close_array(stack, Seq::empty()) {
                        Some(st) => {
                            lemma_obj_loop_append(r, t, kw, st, env);
                        },
                        None => (),
                    }
                },
                SpecToken::BeginDictionary => {
                    lemma_obj_loop_append(r, t, kw, stack.push(SpecEntry::DictMark), env);
                },
                SpecToken::EndDictionary => {
                    match crate::parser::spec_close_dict(stack, Seq::empty()) {
                        Some(st) => {
                            lemma_obj_loop_append(r, t, kw, st, env);
                        },
                        None => (),
                    }
                },
                SpecToken::Stream(body) => {
                    if stack.len() >= 1 && stack.last() matches SpecEntry::Obj(
                        crate::objects::SpecObject::Dictionary(d),
                    ) {
                        let d = stack.last()->Obj_0->Dictionary_0;
                        match crate::parser::spec_filter_list(d) {
                            Err(_) => (),
                            Ok(names) => match crate::parser::spec_apply_filters(names, body) {
                                Err(_) => (),
                                Ok(decoded) => {
                                    lemma_obj_loop_append(
                                        r,
                                        t,
                                        kw,
                                        stack.drop_last().push(
                                            SpecEntry::Obj(
                                                crate::objects::SpecObject::Stream(
                                                    Box::new(
                                                        crate::objects::SpecObject::Dictionary(d),
                                                    ),
                                                    decoded,
                                                ),
                                            ),
                                        ),
                                        env,
                                    );
                                },
                            },
                        }
                    }
                },
                SpecToken::Keyword(k) => {
                    if k == kw {
                    } else if k == crate::keywords::kw_true() {
                        lemma_obj_loop_append(
                            r,
                            t,
                            kw,
                            stack.push(
                                SpecEntry::Obj(crate::objects::SpecObject::Boolean(true)),
                            ),
                            env,
                        );
                    } else if k == crate::keywords::kw_false() {
                        lemma_obj_loop_append(
                            r,
                            t,
                            kw,
                            stack.push(
                                SpecEntry::Obj(crate::objects::SpecObject::Boolean(false)),
                            ),
                            env,
                        );
                    } else if k == crate::keywords::kw_null() {
                        lemma_obj_loop_append(
                            r,
                            t,
                            kw,
                            stack.push(SpecEntry::Obj(crate::objects::SpecObject::Null)),
                            env,
                        );
                    } else if k == crate::keywords::kw_r() {
                        match crate::parser::spec_take_ref(stack) {
                            Some((ind, st)) => {
                                lemma_obj_loop_append(
                                    r,
                                    t,
                                    kw,
                                    st.push(
                                        SpecEntry::Obj(
                                            crate::objects::SpecObject::Indirect(ind),
                                        ),
                                    ),
                                    env,
                                );
                            },
                            None => (),
                        }
                    } else if k == crate::keywords::kw_obj() {
                        match crate::parser::spec_take_ref(stack) {
                            Some((ind, st)) => {
                                lemma_obj_loop_append(r, t, kw, st, Some(ind));
                            },
                            None => (),
                        }
                    }
                },
            }
        },
    }
}

// ---------------------------------------------------------------------------
// What a parse leaves behind is a suffix of its input
// ---------------------------------------------------------------------------

/// `r` is the tail of `s`: the bytes of `s` from some point on.
pub open spec fn is_suffix_of(r: Seq<u8>, s: Seq<u8>) -> bool {
    r.len() <= s.len() && r == s.skip(s.len() - r.len())
}

/// Every tail taken by `skip` is a suffix.
proof fn lemma_skip_is_suffix(s: Seq<u8>, k: int)
    requires
        0 <= k <= s.len(),
    ensures
        is_suffix_of(s.skip(k), s),
{
    assert(s.skip(k) =~= s.skip(s.len() - s.skip(k).len()));
}

/// A suffix of a suffix is a suffix.
proof fn lemma_suffix_trans(r: Seq<u8>, m: Seq<u8>, s: Seq<u8>)
    requires
        is_suffix_of(r, m),
        is_suffix_of(m, s),
    ensures
        is_suffix_of(r, s),
{
    assert(m.skip(m.len() - r.len()) =~= s.skip(s.len() - r.len()));
}

/// Skipping whitespace leaves a suffix behind.
proof fn lemma_skip_ws_suffix(s: Seq<u8>, f: bool)
    ensures
        spec_skip_ws(s, f) matches Ok(r) ==> is_suffix_of(r, s),
    decreases s.len(),
{
    if s.len() > 0 {
        lemma_skip_ws_suffix(s.skip(1), true);
        lemma_skip_ws_suffix(s.skip(1), false);
        lemma_skip_is_suffix(s, 1);
        match spec_skip_ws(s, f) {
            Ok(r) => {
                if !(!f && !is_whitespace(s[0]) && s[0] != 0x25) {
                    match spec_skip_ws(s.skip(1), true) {
                        Ok(r1) => lemma_suffix_trans(r1, s.skip(1), s),
                        Err(_) => (),
                    }
                    match spec_skip_ws(s.skip(1), false) {
                        Ok(r1) => lemma_suffix_trans(r1, s.skip(1), s),
                        Err(_) => (),
                    }
                } else {
                    assert(s.skip(0) =~= s);
                }
            },
            Err(_) => (),
        }
    }
}

/// An escape sequence leaves a suffix behind.
proof fn lemma_escape_suffix(s: Seq<u8>)
    ensures
        spec_parse_escape(s) matches Ok((b, r)) ==> is_suffix_of(r, s),
{
    if s.len() > 0 && s[0] == 0x5c {
        let body = s.skip(1);
        lemma_run_octal(body);
        match spec_parse_escape(s) {
            Ok((b, r)) => {
                lemma_skip_is_suffix(s, 1);
                let oct = if run_octal(body) > 3 {
                    3int
                } else {
                    run_octal(body)
                };
                if oct >= 1 {
                    lemma_skip_is_suffix(body, oct);
                    lemma_suffix_trans(body.skip(oct), body, s);
                } else {
                    lemma_skip_is_suffix(body, 1);
                    lemma_suffix_trans(body.skip(1), body, s);
                    if body.len() >= 2 {
                        lemma_skip_is_suffix(body, 2);
                        lemma_suffix_trans(body.skip(2), body, s);
                    }
                }
            },
            Err(_) => (),
        }
    }
}

/// Decoding a literal string leaves a suffix behind.
proof fn lemma_lit_decode_suffix(s: Seq<u8>, depth: int)
    ensures
        spec_lit_decode(s, depth) matches Ok((d, r)) ==> is_suffix_of(r, s),
    decreases s.len(),
{
    if s.len() > 0 {
        lemma_skip_is_suffix(s, 1);
        if s[0] == 0x29 {
            if depth != 1 {
                lemma_lit_decode_suffix(s.skip(1), depth - 1);
                match spec_lit_decode(s.skip(1), depth - 1) {
                    Ok((d, r)) => lemma_suffix_trans(r, s.skip(1), s),
                    Err(_) => (),
                }
            }
        } else if s[0] == 0x28 {
            lemma_lit_decode_suffix(s.skip(1), depth + 1);
            match spec_lit_decode(s.skip(1), depth + 1) {
                Ok((d, r)) => lemma_suffix_trans(r, s.skip(1), s),
                Err(_) => (),
            }
        } else if s[0] == 0x5c {
            lemma_escape_consumes(s);
            lemma_escape_suffix(s);
            match spec_parse_escape(s) {
                Err(_) => (),
                Ok((b, rest)) => {
                    lemma_lit_decode_suffix(rest, depth);
                    match spec_lit_decode(rest, depth) {
                        Ok((d, r)) => lemma_suffix_trans(r, rest, s),
                        Err(_) => (),
                    }
                },
            }
        } else if s[0] == 0x0d {
            let rest = if s.len() >= 2 && s[1] == 0x0a {
                s.skip(2)
            } else {
                s.skip(1)
            };
            lemma_skip_is_suffix(s, s.len() - rest.len());
            lemma_lit_decode_suffix(rest, depth);
            match spec_lit_decode(rest, depth) {
                Ok((d, r)) => lemma_suffix_trans(r, rest, s),
                Err(_) => (),
            }
        } else {
            lemma_lit_decode_suffix(s.skip(1), depth);
            match spec_lit_decode(s.skip(1), depth) {
                Ok((d, r)) => lemma_suffix_trans(r, s.skip(1), s),
                Err(_) => (),
            }
        }
    }
}

/// Tokenizer progress, in full: a token's remainder is a proper suffix of the
/// input — the tokenizer consumes a nonempty prefix and keeps the rest.
pub proof fn lemma_token_suffix(s: Seq<u8>)
    ensures
        spec_parse_token(s) matches Ok((t, r)) ==> is_suffix_of(r, s) && r.len() < s.len(),
{
    lemma_token_progress(s);
    lemma_skip_ws_suffix(s, false);
    lemma_skip_ws_bounds(s, false);
    match spec_parse_whitespace(s) {
        Err(_) => (),
        Ok(r0) => {
            let c = r0[0];
            lemma_run_numeric(r0);
            lemma_run_alpha(r0);
            if is_numeric_byte(c) {
                match spec_parse_numeric(r0) {
                    Ok((t, r)) => {
                        lemma_skip_is_suffix(r0, run_numeric(r0));
                        lemma_suffix_trans(r, r0, s);
                    },
                    Err(_) => (),
                }
            } else if is_alphabetic(c) {
                let n = run_alpha(r0);
                match spec_parse_keyword(r0) {
                    Err(_) => (),
                    Ok((kw, r2)) => {
                        lemma_skip_is_suffix(r0, n);
                        if kw == crate::keywords::kw_stream() {
                            match spec_stream_body(r2) {
                                Ok((body, r3)) => {
                                    lemma_stream_body_suffix(r2);
                                    lemma_suffix_trans(r3, r2, r0);
                                    lemma_suffix_trans(r3, r0, s);
                                },
                                Err(_) => (),
                            }
                        } else {
                            lemma_suffix_trans(r2, r0, s);
                        }
                    },
                }
            } else if c == 0x2f {
                match spec_parse_name(r0) {
                    Ok((name, r2)) => {
                        let body = r0.skip(1);
                        lemma_run_name(body);
                        lemma_skip_is_suffix(r0, 1);
                        lemma_skip_is_suffix(body, run_name(body));
                        lemma_suffix_trans(body.skip(run_name(body)), body, r0);
                        lemma_suffix_trans(r2, r0, s);
                    },
                    Err(_) => (),
                }
            } else if c == 0x28 {
                match spec_parse_literal_string(r0) {
                    Ok((str, r2)) => {
                        lemma_lit_decode_suffix(r0.skip(1), 1);
                        lemma_skip_is_suffix(r0, 1);
                        lemma_suffix_trans(r2, r0.skip(1), r0);
                        lemma_suffix_trans(r2, r0, s);
                    },
                    Err(_) => (),
                }
            } else if c == 0x3c {
                if r0.len() >= 2 && r0[1] == 0x3c {
                    lemma_skip_is_suffix(r0, 2);
                    lemma_suffix_trans(r0.skip(2), r0, s);
                } else if r0.len() == 1 {
                } else {
                    match spec_parse_hexadecimal_string(r0) {
                        Ok((str, r2)) => {
                            match first_match(r0, seq![0x3eu8]) {
                                None => (),
                                Some(p) => {
                                    lemma_first_match_from(r0, seq![0x3eu8], 0);
                                    lemma_skip_is_suffix(r0, p + 1);
                                    lemma_suffix_trans(r2, r0, s);
                                },
                            }
                        },
                        Err(_) => (),
                    }
                }
            } else if c == 0x3e {
                if r0.len() >= 2 && r0[1] == 0x3e {
                    lemma_skip_is_suffix(r0, 2);
                    lemma_suffix_trans(r0.skip(2), r0, s);
                }
            } else if c == 0x5b || c == 0x5d {
                lemma_skip_is_suffix(r0, 1);
                lemma_suffix_trans(r0.skip(1), r0, s);
            }
        },
    }
}

/// A stream body leaves a suffix behind.
proof fn lemma_stream_body_suffix(s: Seq<u8>)
    ensures
        spec_stream_body(s) matches Ok((b, r)) ==> is_suffix_of(r, s),
{
    if s.len() > 0 {
        if s[0] == 0x0a || (s[0] == 0x0d && s.len() >= 2 && s[1] == 0x0a) {
            let eol: int = if s[0] == 0x0a {
                1
            } else {
                2
            };
            let body = s.skip(eol);
            match first_match(body, kw_endstream()) {
                None => (),
                Some(p) => {
                    lemma_first_match_from(body, kw_endstream(), 0);
                    lemma_skip_is_suffix(s, eol);
                    lemma_skip_is_suffix(body, p + kw_endstream().len());
                    lemma_suffix_trans(body.skip(p + kw_endstream().len()), body, s);
                },
            }
        }
    }
}

// ---------------------------------------------------------------------------
// Whitespace and comments between tokens do not matter
// ---------------------------------------------------------------------------

/// A block of padding: whitespace bytes and comments, each comment closed by
/// a newline.
pub open spec fn is_padding(w: Seq<u8>) -> bool
    decreases w.len(), 0int,
{
    if w.len() == 0 {
        true
    } else if is_whitespace(w[0]) {
        is_padding(w.skip(1))
    } else if w[0] == 0x25 {
        is_comment_padding(w.skip(1))
    } else {
        false
    }
}

/// The rest of a comment: bytes up to a newline, then padding again.
pub open spec fn is_comment_padding(w: Seq<u8>) -> bool
    decreases w.len(), 1int,
{
    if w.len() == 0 {
        false
    } else if is_newline(w[0]) {
        is_padding(w.skip(1))
    } else {
        is_comment_padding(w.skip(1))
    }
}

/// Padding in front of the input disappears into the whitespace skip.
proof fn lemma_padding_skip_ws(w: Seq<u8>, s: Seq<u8>)
    requires
        is_padding(w),
    ensures
        spec_skip_ws(w + s, false) == spec_skip_ws(s, false),
    decreases w.len(), 0int,
{
    if w.len() == 0 {
        assert(w + s =~= s);
    } else {
        assert((w + s)[0] == w[0]);
        assert((w + s).skip(1) =~= w.skip(1) + s);
        if is_whitespace(w[0]) {
            lemma_padding_skip_ws(w.skip(1), s);
        } else {
            lemma_comment_padding_skip_ws(w.skip(1), s);
        }
    }
}

/// A closed comment in front of the input disappears into the whitespace
/// skip.
proof fn lemma_comment_padding_skip_ws(w: Seq<u8>, s: Seq<u8>)
    requires
        is_comment_padding(w),
    ensures
        spec_skip_ws(w + s, true) == spec_skip_ws(s, false),
    decreases w.len(), 1int,
{
    assert((w + s)[0] == w[0]);
    assert((w + s).skip(1) =~= w.skip(1) + s);
    if is_newline(w[0]) {
        lemma_padding_skip_ws(w.skip(1), s);
    } else {
        lemma_comment_padding_skip_ws(w.skip(1), s);
    }
}

/// Whitespace irrelevance at the token level: inserting whitespace or
/// comments before a token changes nothing about it.
pub proof fn lemma_token_padding(w: Seq<u8>, s: Seq<u8>)
    requires
        is_padding(w),
    ensures
        spec_parse_token(w + s) == spec_parse_token(s),
{
    lemma_padding_skip_ws(w, s);
}

/// Whitespace irrelevance for the object parser, at every state: whatever
/// the stack and envelope hold — that is, between any two tokens of a parse —
/// inserting whitespace or comments before the next token does not change
/// the result.
pub proof fn lemma_obj_loop_padding(
    w: Seq<u8>,
    s: Seq<u8>,
    kw: Seq<u8>,
    stack: Seq<SpecEntry>,
    env: Option<IndirectRef>,
)
    requires
        is_padding(w),
    ensures
        spec_obj_loop(w + s, kw, stack, env) == spec_obj_loop(s, kw, stack, env),
{
    lemma_token_padding(w, s);
}

/// Whitespace irrelevance for the object parser: inserting whitespace or
/// comments before the next token does not change the parse result.
pub proof fn lemma_parse_object_padding(w: Seq<u8>, s: Seq<u8>, kw: Seq<u8>)
    requires
        is_padding(w),
    ensures
        spec_parse_object_until(w + s, kw) == spec_parse_object_until(s, kw),
{
    lemma_obj_loop_padding(w, s, kw, Seq::empty(), None);
}

// ---------------------------------------------------------------------------
// Escape decoding round trips
// ---------------------------------------------------------------------------

/// The hexadecimal digit of a value below sixteen, upper case.
pub open spec fn hex_digit_of(v: u8) -> u8
    recommends
        v < 16,
{
    if v < 10 {
        (0x30 + v) as u8
    } else {
        (0x41 + (v - 10)) as u8
    }
}

/// The octal digit of a value below eight.
pub open spec fn oct_digit_of(v: u8) -> u8
    recommends
        v < 8,
{
    (0x30 + v) as u8
}

/// Name round trip: for every byte, the name `/#hh` written with the byte's
/// two hexadecimal digits decodes to exactly that byte.
pub proof fn lemma_name_hex_round_trip(b: u8)
    ensures
        spec_parse_name(seq![0x2fu8, 0x23, hex_digit_of(b / 16), hex_digit_of(b % 16), 0x20])
            == Ok::<(Seq<u8>, Seq<u8>), SpecError>((seq![b], seq![0x20u8])),
{
    reveal_with_fuel(run_name, 6);
    reveal_with_fuel(spec_decode_name, 5);
    let h1 = hex_digit_of(b / 16);
    let h2 = hex_digit_of(b % 16);
    let s = seq![0x2fu8, 0x23, h1, h2, 0x20];
    let body = s.skip(1);
    assert(b / 16 < 16 && b % 16 < 16) by (bit_vector);
    assert(body =~= seq![0x23u8, h1, h2, 0x20]);
    assert(body.skip(1) =~= seq![h1, h2, 0x20]);
    assert(body.skip(1).skip(1) =~= seq![h2, 0x20]);
    assert(body.skip(1).skip(1).skip(1) =~= seq![0x20u8]);
    assert(run_name(seq![0x20u8]) == 0);
    assert(run_name(body) == 3);
    let t = body.take(3);
    assert(t =~= seq![0x23u8, h1, h2]);
    assert(t.skip(3) =~= Seq::<u8>::empty());
    assert(spec_decode_name(Seq::<u8>::empty()) == Some(Seq::<u8>::empty()));
    assert(hex_value(h1) == b / 16);
    assert(hex_value(h2) == b % 16);
    assert((b / 16) * 16 + (b % 16) == b) by (bit_vector);
    assert(spec_decode_name(t) == Some(seq![b] + Seq::<u8>::empty()));
    assert(seq![b] + Seq::<u8>::empty() =~= seq![b]);
    assert(body.skip(3) =~= seq![0x20u8]);
}

/// String round trip: for every byte, the literal string `(\ooo)` written
/// with the byte's three octal digits decodes to exactly that byte.
pub proof fn lemma_string_octal_round_trip(b: u8)
    ensures
        spec_parse_literal_string(
            seq![
                0x28u8,
                0x5c,
                oct_digit_of(b / 64),
                oct_digit_of((b / 8) % 8),
                oct_digit_of(b % 8),
                0x29,
            ],
        ) == Ok::<(Seq<u8>, Seq<u8>), SpecError>((seq![b], Seq::<u8>::empty())),
{
    reveal_with_fuel(run_octal, 6);
    reveal_with_fuel(oct_value, 5);
    reveal_with_fuel(spec_lit_decode, 3);
    let d1 = oct_digit_of(b / 64);
    let d2 = oct_digit_of((b / 8) % 8);
    let d3 = oct_digit_of(b % 8);
    let s = seq![0x28u8, 0x5c, d1, d2, d3, 0x29];
    assert(b / 64 < 8 && (b / 8) % 8 < 8 && b % 8 < 8) by (bit_vector);
    let inner = s.skip(1);
    assert(inner =~= seq![0x5cu8, d1, d2, d3, 0x29]);
    // The escape sequence: three octal digits.
    let body = inner.skip(1);
    assert(body =~= seq![d1, d2, d3, 0x29]);
    assert(body.skip(1) =~= seq![d2, d3, 0x29]);
    assert(body.skip(1).skip(1) =~= seq![d3, 0x29]);
    assert(body.skip(1).skip(1).skip(1) =~= seq![0x29u8]);
    assert(run_octal(seq![0x29u8]) == 0);
    assert(run_octal(body) == 3);
    let t = body.take(3);
    assert(t =~= seq![d1, d2, d3]);
    assert(t.take(2) =~= seq![d1, d2]);
    assert(t.take(2).take(1) =~= seq![d1]);
    assert(t.take(2).take(1).take(0) =~= Seq::<u8>::empty());
    assert(oct_value(t) == ((d1 - 0x30) * 8 + (d2 - 0x30)) * 8 + (d3 - 0x30));
    assert(((b / 64) * 8 + ((b / 8) % 8)) * 8 + (b % 8) == b) by (bit_vector);
    assert(oct_value(t) == b);
    assert(body.skip(3) =~= seq![0x29u8]);
    assert(spec_parse_escape(inner) == Ok::<(Option<u8>, Seq<u8>), SpecError>(
        (Some(b), seq![0x29u8]),
    ));
    // The closing parenthesis ends the string.
    assert(seq![0x29u8].skip(1) =~= Seq::<u8>::empty());
    assert(spec_lit_decode(seq![0x29u8], 1) == Ok::<(Seq<u8>, Seq<u8>), SpecError>(
        (Seq::<u8>::empty(), Seq::<u8>::empty()),
    ));
    assert(seq![b] + Seq::<u8>::empty() =~= seq![b]);
}

// ---------------------------------------------------------------------------
// Cross-reference completeness
// ---------------------------------------------------------------------------

/// Reading cross-reference rows never loses an entry.
pub proof fn lemma_xref_lines_monotone(
    s: Seq<u8>,
    first: int,
    count: int,
    m: Map<IndirectRef, Option<u64>>,
    r: IndirectRef,
)
    requires
        m.contains_key(r),
    ensures
        crate::pdf_file::spec_xref_lines(s, first, count, m) matches Ok((m2, rest))
            ==> m2.contains_key(r),
    decreases count,
{
    if count > 0 && s.len() >= 20 {
        let off_t = s.subrange(0, 10);
        let gen_t = s.subrange(11, 16);
        if crate::grammar::digits_only(off_t) && crate::grammar::digits_only(gen_t)
            && crate::grammar::dec_value(gen_t) <= u16::MAX && first <= u32::MAX {
            let reference = IndirectRef {
                number: first as u32,
                generation: crate::grammar::dec_value(gen_t) as u16,
            };
            let offset = if s[17] == 0x6e {
                Some(crate::grammar::dec_value(off_t) as u64)
            } else {
                None::<u64>
            };
            lemma_xref_lines_monotone(
                s.skip(20),
                first + 1,
                count - 1,
                m.insert(reference, offset),
                r,
            );
            }
    }
}

/// Cross-reference completeness: once a subsection's rows are read, every
/// object number the subsection covers has an entry in the table, under the
/// generation its row names.
pub proof fn lemma_xref_lines_complete(
    s: Seq<u8>,
    first: int,
    count: int,
    m: Map<IndirectRef, Option<u64>>,
    k: int,
)
    requires
        0 <= k < count,
    ensures
        crate::pdf_file::spec_xref_lines(s, first, count, m) matches Ok((m2, rest))
            ==> exists|g: u16|
            #[trigger] m2.contains_key(IndirectRef { number: (first + k) as u32, generation: g }),
    decreases k,
{
    if s.len() >= 20 {
        let off_t = s.subrange(0, 10);
        let gen_t = s.subrange(11, 16);
        if crate::grammar::digits_only(off_t) && crate::grammar::digits_only(gen_t)
            && crate::grammar::dec_value(gen_t) <= u16::MAX && first <= u32::MAX {
            let gen = crate::grammar::dec_value(gen_t) as u16;
            let reference = IndirectRef { number: first as u32, generation: gen };
            let offset = if s[17] == 0x6e {
                Some(crate::grammar::dec_value(off_t) as u64)
            } else {
                None::<u64>
            };
            let m1 = m.insert(reference, offset);
            if k == 0 {
                lemma_xref_lines_monotone(s.skip(20), first + 1, count - 1, m1, reference);
                assert(crate::pdf_file::spec_xref_lines(s, first, count, m) matches Ok(
                    (m2, rest),
                ) ==> m2.contains_key(IndirectRef { number: (first + 0) as u32, generation: gen }));
                assert(crate::pdf_file::spec_xref_lines(s, first, count, m) matches Ok(
                    (m2, rest),
                ) ==> exists|g: u16| #[trigger] m2.contains_key(
                    IndirectRef { number: (first + k) as u32, generation: g },
                ));
            } else {
                lemma_xref_lines_complete(s.skip(20), first + 1, count - 1, m1, k - 1);
                match crate::pdf_file::spec_xref_lines(s, first, count, m) {
                    Ok((m2, rest)) => {
                        let g0 = choose|g: u16|
                            #[trigger] m2.contains_key(
                                IndirectRef {
                                    number: ((first + 1) + (k - 1)) as u32,
                                    generation: g,
                                },
                            );
                        assert(m2.contains_key(
                            IndirectRef { number: (first + k) as u32, generation: g0 },
                        ));
                    },
                    Err(_) => (),
                }
            }
            }
    }
}

/// One subsection keeps every entry already in the table.
pub proof fn lemma_xref_subsection_monotone(
    s: Seq<u8>,
    m: Map<IndirectRef, Option<u64>>,
    r: IndirectRef,
)
    requires
        m.contains_key(r),
    ensures
        crate::pdf_file::spec_xref_subsection(s, m) matches Ok((m2, rest))
            ==> m2.contains_key(r),
{
    match crate::grammar::spec_parse_number(s) {
        Err(_) => (),
        Ok((first, r1)) => match crate::grammar::spec_parse_number(r1) {
            Err(_) => (),
            Ok((count, r2)) => match spec_parse_whitespace(r2) {
                Err(_) => (),
                Ok(r3) => {
                    lemma_xref_lines_monotone(r3, first as int, count as int, m, r);
                },
            },
        },
    }
}

/// The subsections that follow keep every entry already in the table.
pub proof fn lemma_xref_sections_monotone(
    s: Seq<u8>,
    m: Map<IndirectRef, Option<u64>>,
    r: IndirectRef,
)
    requires
        m.contains_key(r),
    ensures
        crate::pdf_file::spec_xref_sections(s, m) matches Ok(m2) ==> m2.contains_key(r),
    decreases s.len(),
{
    match spec_parse_whitespace(s) {
        Err(_) => (),
        Ok(rr) => {
            if crate::bytes::is_digit(rr[0]) {
                match crate::pdf_file::spec_xref_subsection(s, m) {
                    Err(_) => (),
                    Ok((m2, rest)) => {
                        crate::pdf_file::lemma_xref_subsection_len(s, m);
                        lemma_xref_subsection_monotone(s, m, r);
                        lemma_xref_sections_monotone(rest, m2, r);
                    },
                }
            }
        },
    }
}

/// One subsection's own coverage: every object number it spans has an entry
/// in what its rows build.
pub proof fn lemma_xref_subsection_complete(s: Seq<u8>, m: Map<IndirectRef, Option<u64>>, k: int)
    ensures
        crate::pdf_file::spec_xref_subsection(s, m) matches Ok((m2, rest)) ==> {
            &&& crate::grammar::spec_parse_number(s) matches Ok((first, r1))
            &&& crate::grammar::spec_parse_number(r1) matches Ok((count, r2))
            &&& (0 <= k < count ==> exists|g: u16|
                #[trigger] m2.contains_key(
                    IndirectRef { number: (first + k) as u32, generation: g },
                ))
        },
{
    match crate::grammar::spec_parse_number(s) {
        Err(_) => (),
        Ok((first, r1)) => match crate::grammar::spec_parse_number(r1) {
            Err(_) => (),
            Ok((count, r2)) => match spec_parse_whitespace(r2) {
                Err(_) => (),
                Ok(r3) => {
                    if 0 <= k < count {
                        lemma_xref_lines_complete(r3, first as int, count as int, m, k);
                    }
                },
            },
        },
    }
}

/// Cross-reference completeness, lifted to the whole load: every object
/// number the first subsection covers has an entry in the loaded table, and
/// later subsections only add to it.
pub proof fn lemma_load_covers_first_subsection(s: Seq<u8>, k: int)
    ensures
        crate::pdf_file::spec_load_xref_table(s) matches Ok(m) ==> {
            &&& crate::pdf_file::spec_last_xref_offset(s) matches Ok(off)
            &&& spec_parse_keyword(s.skip(off as int)) matches Ok((kw, r1))
            &&& crate::grammar::spec_parse_number(r1) matches Ok((first, r2))
            &&& crate::grammar::spec_parse_number(r2) matches Ok((count, r3))
            &&& (0 <= k < count ==> exists|g: u16|
                #[trigger] m.contains_key(
                    IndirectRef { number: (first + k) as u32, generation: g },
                ))
        },
{
    match crate::pdf_file::spec_load_xref_table(s) {
        Err(_) => (),
        Ok(m) => {
            let off = crate::pdf_file::spec_last_xref_offset(s)->Ok_0;
            let r1 = spec_parse_keyword(s.skip(off as int))->Ok_0.1;
            let empty_table = Map::<IndirectRef, Option<u64>>::empty();
            lemma_xref_subsection_complete(r1, empty_table, k);
            match crate::pdf_file::spec_xref_subsection(r1, empty_table) {
                Err(_) => (),
                Ok((m1, rest)) => {
                    let first = crate::grammar::spec_parse_number(r1)->Ok_0.0;
                    let count = crate::grammar::spec_parse_number(
                        crate::grammar::spec_parse_number(r1)->Ok_0.1,
                    )->Ok_0.0;
                    if 0 <= k < count {
                        let g0 = choose|g: u16|
                            #[trigger] m1.contains_key(
                                IndirectRef { number: (first + k) as u32, generation: g },
                            );
                        lemma_xref_sections_monotone(
                            rest,
                            m1,
                            IndirectRef { number: (first + k) as u32, generation: g0 },
                        );
                    }
                },
            }
        },
    }
}

// ---------------------------------------------------------------------------
// Resolve identity
// ---------------------------------------------------------------------------

/// Resolve identity: an object that resolution yields for a reference was
/// parsed from an envelope whose identity equals that reference.
pub proof fn lemma_resolve_identity(
    s: Seq<u8>,
    table: Option<Map<IndirectRef, Option<u64>>>,
    ind: IndirectRef,
)
    ensures
        crate::pdf_file::spec_resolve(s, table, crate::objects::SpecObject::Indirect(ind))
            matches Ok(inner) ==> {
            &&& table matches Some(m)
            &&& m.contains_key(ind)
            &&& m[ind] matches Some(off)
            &&& spec_parse_object_until(s.skip(m[ind]->0 as int), crate::keywords::kw_endobj())
                matches Ok(x)
            &&& x.0.0 == Some(ind)
            &&& x.0.1 == inner
            },
{
}

} // verus!
