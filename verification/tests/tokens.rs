use pdf_reader::error::Error;
use pdf_reader::tokens::{
    parse_escape_sequence, parse_hexadecimal_string, parse_keyword, parse_literal_string,
    parse_name, parse_number, parse_to_end_of_stream, parse_token, parse_whitespace, Token,
};

#[test]
fn should_parse_whitespace() {
    let ((), rest) = parse_whitespace(b" \t \r\nHello, world!").unwrap();
    assert_eq!(rest, b"Hello, world!");
}

#[test]
fn should_parse_comments_as_whitespace() {
    let ((), rest) = parse_whitespace(b"\r\n% A Simple Comment\nHello, world!").unwrap();
    assert_eq!(rest, b"Hello, world!");
}

#[test]
fn should_parse_keyword() {
    let (keyword, rest) = parse_keyword(b"keyword  ").unwrap();
    assert_eq!(keyword, b"keyword");
    assert_eq!(rest, b"  ");
}

#[test]
fn should_parse_number() {
    let (number, rest) = parse_number(b"  42  ").unwrap();
    assert_eq!(number, 42);
    assert_eq!(rest, b"  ");
}

#[test]
fn should_parse_literal_string() {
    let cases: Vec<(&[u8], &str)> = vec![
        (b"(This is a string)", "This is a string"),
        (
            b"(Strings may contain newlines\nas such.)",
            "Strings may contain newlines\nas such.",
        ),
        (
            b"(Strings may contain balanced parentheses () and\r\nspecial characters (*!&}^% and so on).)",
            "Strings may contain balanced parentheses () and\nspecial characters (*!&}^% and so on).",
        ),
        (
            b"(The following is an empty string.)",
            "The following is an empty string.",
        ),
        (b"()", ""),
        (b"(It has zero (0) length.)", "It has zero (0) length."),
        (
            b"(These \\\ntwo strings \\\nare the same.)",
            "These two strings are the same.",
        ),
        (
            b"(This string has and end-of-line at the end of it.\n)",
            "This string has and end-of-line at the end of it.\n",
        ),
        (b"(\\0533)", "+3"),
        (b"(\\53)", "+"),
    ];

    for (raw, expected) in cases {
        let (string, _raw) = parse_literal_string(raw).unwrap();
        assert_eq!(String::from_utf8_lossy(&string), *expected);
    }
}

#[test]
fn should_parse_hexadecimal_string() {
    let raw = b"<486 56C 6C6 F2C 206 1707>";
    let (string, _raw) = parse_hexadecimal_string(raw).unwrap();
    assert_eq!(String::from_utf8_lossy(&string), "Hello, app");
}

#[test]
fn tokens_should_parse_name() {
    let raw = b"/Name1/ASomewhatLongerName/A;Name_With-Various***Characters?/1.2 ";
    let (name, raw) = parse_name(raw).unwrap();
    assert_eq!(name, b"Name1");
    let (name, raw) = parse_name(raw).unwrap();
    assert_eq!(name, b"ASomewhatLongerName");
    let (name, raw) = parse_name(raw).unwrap();
    assert_eq!(name, b"A;Name_With-Various***Characters?");
    let (name, _raw) = parse_name(raw).unwrap();
    assert_eq!(name, b"1.2");

    let raw = b"/$$@pattern/.notdef/Lime#20Green/paired#28#29parentheses ";
    let (name, raw) = parse_name(raw).unwrap();
    assert_eq!(name, b"$$@pattern");
    let (name, raw) = parse_name(raw).unwrap();
    assert_eq!(name, b".notdef");
    let (name, raw) = parse_name(raw).unwrap();
    assert_eq!(name, b"Lime Green");
    let (name, _raw) = parse_name(raw).unwrap();
    assert_eq!(name, b"paired()parentheses");

    let raw = b"/The_Key_of_F#23_Minor/A#42 ";
    let (name, raw) = parse_name(raw).unwrap();
    assert_eq!(name, b"The_Key_of_F#_Minor");
    let (name, _raw) = parse_name(raw).unwrap();
    assert_eq!(name, b"AB");
}

#[test]
fn should_parse_token() {
    let raw = b"/one two +3 +4.0 5 -.6 (seven (7)) <8> [ ] << >> stream\ntesting\nendstream ";
    let (token, raw) = parse_token(raw).unwrap();
    assert_eq!(token, Token::Name(b"one".to_vec()));
    let (token, raw) = parse_token(raw).unwrap();
    assert_eq!(token, Token::Keyword(b"two".to_vec()));
    let (token, raw) = parse_token(raw).unwrap();
    assert_eq!(token, Token::Integer(3));
    let (token, raw) = parse_token(raw).unwrap();
    match token {
        Token::Real(text) => {
            assert_eq!(String::from_utf8(text).unwrap().parse::<f64>().unwrap(), 4.0);
        }
        other => panic!("expected a real token, got {:?}", other),
    }
    let (token, raw) = parse_token(raw).unwrap();
    assert_eq!(token, Token::Integer(5));
    let (token, raw) = parse_token(raw).unwrap();
    match token {
        Token::Real(text) => {
            assert_eq!(String::from_utf8(text).unwrap().parse::<f64>().unwrap(), -0.6);
        }
        other => panic!("expected a real token, got {:?}", other),
    }
    let (token, raw) = parse_token(raw).unwrap();
    assert_eq!(token, Token::LiteralString(b"seven (7)".to_vec()));
    let (token, raw) = parse_token(raw).unwrap();
    assert_eq!(token, Token::HexadecimalString(vec![0x80]));
    let (token, raw) = parse_token(raw).unwrap();
    assert_eq!(token, Token::BeginArray);
    let (token, raw) = parse_token(raw).unwrap();
    assert_eq!(token, Token::EndArray);
    let (token, raw) = parse_token(raw).unwrap();
    assert_eq!(token, Token::BeginDictionary);
    let (token, raw) = parse_token(raw).unwrap();
    assert_eq!(token, Token::EndDictionary);
    let (token, _raw) = parse_token(raw).unwrap();
    assert_eq!(token, Token::Stream(b"testing\n".to_vec()));
}

#[test]
fn should_parse_stream_body() {
    let (body, rest) = parse_to_end_of_stream(b"\nHello, world!\nendstream tail").unwrap();
    assert_eq!(body, b"Hello, world!\n");
    assert_eq!(rest, b" tail");

    assert_eq!(
        parse_to_end_of_stream(b"\rbody\nendstream "),
        Err(Error::Syntax("the 'stream' keyword must not be followed by a lone CR"))
    );
    // A buffer that ends inside a stream body is malformed.
    assert!(matches!(
        parse_to_end_of_stream(b"\nno end marker"),
        Err(Error::Syntax(_))
    ));
}

#[test]
fn should_parse_escape_sequences() {
    let (byte, rest) = parse_escape_sequence(b"\\n after").unwrap();
    assert_eq!(byte, Some(b'\n'));
    assert_eq!(rest, b" after");

    let (byte, rest) = parse_escape_sequence(b"\\053 after").unwrap();
    assert_eq!(byte, Some(b'+'));
    assert_eq!(rest, b" after");

    let (byte, rest) = parse_escape_sequence(b"\\\nafter").unwrap();
    assert_eq!(byte, None);
    assert_eq!(rest, b"after");

    assert_eq!(parse_escape_sequence(b"\\777 "), Err(Error::ParseInt));
    assert!(matches!(parse_escape_sequence(b"\\z "), Err(Error::Syntax(_))));
}

#[test]
fn tokenizer_rejects_empty_input() {
    assert_eq!(parse_token(b""), Err(Error::EOF));
    assert_eq!(parse_token(b"   "), Err(Error::EOF));
}

#[test]
fn tokenizer_rejects_unclosed_string() {
    // A buffer that ends inside a literal string is malformed.
    assert!(matches!(parse_token(b"(never closed"), Err(Error::Syntax(_))));
}

#[test]
fn tokenizer_rejects_lone_closing_angle() {
    assert!(matches!(parse_token(b"> 1"), Err(Error::Syntax(_))));
}

#[test]
fn tokenizer_rejects_integer_overflow() {
    assert_eq!(parse_token(b"99999999999999999999 "), Err(Error::ParseInt));
    assert_eq!(parse_token(b"+ "), Err(Error::ParseInt));
    assert_eq!(parse_token(b"1.2.3 "), Err(Error::ParseFloat));
}

#[test]
fn tokenizer_always_advances() {
    // Tokenizer totality on a gallery of inputs: either a token comes with a
    // strictly shorter remainder, or an error.
    let inputs: Vec<&[u8]> = vec![
        b"12 0 R",
        b"/Name ",
        b"(string) ",
        b"<AB> ",
        b"<< >>",
        b"[ 1 2 ]",
        b"true ",
        b"stream\nbody\nendstream ",
        b"% only a comment",
        b"{oddity}",
        b"\\backslash",
        b"",
    ];
    for raw in inputs {
        match parse_token(raw) {
            Ok((_, rest)) => assert!(rest.len() < raw.len()),
            Err(_) => {}
        }
    }
}

#[test]
fn token_unchanged_by_appended_input() {
    // Parser locality: reading the first token of a prefix and of the prefix
    // with a suffix appended yields the same token.
    let (tok_alone, _) = parse_token(b"12 ").unwrap();
    let (tok_extended, rest) = parse_token(b"12 0 R more").unwrap();
    assert_eq!(tok_alone, tok_extended);
    assert_eq!(rest, b" 0 R more");
}

#[test]
fn whitespace_and_comments_between_tokens_do_not_matter() {
    let plain = parse_token(b"/Key ").unwrap().0;
    let padded = parse_token(b"  % a comment\n \t /Key ").unwrap().0;
    assert_eq!(plain, padded);
}

#[test]
fn name_hex_escape_round_trip() {
    // For every byte, the name `/#hh` decodes to that single byte.
    for b in 0..=255u8 {
        let raw = format!("/#{:02X} ", b).into_bytes();
        let (name, _) = parse_name(&raw).unwrap();
        assert_eq!(name, vec![b]);
    }
}

#[test]
fn string_octal_escape_round_trip() {
    // For every byte, the literal string `(\ooo)` decodes to that single byte.
    for b in 0..=255u8 {
        let raw = format!("(\\{}{}{})", b / 64, (b / 8) % 8, b % 8).into_bytes();
        let (string, _) = parse_literal_string(&raw).unwrap();
        assert_eq!(string, vec![b]);
    }
}
