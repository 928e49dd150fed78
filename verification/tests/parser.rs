use pdf_reader::error::Error;
use pdf_reader::objects::{IndirectRef, Object};
use pdf_reader::parser::parse_object_until_keyword;

#[test]
fn should_parse_boolean() {
    let ((_, obj), _raw) = parse_object_until_keyword(b"true end ", b"end").unwrap();
    assert_eq!(obj, Object::Boolean(true));

    let ((_, obj), _raw) = parse_object_until_keyword(b"false end ", b"end").unwrap();
    assert_eq!(obj, Object::Boolean(false));
}

#[test]
fn should_parse_numeric() {
    let ((_, obj), _raw) = parse_object_until_keyword(b"42 end ", b"end").unwrap();
    assert_eq!(obj, Object::Integer(42));

    let ((_, obj), _raw) = parse_object_until_keyword(b"+3.14 end ", b"end").unwrap();
    match obj {
        Object::Real(text) => {
            assert_eq!(String::from_utf8(text).unwrap().parse::<f64>().unwrap(), 3.14);
        }
        other => panic!("expected a real object, got {:?}", other),
    }
}

#[test]
fn should_parse_string() {
    let ((_, obj), _raw) = parse_object_until_keyword(b"(Hello, world!) end ", b"end").unwrap();
    assert_eq!(obj, Object::String(b"Hello, world!".to_vec()));

    let ((_, obj), _raw) = parse_object_until_keyword(b"<616263> end ", b"end").unwrap();
    assert_eq!(obj, Object::String(b"abc".to_vec()));
}

#[test]
fn objects_should_parse_name() {
    let ((_, obj), _raw) = parse_object_until_keyword(b"/Name end ", b"end").unwrap();
    assert_eq!(obj, Object::Name(b"Name".to_vec()));
}

#[test]
fn should_parse_array() {
    let ((_, obj), _raw) = parse_object_until_keyword(b"[1 2 3] end ", b"end").unwrap();
    assert_eq!(
        obj,
        Object::Array(vec![
            Object::Integer(1),
            Object::Integer(2),
            Object::Integer(3)
        ])
    );

    let ((_, obj), _raw) = parse_object_until_keyword(b"[1[2]3] end ", b"end").unwrap();
    assert_eq!(
        obj,
        Object::Array(vec![
            Object::Integer(1),
            Object::Array(vec![Object::Integer(2)]),
            Object::Integer(3)
        ])
    );
}

#[test]
fn should_parse_dictionary() {
    let raw = b"<< /Type /Example
                   /Subtype /DictionaryExample
                   /Version 0.01
                   /IntegerItem 12
                   /StringItem (a string)
                   /Subdictionary << /Item1 0.4
                                     /Item2 true
                                     /LastItem (not!)
                                     /VeryLastItem (OK)
                                  >>
                >> end ";
    let ((_, obj), _raw) = parse_object_until_keyword(raw, b"end").unwrap();

    assert_eq!(obj.lookup(b"Type"), Some(&Object::Name(b"Example".to_vec())));
    assert_eq!(
        obj.lookup(b"Subtype"),
        Some(&Object::Name(b"DictionaryExample".to_vec()))
    );
    match obj.lookup(b"Version").unwrap() {
        Object::Real(text) => {
            assert_eq!(
                String::from_utf8(text.clone()).unwrap().parse::<f64>().unwrap(),
                0.01
            );
        }
        other => panic!("expected a real object, got {:?}", other),
    }
    assert_eq!(obj.lookup(b"IntegerItem"), Some(&Object::Integer(12)));
    assert_eq!(
        obj.lookup(b"StringItem"),
        Some(&Object::String(b"a string".to_vec()))
    );

    let subdict = obj.lookup(b"Subdictionary").unwrap();
    match subdict.lookup(b"Item1").unwrap() {
        Object::Real(text) => {
            assert_eq!(
                String::from_utf8(text.clone()).unwrap().parse::<f64>().unwrap(),
                0.4
            );
        }
        other => panic!("expected a real object, got {:?}", other),
    }
    assert_eq!(subdict.lookup(b"Item2"), Some(&Object::Boolean(true)));
    assert_eq!(
        subdict.lookup(b"LastItem"),
        Some(&Object::String(b"not!".to_vec()))
    );
    assert_eq!(
        subdict.lookup(b"VeryLastItem"),
        Some(&Object::String(b"OK".to_vec()))
    );
}

#[test]
fn should_parse_stream() {
    let raw = b"<< >> stream\nHello, world!\nendstream end ";
    let ((_, obj), _raw) = parse_object_until_keyword(raw, b"end").unwrap();
    assert_eq!(
        obj,
        Object::Stream(
            Box::new(Object::Dictionary(vec![])),
            b"Hello, world!\n".to_vec()
        )
    );
}

#[test]
fn should_parse_null() {
    let ((_, obj), _raw) = parse_object_until_keyword(b"null end ", b"end").unwrap();
    assert_eq!(obj, Object::Null);
}

#[test]
fn should_parse_indirect() {
    let ((_, obj), _raw) = parse_object_until_keyword(b"12 0 R end ", b"end").unwrap();
    assert_eq!(
        obj,
        Object::Indirect(IndirectRef {
            number: 12,
            generation: 0
        })
    );
}

#[test]
fn should_record_envelope_identity() {
    let raw = b"7 0 obj << /Kind /Widget >> endobj ";
    let ((envelope, obj), _raw) = parse_object_until_keyword(raw, b"endobj").unwrap();
    assert_eq!(envelope, Some(IndirectRef { number: 7, generation: 0 }));
    assert_eq!(obj.lookup(b"Kind"), Some(&Object::Name(b"Widget".to_vec())));
}

#[test]
fn parse_result_unchanged_by_appended_suffix() {
    // Parser locality: a valid prefix parses to the same object alone and
    // with a suffix appended; only the remainder differs.
    let prefix = b"[1 (two) /three] end ";
    let ((_, alone), rest_alone) = parse_object_until_keyword(prefix, b"end").unwrap();
    let extended = b"[1 (two) /three] end 4 5 6";
    let ((_, with_suffix), rest_suffix) = parse_object_until_keyword(extended, b"end").unwrap();
    assert_eq!(alone, with_suffix);
    assert_eq!(rest_alone, b" ");
    assert_eq!(rest_suffix, b" 4 5 6");
}

#[test]
fn parse_result_unchanged_by_inserted_whitespace() {
    let ((_, plain), _) = parse_object_until_keyword(b"<</A 1/B 2>> end ", b"end").unwrap();
    let ((_, padded), _) = parse_object_until_keyword(
        b"  %comment\n << /A  % another\r\n 1 \t /B 2 >>   end ",
        b"end",
    )
    .unwrap();
    assert_eq!(plain, padded);
}

#[test]
fn stream_with_flate_filter_inflates() {
    // A zlib stream whose decoded form is known; the filter pipeline must
    // hand back the decompressed bytes, not the raw ones.
    let encoded: Vec<u8> = vec![
        120, 156, 243, 72, 205, 201, 201, 215, 81, 168, 202, 201, 76, 82, 4, 0, 27, 101, 4, 19,
    ];
    let mut raw: Vec<u8> = Vec::new();
    raw.extend_from_slice(b"<< /Filter /FlateDecode >> stream\n");
    raw.extend_from_slice(&encoded);
    raw.extend_from_slice(b"endstream end ");
    let ((_, obj), _) = parse_object_until_keyword(&raw, b"end").unwrap();
    match obj {
        Object::Stream(_, body) => assert_eq!(body, b"Hello, zlib!"),
        other => panic!("expected a stream object, got {:?}", other),
    }
}

#[test]
fn unknown_filter_is_reported() {
    let raw = b"<< /Filter [/Unknown] >> stream\ndata\nendstream end ";
    match parse_object_until_keyword(raw, b"end") {
        Err(Error::UnknownFilter(name)) => assert_eq!(name, b"Unknown"),
        other => panic!("expected an unknown-filter error, got {:?}", other),
    }
}

#[test]
fn duplicate_dictionary_keys_keep_the_last() {
    // A later entry for the same key shadows the earlier one, and the
    // shadowed pair is dropped: the entry list is a mapping.
    let ((_, obj), _) = parse_object_until_keyword(b"<< /K 1 /A 3 /K 2 >> end ", b"end").unwrap();
    assert_eq!(obj.lookup(b"K"), Some(&Object::Integer(2)));
    assert_eq!(obj.lookup(b"A"), Some(&Object::Integer(3)));
    let entries = obj.as_dict().unwrap();
    assert_eq!(entries.len(), 2);
    assert_eq!(entries[0].0, b"A");
    assert_eq!(entries[1].0, b"K");
}

#[test]
fn dictionary_key_must_be_a_name() {
    assert!(matches!(
        parse_object_until_keyword(b"<< 1 2 >> end ", b"end"),
        Err(Error::Syntax(_))
    ));
    assert!(matches!(
        parse_object_until_keyword(b"<< /Odd >> end ", b"end"),
        Err(Error::Syntax(_))
    ));
}

#[test]
fn end_keyword_needs_one_whole_object() {
    assert!(matches!(
        parse_object_until_keyword(b"end ", b"end"),
        Err(Error::Syntax(_))
    ));
    assert!(matches!(
        parse_object_until_keyword(b"1 2 end ", b"end"),
        Err(Error::Syntax(_))
    ));
}
