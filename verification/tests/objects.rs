use pdf_reader::objects::{IndirectRef, Object};

#[test]
fn should_index_into_dictionary() {
    let dict = Object::Dictionary(vec![(b"Name".to_vec(), Object::Boolean(true))]);

    assert_eq!(dict.lookup(b"Name"), Some(&Object::Boolean(true)));
    assert_eq!(dict.lookup(b"NotFound"), None);
    assert_eq!(Object::Null.lookup(b"NotFound"), None);
}

#[test]
fn dictionary_lookup_takes_the_last_entry() {
    let dict = Object::Dictionary(vec![
        (b"Key".to_vec(), Object::Integer(1)),
        (b"Key".to_vec(), Object::Integer(2)),
    ]);
    assert_eq!(dict.lookup(b"Key"), Some(&Object::Integer(2)));
}

#[test]
fn should_cast_bool() {
    let obj = Object::Boolean(true);
    assert_eq!(obj.as_bool().unwrap(), true);
}

#[test]
fn should_cast_int() {
    let obj = Object::Integer(42);
    assert_eq!(obj.as_int().unwrap(), 42);
}

#[test]
fn should_cast_real() {
    let obj = Object::Real(b"42.0".to_vec());
    let text = obj.as_real().unwrap();
    assert_eq!(String::from_utf8(text.clone()).unwrap().parse::<f64>().unwrap(), 42.0);
}

#[test]
fn should_cast_string() {
    let obj = Object::String(b"Hello, world!".to_vec());
    assert_eq!(obj.as_string().unwrap(), b"Hello, world!");
}

#[test]
fn should_cast_name() {
    let obj = Object::Name(b"Hello, world!".to_vec());
    assert_eq!(obj.as_name().unwrap(), b"Hello, world!");
}

#[test]
fn should_cast_array() {
    let obj = Object::Array(vec![
        Object::Integer(1),
        Object::Integer(2),
        Object::Integer(3),
    ]);
    assert_eq!(obj.as_array().unwrap()[0].as_int().unwrap(), 1);
    assert_eq!(obj.as_array().unwrap()[1].as_int().unwrap(), 2);
    assert_eq!(obj.as_array().unwrap()[2].as_int().unwrap(), 3);
}

#[test]
fn should_cast_dict() {
    let obj = Object::Dictionary(vec![(b"Key".to_vec(), Object::Integer(1))]);
    assert_eq!(obj.lookup(b"Key").unwrap().as_int().unwrap(), 1);
    let entries = obj.as_dict().unwrap();
    assert_eq!(entries.len(), 1);
    assert_eq!(entries[0].0, b"Key");
}

#[test]
fn should_cast_stream() {
    let obj = Object::Stream(
        Box::new(Object::Dictionary(vec![(b"Key".to_vec(), Object::Integer(1))])),
        b"Hello, world!".to_vec(),
    );
    let (dict, stream) = obj.as_stream().unwrap();
    assert_eq!(dict[0].0, b"Key");
    assert_eq!(dict[0].1.as_int().unwrap(), 1);
    assert_eq!(stream, b"Hello, world!");
}

#[test]
fn should_cast_null() {
    let obj = Object::Null;
    obj.as_null().unwrap();
}

#[test]
fn should_cast_indirect() {
    let obj = Object::Indirect(IndirectRef {
        number: 1,
        generation: 2,
    });
    assert_eq!(
        obj.as_indirect().unwrap(),
        IndirectRef {
            number: 1,
            generation: 2,
        }
    );
}

#[test]
fn casts_reject_other_variants() {
    assert!(Object::Null.as_bool().is_err());
    assert!(Object::Boolean(true).as_int().is_err());
    assert!(Object::Integer(1).as_real().is_err());
    assert!(Object::Integer(1).as_string().is_err());
    assert!(Object::Integer(1).as_name().is_err());
    assert!(Object::Integer(1).as_array().is_err());
    assert!(Object::Integer(1).as_dict().is_err());
    assert!(Object::Integer(1).as_stream().is_err());
    assert!(Object::Integer(1).as_null().is_err());
    assert!(Object::Integer(1).as_indirect().is_err());
}

#[test]
fn items_visits_array_elements_scalars_once_and_null_never() {
    let arr = Object::Array(vec![Object::Integer(1), Object::Integer(2)]);
    assert_eq!(arr.items(), vec![Object::Integer(1), Object::Integer(2)]);
    assert_eq!(Object::Null.items(), Vec::<Object>::new());
    assert_eq!(Object::Integer(7).items(), vec![Object::Integer(7)]);
    let name = Object::Name(b"Solo".to_vec());
    assert_eq!(name.items(), vec![Object::Name(b"Solo".to_vec())]);
}

#[test]
fn duplicate_makes_an_equal_deep_copy() {
    let obj = Object::Array(vec![
        Object::Dictionary(vec![(b"K".to_vec(), Object::String(b"v".to_vec()))]),
        Object::Stream(Box::new(Object::Dictionary(vec![])), b"body".to_vec()),
        Object::Indirect(IndirectRef { number: 7, generation: 0 }),
    ]);
    let copy = obj.duplicate();
    assert_eq!(copy, obj);
}
