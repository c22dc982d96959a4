//! The encoder, the round-trip scenarios of the wire format, the
//! canonicalization step, and the serializer capabilities.

use hanekawa::bencode::ser::{unsupported_element, Error as SerError, Serializer};
use hanekawa::bencode::repr::Error;
use hanekawa::bencode::encode::encode_elements;
use hanekawa::bencode::{encode, parse, OrderedMap, Parser, Value};

fn bytes(s: &str) -> Vec<u8> {
    s.as_bytes().to_vec()
}

#[test]
fn encodes_strings() {
    let v = Value::Bytes(bytes("spam"));
    assert_eq!(bytes("4:spam"), encode(&v));
}

#[test]
fn encodes_ints() {
    assert_eq!(bytes("i3e"), encode(&Value::Int(3)));
    assert_eq!(bytes("i0e"), encode(&Value::Int(0)));
    assert_eq!(bytes("i-42e"), encode(&Value::Int(-42)));
    assert_eq!(
        bytes("i9223372036854775807e"),
        encode(&Value::Int(i64::MAX))
    );
    assert_eq!(
        bytes("i-9223372036854775808e"),
        encode(&Value::Int(i64::MIN))
    );
}

#[test]
fn parses_extreme_ints() {
    assert_eq!(
        Value::Int(i64::MAX),
        parse("i9223372036854775807e".as_bytes())
            .unwrap()
            .into_value()
    );
    assert_eq!(
        Value::Int(i64::MIN),
        parse("i-9223372036854775808e".as_bytes())
            .unwrap()
            .into_value()
    );
    assert!(parse("i9223372036854775808e".as_bytes()).is_err());
    assert!(parse("i-9223372036854775809e".as_bytes()).is_err());
}

#[test]
fn rejects_with_the_named_errors() {
    // The fine-grained error kinds come from the consuming parser.
    let r = Parser::new("i03e".as_bytes()).parse();
    assert!(matches!(r, Err(Error::InvalidInt(_))));

    let r = Parser::new("i-0e".as_bytes()).parse();
    assert!(matches!(r, Err(Error::InvalidInt(_))));

    let r = Parser::new("i e".as_bytes()).parse();
    assert!(matches!(r, Err(Error::InvalidInt(_))));

    let r = Parser::new("iabce".as_bytes()).parse();
    assert!(matches!(r, Err(Error::InvalidInt(_))));

    // A byte string announcing more bytes than follow.
    let r = Parser::new("3:ab".as_bytes()).parse();
    assert!(matches!(r, Err(Error::UnexpectedEnd(_))));

    // Bytes beyond the top-level value.
    let r = Parser::new("4:spam ".as_bytes()).parse();
    assert!(matches!(r, Err(Error::Trailing)));

    // An integer body missing its terminator.
    let r = Parser::new("i42".as_bytes()).parse();
    assert!(matches!(r, Err(Error::ExpectedByte(101))));

    // A dictionary key that is not a byte string.
    let r = Parser::new("di1ei2ee".as_bytes()).parse();
    assert!(matches!(r, Err(Error::UnexpectedEnd(_))));

    // A length with a leading zero is not canonical.
    let r = Parser::new("04:spam".as_bytes()).parse();
    assert!(matches!(r, Err(Error::InvalidInt(_))));
}

#[test]
fn round_trips_lists() {
    let input = bytes("l4:spam4:eggse");
    let v = parse(&input).unwrap().into_value();
    assert_eq!(
        Value::List(vec![Value::Bytes(bytes("spam")), Value::Bytes(bytes("eggs"))]),
        v
    );
    assert_eq!(input, encode(&v));
}

#[test]
fn round_trips_canonical_dicts() {
    let input = bytes("d3:cow3:moo4:spam4:eggse");
    let v = parse(&input).unwrap().into_value();
    assert_eq!(input, encode(&v));
}

#[test]
fn round_trips_nested_values() {
    // A value drawn with nested containers and canonical dictionaries:
    // encoding then parsing returns it unchanged.
    let mut inner = OrderedMap::new();
    inner.insert(bytes("a"), Value::Int(-7));
    inner.insert(bytes("b"), Value::List(vec![]));
    inner.ensure_order();

    let mut outer = OrderedMap::new();
    outer.insert(bytes("k"), Value::Dict(inner));
    outer.insert(bytes("z"), Value::Bytes(vec![0, 255, 10]));
    outer.ensure_order();

    let v = Value::List(vec![
        Value::Dict(outer),
        Value::Int(0),
        Value::Bytes(bytes("")),
    ]);

    let encoded = encode(&v);
    let reparsed = parse(&encoded).unwrap().into_value();
    assert_eq!(v, reparsed);
    assert_eq!(encoded, encode(&reparsed));
}

#[test]
fn element_round_trip() {
    let mut dict = OrderedMap::new();
    dict.insert(bytes("key"), Value::Bytes(bytes("value")));
    let v = Value::List(vec![Value::Int(1), Value::Dict(dict)]);

    let mut dict2 = OrderedMap::new();
    dict2.insert(bytes("key"), Value::Bytes(bytes("value")));
    let expected = Value::List(vec![Value::Int(1), Value::Dict(dict2)]);

    assert_eq!(expected, v.into_elements().into_value());
}

#[test]
fn parser_accepts_every_encoder_output() {
    let samples = vec![
        Value::Int(-1),
        Value::Bytes(vec![]),
        Value::Bytes(vec![58, 101, 105]),
        Value::List(vec![Value::List(vec![Value::Int(7)])]),
    ];
    for v in samples {
        let encoded = encode(&v);
        assert_eq!(v, parse(&encoded).unwrap().into_value());
    }
}

#[test]
fn streams_encode_like_their_trees() {
    let input = bytes("d3:cow3:moo4:spaml1:a1:bi-2eee");
    let els = parse(&input).unwrap();
    assert_eq!(input, encode_elements(&els));
    assert_eq!(input, encode(&els.into_value()));
}

#[test]
fn canonicalize_orders_any_insertion_order() {
    let mut one = OrderedMap::new();
    one.insert(bytes("spam"), Value::Int(1));
    one.insert(bytes("cow"), Value::Int(2));
    one.insert(bytes("a"), Value::Int(3));
    one.ensure_order();

    let mut two = OrderedMap::new();
    two.insert(bytes("a"), Value::Int(3));
    two.insert(bytes("spam"), Value::Int(1));
    two.insert(bytes("cow"), Value::Int(2));
    two.ensure_order();

    assert_eq!(one, two);
    assert_eq!(encode(&Value::Dict(one)), encode(&Value::Dict(two)));
}

#[test]
fn map_interface_reports_len() {
    let mut m = OrderedMap::with_capacity(2);
    assert_eq!(0, m.len());
    m.insert(bytes("k"), Value::Int(1));
    m.insert(bytes("k"), Value::Int(2));
    // Inserting never deduplicates.
    assert_eq!(2, m.len());

    let raw = OrderedMap::from_raw(vec![(bytes("x"), Value::Int(9))]);
    assert_eq!(1, raw.len());
    assert_eq!((bytes("x"), Value::Int(9)), *raw.entry_at(0));
}

#[test]
fn serializer_writes_wire_forms() {
    let mut s = Serializer::new();
    s.begin_map().unwrap();
    s.begin_key();
    s.serialize_str("cow").unwrap();
    s.end_key();
    s.serialize_str("moo").unwrap();
    s.begin_key();
    s.serialize_bytes("n".as_bytes()).unwrap();
    s.end_key();
    s.serialize_i64(-3).unwrap();
    s.end_map();
    assert_eq!(bytes("d3:cow3:moo1:ni-3ee"), s.into_bytes());

    let mut s = Serializer::new();
    s.begin_seq().unwrap();
    s.serialize_i32(1).unwrap();
    s.serialize_u32(2).unwrap();
    s.end_seq();
    assert_eq!(bytes("li1ei2ee"), s.into_bytes());
}

#[test]
fn serializer_rejects_non_string_keys() {
    let mut s = Serializer::new();
    s.begin_map().unwrap();
    s.begin_key();
    assert_eq!(Err(SerError::InvalidMapKey), s.serialize_i64(1));
    assert_eq!(Err(SerError::InvalidMapKey), s.serialize_none());
    assert!(matches!(s.begin_map(), Err(SerError::InvalidMapKey)));
    assert!(matches!(s.begin_seq(), Err(SerError::InvalidMapKey)));
    // The key restriction is saved and restored, never left sticking.
    s.serialize_str("ok").unwrap();
    s.end_key();
    s.serialize_i64(1).unwrap();
    s.end_map();
    assert_eq!(bytes("d2:oki1ee"), s.into_bytes());
}

#[test]
fn unsupported_elements_are_named() {
    let r: Result<(), SerError> = unsupported_element(Some("bool"));
    assert!(matches!(
        r,
        Err(SerError::UnsupportedElement(Some(ref w))) if w == "bool"
    ));
    let r: Result<(), SerError> = unsupported_element(None);
    assert!(matches!(r, Err(SerError::UnsupportedElement(None))));
}
