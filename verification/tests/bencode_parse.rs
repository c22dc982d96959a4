//! The parser and the element/value conversions, on the wire forms the
//! format defines.

use hanekawa::bencode::{parse, Element, Elements, OrderedMap, Value};

fn bytes(s: &str) -> Vec<u8> {
    s.as_bytes().to_vec()
}

#[test]
fn mod_parses_string() {
    let enc = "4:spam".as_bytes();
    let exp = Elements::from_parts(vec![Element::Bytes(bytes("spam"))]);
    assert_eq!(exp, parse(enc).unwrap());
    assert_eq!(
        Value::Bytes(bytes("spam")),
        parse(enc).unwrap().into_value()
    );
}

#[test]
fn mod_parses_valid_ints() {
    assert_eq!(
        Elements::from_parts(vec![Element::Int(3)]),
        parse("i3e".as_bytes()).unwrap()
    );
    assert_eq!(
        Elements::from_parts(vec![Element::Int(0)]),
        parse("i0e".as_bytes()).unwrap()
    );
    assert_eq!(Value::Int(3), parse("i3e".as_bytes()).unwrap().into_value());
    assert_eq!(Value::Int(0), parse("i0e".as_bytes()).unwrap().into_value());
}

#[test]
fn mod_rejects_invalid_ints() {
    assert!(
        parse("i03e".as_bytes()).is_err(),
        "leading zeros are invalid"
    );
    assert!(
        parse("i-0e".as_bytes()).is_err(),
        "negative zero is invalid"
    );
}

#[test]
fn mod_parses_lists() {
    let enc = "l4:spam4:eggse".as_bytes();
    assert_eq!(
        Elements::from_parts(vec![
            Element::ListBegin(2),
            Element::Bytes(bytes("spam")),
            Element::Bytes(bytes("eggs"))
        ]),
        parse(enc).unwrap()
    );
    assert_eq!(
        Value::List(vec![Value::Bytes(bytes("spam")), Value::Bytes(bytes("eggs"))]),
        parse(enc).unwrap().into_value()
    );
}

#[test]
fn mod_parses_dicts() {
    assert_eq!(
        Elements::from_parts(vec![
            Element::DictBegin(2),
            Element::Bytes(bytes("cow")),
            Element::Bytes(bytes("moo")),
            Element::Bytes(bytes("spam")),
            Element::Bytes(bytes("eggs"))
        ]),
        parse("d3:cow3:moo4:spam4:eggse".as_bytes()).unwrap()
    );

    assert_eq!(
        Elements::from_parts(vec![
            Element::DictBegin(1),
            Element::Bytes(bytes("spam")),
            Element::ListBegin(2),
            Element::Bytes(bytes("a")),
            Element::Bytes(bytes("b"))
        ]),
        parse("d4:spaml1:a1:bee".as_bytes()).unwrap()
    );
}

#[test]
fn lib_parses_string() {
    let enc = "4:spam".as_bytes();
    assert_eq!(
        Value::Bytes(bytes("spam")),
        parse(enc).unwrap().into_value()
    )
}

#[test]
fn lib_parses_valid_ints() {
    assert_eq!(Value::Int(3), parse("i3e".as_bytes()).unwrap().into_value());
    assert_eq!(Value::Int(0), parse("i0e".as_bytes()).unwrap().into_value())
}

#[test]
fn lib_rejects_invalid_ints() {
    assert!(
        parse("i03e".as_bytes()).is_err(),
        "leading zeros are invalid"
    );
    assert!(
        parse("i-0e".as_bytes()).is_err(),
        "negative zero is invalid"
    );
}

#[test]
fn lib_parses_lists() {
    let enc = "l4:spam4:eggse".as_bytes();
    assert_eq!(
        Value::List(vec![Value::Bytes(bytes("spam")), Value::Bytes(bytes("eggs"))]),
        parse(enc).unwrap().into_value()
    )
}

#[test]
fn lib_parses_dicts() {
    let mut first = OrderedMap::new();
    first.insert(bytes("cow"), Value::Bytes(bytes("moo")));
    first.insert(bytes("spam"), Value::Bytes(bytes("eggs")));
    assert_eq!(
        Value::Dict(first),
        parse("d3:cow3:moo4:spam4:eggse".as_bytes())
            .unwrap()
            .into_value()
    );

    let mut second = OrderedMap::new();
    second.insert(
        bytes("spam"),
        Value::List(vec![Value::Bytes(bytes("a")), Value::Bytes(bytes("b"))]),
    );
    assert_eq!(
        Value::Dict(second),
        parse("d4:spaml1:a1:bee".as_bytes()).unwrap().into_value()
    );
}

#[test]
fn lib_converts_strings_to_value() {
    let data = "4:spam";
    let els = parse(data.as_bytes()).unwrap();
    let value = els.into_value();
    assert_eq!(Value::Bytes(bytes("spam")), value);
}

#[test]
fn lib_converts_ints_to_value() {
    let data = "i127e";
    let els = parse(data.as_bytes()).unwrap();
    let value = els.into_value();
    assert_eq!(Value::Int(127), value);
}

#[test]
fn lib_converts_lists_to_value() {
    let data = "l4:spami127ee";
    let els = parse(data.as_bytes()).unwrap();
    let value = els.into_value();
    assert_eq!(
        Value::List(vec![Value::Bytes(bytes("spam")), Value::Int(127)]),
        value
    );
}

#[test]
fn lib_converts_dicts_to_value() {
    let data = "d6:valuesl4:spami127ee3:key5:valuee";
    let els = parse(data.as_bytes()).unwrap();
    let value = els.into_value();
    let mut dict = OrderedMap::new();
    dict.insert(
        bytes("values"),
        Value::List(vec![Value::Bytes(bytes("spam")), Value::Int(127)]),
    );
    dict.insert(bytes("key"), Value::Bytes(bytes("value")));
    assert_eq!(Value::Dict(dict), value);
}

#[test]
fn repr_converts_strings_to_value() {
    let els = Elements::from_parts(vec![Element::Bytes(bytes("spam"))]);
    let exp = Value::Bytes(bytes("spam"));
    let value = els.into_value();
    assert_eq!(exp, value);
}

#[test]
fn repr_converts_ints_to_value() {
    let els = Elements::from_parts(vec![Element::Int(127)]);
    let exp = Value::Int(127);
    let value = els.into_value();
    assert_eq!(exp, value);
}

#[test]
fn repr_converts_lists_to_value() {
    let els = Elements::from_parts(vec![
        Element::ListBegin(2),
        Element::Bytes(bytes("spam")),
        Element::Int(127),
    ]);
    let exp = Value::List(vec![Value::Bytes(bytes("spam")), Value::Int(127)]);
    let value = els.into_value();
    assert_eq!(exp, value);
}

#[test]
fn repr_converts_dicts_to_value() {
    let els = Elements::from_parts(vec![
        Element::DictBegin(2),
        Element::Bytes(bytes("values")),
        Element::ListBegin(2),
        Element::Bytes(bytes("spam")),
        Element::Int(127),
        Element::Bytes(bytes("key")),
        Element::Bytes(bytes("value")),
    ]);

    let mut dict = OrderedMap::new();
    dict.insert(
        bytes("values"),
        Value::List(vec![Value::Bytes(bytes("spam")), Value::Int(127)]),
    );
    dict.insert(bytes("key"), Value::Bytes(bytes("value")));

    let exp = Value::Dict(dict);
    let value = els.into_value();

    assert_eq!(exp, value);
}
