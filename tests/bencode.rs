use btclient::bencode::{decode, encode, BValue, DecodeError};

fn bstr(literal: &str) -> BValue {
    BValue::Str(literal.as_bytes().to_vec())
}

fn bdict(entries: Vec<(&str, BValue)>) -> BValue {
    BValue::Dict(entries.into_iter().map(|(k, v)| (k.as_bytes().to_vec(), v)).collect())
}

fn check_encode(value: BValue, expected: &[u8]) {
    let encoded = encode(&value);
    assert_eq!(encoded.as_slice(), expected);
}

fn check_decode(expected: BValue, input: &[u8]) {
    let decoded = decode(input);
    assert_eq!(decoded, Ok(expected));
}

#[test]
fn number() {
    check_encode(BValue::Int(7438465982), b"i7438465982e");
}

#[test]
fn negative_number() {
    check_encode(BValue::Int(-507), b"i-507e");
}

#[test]
fn zero() {
    check_encode(BValue::Int(0), b"i0e");
}

#[test]
fn string() {
    check_encode(bstr("Hello!"), b"6:Hello!");
}

#[test]
fn list() {
    check_encode(BValue::List(vec![BValue::Int(42), bstr("abc")]), b"li42e3:abce");
}

#[test]
fn dict() {
    check_encode(
        bdict(vec![("baz", BValue::Int(-9)), ("foo", bstr("bar"))]),
        b"d3:bazi-9e3:foo3:bare",
    );
}

#[test]
fn nested() {
    check_encode(
        bdict(vec![
            ("baz", BValue::Int(-9)),
            ("foo", bstr("bar")),
            (
                "nest!",
                bdict(vec![
                    ("baaaar", bdict(vec![("?", bstr("!"))])),
                    ("fooooo", BValue::List(vec![BValue::Int(123456789)])),
                ]),
            ),
        ]),
        b"d3:bazi-9e3:foo3:bar5:nest!d6:baaaard1:?1:!e6:foooooli123456789eeee",
    );
}

#[test]
fn bencode_number() {
    check_decode(BValue::Int(7438465982), b"i7438465982e");
}

#[test]
fn bencode_negative_number() {
    check_decode(BValue::Int(-507), b"i-507e");
}

#[test]
fn bencode_zero() {
    check_decode(BValue::Int(0), b"i0e");
}

#[test]
fn bencode_string() {
    check_decode(bstr("Hello!"), b"6:Hello!");
}

#[test]
fn bencode_list() {
    check_decode(BValue::List(vec![BValue::Int(42), bstr("abc")]), b"li42e3:abce");
}

#[test]
fn bencode_dict() {
    check_decode(
        bdict(vec![("baz", BValue::Int(-9)), ("foo", bstr("bar"))]),
        b"d3:bazi-9e3:foo3:bare",
    );
}

#[test]
fn bencode_nested() {
    check_decode(
        bdict(vec![
            ("baz", BValue::Int(-9)),
            ("foo", bstr("bar")),
            (
                "nest!",
                bdict(vec![
                    ("baaaar", bdict(vec![("?", bstr("!"))])),
                    ("fooooo", BValue::List(vec![BValue::Int(123456789)])),
                ]),
            ),
        ]),
        b"d3:bazi-9e3:foo3:bar5:nest!d6:baaaard1:?1:!e6:foooooli123456789eeee",
    );
}

#[test]
fn decode_sorts_dictionary_keys_and_keeps_last_duplicate() {
    check_decode(
        bdict(vec![("a", BValue::Int(3)), ("b", BValue::Int(1))]),
        b"d1:bi1e1:ai2e1:ai3ee",
    );
}

#[test]
fn decode_errors() {
    assert_eq!(decode(b""), Err(DecodeError::EarlyEndOfInput));
    assert_eq!(decode(b"x"), Err(DecodeError::BadFormat));
    assert_eq!(decode(b"ie"), Err(DecodeError::BadFormat));
    assert_eq!(decode(b"5:abc"), Err(DecodeError::EarlyEndOfInput));
    assert_eq!(decode(b"i99999999999999999999e"), Err(DecodeError::NumberTooLarge));
    assert_eq!(decode(b"i9223372036854775808e"), Err(DecodeError::NumberTooLarge));
    assert_eq!(decode(b"li1e"), Err(DecodeError::EarlyEndOfInput));
}

#[test]
fn binary_strings_round_trip() {
    let value = BValue::Str(vec![0, 255, 19, 128]);
    let bytes = encode(&value);
    assert_eq!(bytes, vec![b'4', b':', 0, 255, 19, 128]);
    assert_eq!(decode(&bytes), Ok(value));
}

#[test]
fn extreme_integers_encode() {
    check_encode(BValue::Int(i64::MIN), b"i-9223372036854775808e");
    check_encode(BValue::Int(i64::MAX), b"i9223372036854775807e");
}

#[test]
fn round_trip_of_canonical_values() {
    let value = bdict(vec![
        ("a", BValue::List(vec![BValue::Int(-1), bstr(""), BValue::List(vec![])])),
        ("b", bdict(vec![])),
        ("c", BValue::Int(i64::MAX)),
    ]);
    let bytes = encode(&value);
    assert_eq!(decode(&bytes), Ok(value));
}
