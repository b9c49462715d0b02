use packstream::decode::{decode, decode_from, Limits};
use packstream::encode::{
    begin_list, begin_map, encode, end_list, end_map, write_entry, write_value, EncodeError,
};
use packstream::grammar::{DecodeError, Malformed};
use packstream::value::Value;

fn enc(v: &Value) -> Vec<u8> {
    encode(v).expect("encodable")
}

fn dec(b: &[u8]) -> Result<(Value, usize), DecodeError> {
    decode(b, &Limits::standard())
}

fn integer(i: i64) -> Value {
    Value::Integer(i)
}

fn text(s: &str) -> Value {
    Value::String(s.as_bytes().to_vec())
}

fn nulls(n: usize) -> Vec<Value> {
    (0..n).map(|_| Value::Null).collect()
}

fn nested() -> Value {
    Value::Dict(vec![
        (b"name".to_vec(), text("Ada")),
        (b"tags".to_vec(), Value::List(vec![integer(1), integer(-200), Value::Null])),
        (b"score".to_vec(), Value::Float(2.5f64.to_bits())),
        (b"blob".to_vec(), Value::Bytes(vec![0, 1, 2, 0xDF])),
        (b"ok".to_vec(), Value::Boolean(true)),
        (
            b"node".to_vec(),
            Value::Structure(0x4E, vec![integer(7), Value::List(vec![]), Value::Dict(vec![])]),
        ),
    ])
}

#[test]
fn zero_is_one_byte() {
    assert_eq!(enc(&integer(0)), vec![0x00]);
    assert_eq!(dec(&[0x00]), Ok((integer(0), 1)));
}

#[test]
fn empty_string_is_tiny_marker() {
    assert_eq!(enc(&text("")), vec![0x80]);
    assert_eq!(dec(&[0x80]), Ok((text(""), 1)));
}

#[test]
fn booleans_are_distinct_single_bytes() {
    let t = enc(&Value::Boolean(true));
    let f = enc(&Value::Boolean(false));
    assert_eq!(t, vec![0xC3]);
    assert_eq!(f, vec![0xC2]);
    assert_ne!(t, f);
    assert_eq!(dec(&t), Ok((Value::Boolean(true), 1)));
    assert_eq!(dec(&f), Ok((Value::Boolean(false), 1)));
}

#[test]
fn structure_with_two_fields() {
    let v = Value::Structure(1, vec![integer(1), integer(2)]);
    let b = enc(&v);
    assert_eq!(b, vec![0xB2, 0x01, 0x01, 0x02]);
    assert_eq!(dec(&b), Ok((v, 4)));
}

#[test]
fn streamed_list_of_three() {
    let mut out: Vec<u8> = Vec::new();
    begin_list(&mut out);
    for i in 1..=3 {
        write_value(&mut out, &integer(i)).unwrap();
    }
    end_list(&mut out);
    assert_eq!(out, vec![0xD7, 0x01, 0x02, 0x03, 0xDF]);
    assert_eq!(dec(&out), Ok((Value::List(vec![integer(1), integer(2), integer(3)]), 5)));
}

#[test]
fn streamed_list_equals_sized_list() {
    let make = || vec![integer(10), text("x"), Value::List(vec![integer(1)]), Value::Null];
    let items = make();
    let mut out: Vec<u8> = Vec::new();
    begin_list(&mut out);
    for v in &items {
        write_value(&mut out, v).unwrap();
    }
    end_list(&mut out);
    let sized = enc(&Value::List(make()));
    assert_eq!(sized[0], 0x94);
    let (a, _) = dec(&out).unwrap();
    let (b, _) = dec(&sized).unwrap();
    assert_eq!(a, b);
    assert_eq!(a, Value::List(items));
}

#[test]
fn streamed_map_decodes() {
    let mut out: Vec<u8> = Vec::new();
    begin_map(&mut out);
    write_entry(&mut out, &b"a".to_vec(), &integer(1)).unwrap();
    write_entry(&mut out, &b"b".to_vec(), &integer(2)).unwrap();
    end_map(&mut out);
    assert_eq!(out, vec![0xDB, 0x81, b'a', 0x01, 0x81, b'b', 0x02, 0xDF]);
    let expected = Value::Dict(vec![(b"a".to_vec(), integer(1)), (b"b".to_vec(), integer(2))]);
    assert_eq!(dec(&out), Ok((expected, 8)));
}

#[test]
fn integer_markers_are_minimal() {
    assert_eq!(enc(&integer(127)), vec![0x7F]);
    assert_eq!(enc(&integer(128)), vec![0xC9, 0x00, 0x80]);
    assert_eq!(enc(&integer(-16)), vec![0xF0]);
    assert_eq!(enc(&integer(-17)), vec![0xC8, 0xEF]);
    assert_eq!(enc(&integer(-128)), vec![0xC8, 0x80]);
    assert_eq!(enc(&integer(-129)), vec![0xC9, 0xFF, 0x7F]);
    assert_eq!(enc(&integer(32767)), vec![0xC9, 0x7F, 0xFF]);
    assert_eq!(enc(&integer(32768)), vec![0xCA, 0x00, 0x00, 0x80, 0x00]);
    assert_eq!(enc(&integer(-2147483648)), vec![0xCA, 0x80, 0x00, 0x00, 0x00]);
    assert_eq!(enc(&integer(2147483648)), vec![0xCB, 0, 0, 0, 0, 0x80, 0, 0, 0]);
    assert_eq!(enc(&integer(i64::MIN)), vec![0xCB, 0x80, 0, 0, 0, 0, 0, 0, 0]);
}

#[test]
fn wide_integers_decode() {
    assert_eq!(dec(&[0xC8, 0x05]), Ok((integer(5), 2)));
    assert_eq!(dec(&[0xC9, 0x00, 0x7F]), Ok((integer(127), 3)));
    assert_eq!(dec(&[0xCA, 0x00, 0x00, 0x00, 0x01]), Ok((integer(1), 5)));
    assert_eq!(dec(&[0xCB, 0, 0, 0, 0, 0, 0, 0, 0x01]), Ok((integer(1), 9)));
}

#[test]
fn minus_one_in_every_width() {
    assert_eq!(dec(&[0xFF]), Ok((integer(-1), 1)));
    assert_eq!(dec(&[0xC8, 0xFF]), Ok((integer(-1), 2)));
    assert_eq!(dec(&[0xC9, 0xFF, 0xFF]), Ok((integer(-1), 3)));
    assert_eq!(dec(&[0xCA, 0xFF, 0xFF, 0xFF, 0xFF]), Ok((integer(-1), 5)));
    assert_eq!(dec(&[0xCB, 0xFF, 0xFF, 0xFF, 0xFF, 0xFF, 0xFF, 0xFF, 0xFF]), Ok((integer(-1), 9)));
    assert_eq!(dec(&enc(&integer(-1))), Ok((integer(-1), 1)));
}

#[test]
fn width_boundaries_round_trip() {
    let cases: [i64; 14] = [
        -16, -17, 127, 128, -128, -129, -32768, -32769, 32767, 32768, -2147483648,
        2147483647, i64::MIN, i64::MAX,
    ];
    for i in cases {
        let b = enc(&integer(i));
        assert_eq!(dec(&b), Ok((integer(i), b.len())));
    }
}

#[test]
fn nested_value_round_trips() {
    let v = nested();
    let b = enc(&v);
    assert_eq!(dec(&b), Ok((v, b.len())));
}

#[test]
fn float_bits_are_kept() {
    let v = Value::Float(1.0f64.to_bits());
    let b = enc(&v);
    assert_eq!(b, vec![0xC1, 0x3F, 0xF0, 0, 0, 0, 0, 0, 0]);
    assert_eq!(dec(&b), Ok((v, 9)));
    let nan = Value::Float(0x7FF8_0000_0000_0001);
    assert_eq!(dec(&enc(&nan)), Ok((nan, 9)));
}

#[test]
fn length_tiers() {
    let s15 = text("abcdefghijklmno");
    assert_eq!(enc(&s15)[0], 0x8F);
    let s16 = text("abcdefghijklmnop");
    assert_eq!(enc(&s16)[..2], [0xD0, 0x10]);
    let b255 = Value::Bytes(vec![7; 255]);
    assert_eq!(enc(&b255)[..2], [0xCC, 0xFF]);
    let b256 = Value::Bytes(vec![7; 256]);
    assert_eq!(enc(&b256)[..3], [0xCD, 0x01, 0x00]);
    let b65536 = Value::Bytes(vec![1; 65536]);
    let e = enc(&b65536);
    assert_eq!(e[..5], [0xCE, 0x00, 0x01, 0x00, 0x00]);
    assert_eq!(dec(&e), Ok((b65536, 65541)));
    let l16 = Value::List(nulls(16));
    assert_eq!(enc(&l16)[..2], [0xD4, 0x10]);
    let m1 = Value::Dict(vec![(b"k".to_vec(), Value::Null)]);
    assert_eq!(enc(&m1), vec![0xA1, 0x81, b'k', 0xC0]);
    assert_eq!(enc(&Value::Bytes(vec![])), vec![0xCC, 0x00]);
}

#[test]
fn every_strict_prefix_needs_more_input() {
    let b = enc(&nested());
    for k in 1..b.len() {
        assert_eq!(dec(&b[..k]), Err(DecodeError::NeedMoreInput), "prefix {}", k);
    }
    assert_eq!(dec(&[]), Err(DecodeError::NeedMoreInput));
}

#[test]
fn declared_length_over_bound_is_malformed() {
    let limits = Limits { max_depth: 8, max_len: 10 };
    assert_eq!(
        decode(&[0xD0, 0xFF, 0x61], &limits),
        Err(DecodeError::MalformedInput(Malformed::LengthOverLimit))
    );
    assert_eq!(
        dec(&[0xCE, 0xFF, 0xFF, 0xFF, 0xFF, 0x00]),
        Err(DecodeError::MalformedInput(Malformed::LengthOverLimit))
    );
    assert_eq!(
        decode(&[0xD6, 0x00, 0x00, 0x01, 0x00], &limits),
        Err(DecodeError::MalformedInput(Malformed::LengthOverLimit))
    );
}

#[test]
fn unknown_markers_are_malformed() {
    for m in [0xC4u8, 0xC7, 0xCF, 0xD3, 0xDC, 0xDF, 0xE0, 0xEF] {
        assert_eq!(dec(&[m, 0, 0, 0]), Err(DecodeError::MalformedInput(Malformed::UnknownMarker)));
    }
}

#[test]
fn invalid_utf8_is_malformed() {
    assert_eq!(dec(&[0x81, 0xFF]), Err(DecodeError::MalformedInput(Malformed::InvalidUtf8)));
    assert_eq!(dec(&[0x82, 0xC3, 0xA9]), Ok((Value::String(vec![0xC3, 0xA9]), 3)));
}

#[test]
fn nesting_is_bounded() {
    let limits = Limits { max_depth: 2, max_len: 100 };
    assert_eq!(decode(&[0x91, 0x91, 0x00], &limits), Ok((Value::List(vec![Value::List(vec![integer(0)])]), 3)));
    assert_eq!(
        decode(&[0x91, 0x91, 0x91, 0x00], &limits),
        Err(DecodeError::MalformedInput(Malformed::TooDeep))
    );
    assert_eq!(
        decode(&[0xB0, 0x01], &Limits { max_depth: 0, max_len: 100 }),
        Err(DecodeError::MalformedInput(Malformed::TooDeep))
    );
}

#[test]
fn map_keys_must_be_text() {
    assert_eq!(dec(&[0xA1, 0x01, 0x02]), Err(DecodeError::MalformedInput(Malformed::KeyNotText)));
}

#[test]
fn repeated_map_key_last_value_wins() {
    let b = [0xA3, 0x81, b'a', 0x01, 0x81, b'b', 0x02, 0x81, b'a', 0x03];
    let expected = Value::Dict(vec![(b"a".to_vec(), integer(3)), (b"b".to_vec(), integer(2))]);
    assert_eq!(dec(&b), Ok((expected, 10)));
}

#[test]
fn too_many_fields_is_refused() {
    let v = Value::Structure(9, nulls(16));
    assert_eq!(encode(&v), Err(EncodeError::ValueTooLarge));
    let ok = Value::Structure(9, nulls(15));
    assert_eq!(enc(&ok)[..2], [0xBF, 0x09]);
}

#[test]
fn decoding_continues_from_a_position() {
    let mut b = enc(&integer(300));
    b.extend(enc(&text("hi")));
    let (first, n) = dec(&b).unwrap();
    assert_eq!(first, integer(300));
    assert_eq!(decode_from(&b, n, &Limits::standard()), Ok((text("hi"), b.len())));
}
