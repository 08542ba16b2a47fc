//! The codec: the bytes of values, type by type.

use redb_cli::descriptor::parse_tree;
use redb_cli::error::{CodecError, DecodeError, EncodeError, ParseError};
use redb_cli::order::ordering;
use redb_cli::parser::{encode, encode_type, parse, parse_from_tree, parse_size, parse_type};
use redb_cli::value::{Number, Value};
use std::cmp::Ordering;

fn num(n: i128) -> Value {
    Value::Number(Number::from_i128(n))
}

fn unum(n: u128) -> Value {
    Value::Number(Number::from_u128(n))
}

fn text(s: &str) -> Value {
    Value::String(s.to_string())
}

fn seq(items: Vec<Value>) -> Value {
    Value::Sequence(items)
}

fn record(entries: Vec<(&str, Value)>) -> Value {
    Value::Record(entries.into_iter().map(|(n, v)| (n.to_string(), v)).collect())
}

fn bytes_of(ty: &str, v: &Value) -> Result<Vec<u8>, EncodeError> {
    let tree = parse_tree(ty).unwrap();
    let mut buf = Vec::new();
    encode(&tree, v, &mut buf)?;
    Ok(buf)
}

fn value_of(ty: &str, bytes: &[u8]) -> Result<Value, DecodeError> {
    parse_from_tree(&parse_tree(ty).unwrap(), bytes)
}

/// The value is written as the bytes, read back from them, and as wide as
/// its type where that has a width.
fn both_ways(ty: &str, v: Value, bytes: &[u8]) {
    assert_eq!(bytes_of(ty, &v).as_deref(), Ok(bytes), "encoding {v:?} as {ty}");
    assert_eq!(value_of(ty, bytes), Ok(v), "decoding {bytes:?} as {ty}");
    if let Some(w) = parse_size(&parse_tree(ty).unwrap()) {
        assert_eq!(bytes.len(), w, "width of {ty}");
    }
}

#[test]
fn booleans() {
    both_ways("bool", Value::Bool(false), &[0]);
    both_ways("bool", Value::Bool(true), &[1]);
}

#[test]
fn characters() {
    both_ways("char", text("a"), &[97, 0, 0]);
    both_ways("char", text("\0"), &[0, 0, 0]);
    both_ways("char", text("é"), &[0xE9, 0, 0]);
    both_ways("char", text("🦀"), &[0x80, 0xF9, 0x01]);
    both_ways("char", text("\u{10FFFF}"), &[0xFF, 0xFF, 0x10]);
    both_ways("char", text("\u{D7FF}"), &[0xFF, 0xD7, 0]);
    both_ways("char", text("\u{E000}"), &[0x00, 0xE0, 0]);
}

#[test]
fn unsigned_integers() {
    both_ways("u8", unum(0), &[0]);
    both_ways("u8", unum(255), &[255]);
    both_ways("u16", unum(0x1234), &[0x34, 0x12]);
    both_ways("u32", unum(7), &[7, 0, 0, 0]);
    both_ways("u32", unum(0xDEADBEEF), &[0xEF, 0xBE, 0xAD, 0xDE]);
    both_ways("u64", unum(u64::MAX as u128), &[255; 8]);
    both_ways("u128", unum(1 << 127), &[0, 0, 0, 0, 0, 0, 0, 0, 0, 0, 0, 0, 0, 0, 0, 0x80]);
    both_ways("u128", unum(u128::MAX), &[255; 16]);
}

#[test]
fn signed_integers() {
    both_ways("i8", num(-1), &[255]);
    both_ways("i8", num(-128), &[128]);
    both_ways("i8", num(127), &[127]);
    both_ways("i16", num(-2), &[0xFE, 0xFF]);
    both_ways("i32", num(-1), &[255, 255, 255, 255]);
    both_ways("i32", num(1), &[1, 0, 0, 0]);
    both_ways("i64", num(i64::MIN as i128), &[0, 0, 0, 0, 0, 0, 0, 0x80]);
    both_ways("i128", num(i128::MIN), &[0, 0, 0, 0, 0, 0, 0, 0, 0, 0, 0, 0, 0, 0, 0, 0x80]);
    both_ways("i128", num(-1), &[255; 16]);
    both_ways("i128", num(i128::MAX), &[255, 255, 255, 255, 255, 255, 255, 255, 255, 255, 255, 255, 255, 255, 255, 0x7F]);
}

#[test]
fn floats_are_moved_bit_by_bit() {
    both_ways("f32", Value::Number(Number::Float32(1.5f32.to_bits())), &1.5f32.to_le_bytes());
    both_ways("f32", Value::Number(Number::Float32(0x3FC00000)), &[0, 0, 0xC0, 0x3F]);
    both_ways("f64", Value::Number(Number::Float64((-2.25f64).to_bits())), &(-2.25f64).to_le_bytes());
    both_ways("f64", Value::Number(Number::Float64(f64::NAN.to_bits())), &f64::NAN.to_le_bytes());
    both_ways("f64", Value::Number(Number::Float64(0)), &[0; 8]);
}

#[test]
fn text_and_bytes() {
    both_ways("String", text(""), &[]);
    both_ways("String", text("ab"), b"ab");
    both_ways("&str", text("é🦀"), "é🦀".as_bytes());
    both_ways("&[u8]", seq(vec![]), &[]);
    both_ways("&[u8]", seq(vec![unum(0), unum(255), unum(7)]), &[0, 255, 7]);
}

#[test]
fn arrays() {
    both_ways("[u16;2]", seq(vec![unum(1), unum(2)]), &[1, 0, 2, 0]);
    both_ways("[u16;0]", seq(vec![]), &[]);
    // elements without a width are each announced by four bytes
    both_ways(
        "[String;2]",
        seq(vec![text("ab"), text("")]),
        &[2, 0, 0, 0, b'a', b'b', 0, 0, 0, 0],
    );
    both_ways(
        "[Vec<u8>;1]",
        seq(vec![seq(vec![unum(9)])]),
        &[2, 0, 0, 0, 1, 9],
    );
}

#[test]
fn vectors() {
    both_ways("Vec<u16>", seq(vec![]), &[0]);
    both_ways("Vec<u16>", seq(vec![unum(1), unum(2)]), &[2, 1, 0, 2, 0]);
    // elements without a width are each announced, also the last
    both_ways("Vec<String>", seq(vec![text("ab"), text("c")]), &[2, 2, b'a', b'b', 1, b'c']);
    both_ways(
        "Vec<Vec<u8>>",
        seq(vec![seq(vec![unum(1), unum(2)]), seq(vec![])]),
        &[2, 3, 2, 1, 2, 1, 0],
    );
    // a long vector has a long count
    let long = seq((0..300).map(|_| unum(7)).collect());
    let mut bytes = vec![254, 0x2C, 0x01];
    bytes.extend(std::iter::repeat(7).take(300));
    both_ways("Vec<u8>", long, &bytes);
}

#[test]
fn options() {
    both_ways("Option<u32>", Value::Null, &[0, 0, 0, 0, 0]);
    both_ways("Option<u32>", unum(7), &[1, 7, 0, 0, 0]);
    both_ways("Option<String>", Value::Null, &[0]);
    both_ways("Option<String>", text("hi"), &[1, b'h', b'i']);
    both_ways("Option<Option<u8>>", Value::Null, &[0, 0, 0]);
    both_ways("Option<Option<u8>>", unum(5), &[1, 1, 5]);
    both_ways("Option<(u8,u8)>", Value::Null, &[0, 0, 0]);
    both_ways("Option<(u8,u8)>", seq(vec![unum(1), unum(2)]), &[1, 1, 2]);
}

#[test]
fn tuples() {
    both_ways("()", Value::Null, &[]);
    both_ways("(u8,)", seq(vec![unum(9)]), &[9]);
    both_ways("(String,)", seq(vec![text("ab")]), b"ab");
    both_ways("(u8,u16)", seq(vec![unum(1), unum(2)]), &[1, 2, 0]);
    // the lengths of the members that need one come first, then the members
    both_ways(
        "(Vec<u8>,String)",
        seq(vec![seq(vec![unum(1), unum(2), unum(3)]), text("ab")]),
        &[4, 3, 1, 2, 3, b'a', b'b'],
    );
    both_ways(
        "(String,u8,String,String)",
        seq(vec![text("abc"), unum(7), text("de"), text("f")]),
        &[3, 2, b'a', b'b', b'c', 7, b'd', b'e', b'f'],
    );
    both_ways("(String,u8)", seq(vec![text("abc"), unum(7)]), &[3, b'a', b'b', b'c', 7]);
    both_ways("((),)", seq(vec![Value::Null]), &[]);
    both_ways("((u8,String),u8)", seq(vec![seq(vec![unum(1), text("x")]), unum(2)]), &[2, 1, b'x', 2]);
}

#[test]
fn structs() {
    let ty = "User {id: u16, name: String, tags: Vec<String>, age: Option<u8>}";
    let bytes = [2, 4, 7, 0, b'a', b'b', 2, 1, b'x', 0, 1, 30];
    let v = record(vec![
        ("id", unum(7)),
        ("name", text("ab")),
        ("tags", seq(vec![text("x"), text("")])),
        ("age", unum(30)),
    ]);
    both_ways(ty, v, &bytes);

    // the bytes follow the order of the type, not that of the record
    let shuffled = record(vec![
        ("age", unum(30)),
        ("tags", seq(vec![text("x"), text("")])),
        ("name", text("ab")),
        ("id", unum(7)),
    ]);
    assert_eq!(bytes_of(ty, &shuffled).as_deref(), Ok(&bytes[..]));

    both_ways("E {}", record(vec![]), &[]);
    both_ways("P {x: u8, y: u8}", record(vec![("x", unum(1)), ("y", unum(2))]), &[1, 2]);
}

#[test]
fn a_missing_optional_field_is_null() {
    let ty = "S {a: u8, b: Option<u8>}";
    let v = record(vec![("a", unum(1))]);
    assert_eq!(bytes_of(ty, &v), Ok(vec![1, 0, 0]));
    assert_eq!(value_of(ty, &[1, 0, 0]), Ok(record(vec![("a", unum(1)), ("b", Value::Null)])));
}

#[test]
fn a_record_has_exactly_the_fields_of_its_type() {
    let ty = "S {a: u8, b: u8}";
    assert_eq!(bytes_of(ty, &record(vec![("a", unum(1))])), Err(EncodeError::TypeError));
    assert_eq!(
        bytes_of(ty, &record(vec![("a", unum(1)), ("b", unum(2)), ("c", unum(3))])),
        Err(EncodeError::TypeError),
    );
    assert_eq!(bytes_of(ty, &record(vec![])), Err(EncodeError::TypeError));
    assert_eq!(bytes_of(ty, &seq(vec![unum(1), unum(2)])), Err(EncodeError::TypeError));
    // where the record names a field twice, the later entry counts
    assert_eq!(
        bytes_of(ty, &record(vec![("a", unum(1)), ("b", unum(2)), ("a", unum(9))])),
        Ok(vec![9, 2]),
    );
}

#[test]
fn values_of_the_wrong_shape() {
    let cases: Vec<(&str, Value)> = vec![
        ("bool", unum(1)),
        ("bool", Value::Null),
        ("char", text("")),
        ("char", text("ab")),
        ("char", unum(97)),
        ("u8", text("1")),
        ("u8", Value::Bool(true)),
        ("u8", Value::Number(Number::Float64(1.0f64.to_bits()))),
        ("i32", Value::Null),
        ("f32", unum(1)),
        ("f32", Value::Number(Number::Float64(0))),
        ("f64", Value::Number(Number::Float32(0))),
        ("f64", text("1.0")),
        ("String", unum(1)),
        ("String", Value::Null),
        ("&[u8]", text("ab")),
        ("&[u8]", seq(vec![text("a")])),
        ("[u8;2]", seq(vec![unum(1)])),
        ("[u8;2]", seq(vec![unum(1), unum(2), unum(3)])),
        ("[u8;2]", Value::Null),
        ("Vec<u8>", Value::Null),
        ("Vec<u8>", text("ab")),
        ("Vec<u8>", seq(vec![text("a")])),
        ("Option<u8>", text("a")),
        ("(u8,u8)", seq(vec![unum(1)])),
        ("(u8,u8)", Value::Null),
        ("(u8,u8)", record(vec![])),
        ("()", seq(vec![unum(1)])),
        ("()", unum(0)),
        ("S {a: u8}", Value::Null),
        ("S {a: u8}", record(vec![("a", text("x"))])),
    ];
    for (ty, v) in cases {
        assert_eq!(bytes_of(ty, &v), Err(EncodeError::TypeError), "{v:?} as {ty}");
    }
}

#[test]
fn numbers_out_of_range() {
    let cases: Vec<(&str, Value)> = vec![
        ("u8", unum(256)),
        ("u8", num(-1)),
        ("u16", unum(65536)),
        ("u32", unum(4294967296)),
        ("u64", unum(1 << 64)),
        ("u128", num(-1)),
        ("i8", num(128)),
        ("i8", num(-129)),
        ("i16", num(32768)),
        ("i32", num(-2147483649)),
        ("i64", unum(1 << 63)),
        ("i128", unum(1 << 127)),
        ("&[u8]", seq(vec![unum(1), unum(256)])),
        ("&[u8]", seq(vec![num(-1)])),
        ("Vec<u8>", seq(vec![unum(1), unum(300)])),
        ("Option<i8>", unum(200)),
        ("(u8,i8)", seq(vec![unum(1), num(-200)])),
        ("S {a: u8}", record(vec![("a", unum(1000))])),
    ];
    for (ty, v) in cases {
        assert_eq!(bytes_of(ty, &v), Err(EncodeError::RangeError), "{v:?} as {ty}");
    }
}

#[test]
fn the_first_error_counts() {
    // the second member is of the wrong kind, the third out of range
    assert_eq!(
        bytes_of("(u8,u8,u8)", &seq(vec![unum(1), text("x"), unum(999)])),
        Err(EncodeError::TypeError),
    );
    assert_eq!(
        bytes_of("(u8,u8,u8)", &seq(vec![unum(1), unum(999), text("x")])),
        Err(EncodeError::RangeError),
    );
    // a field that does not encode is found before an entry that is no field
    assert_eq!(
        bytes_of("S {a: u8}", &record(vec![("a", unum(999)), ("z", unum(1))])),
        Err(EncodeError::RangeError),
    );
}

#[test]
fn a_failed_encoding_writes_nothing() {
    let tree = parse_tree("(String,Vec<u8>,u8)").unwrap();
    let v = seq(vec![text("abc"), seq(vec![unum(1), unum(2)]), unum(999)]);
    let mut buf = vec![1, 2, 3];
    assert_eq!(encode(&tree, &v, &mut buf), Err(EncodeError::RangeError));
    assert_eq!(buf, vec![1, 2, 3]);

    let mut buf = vec![1, 2, 3];
    assert_eq!(encode_type("Vec<u8>", &seq(vec![unum(1), text("x")]), &mut buf), Err(CodecError::Encode(EncodeError::TypeError)));
    assert_eq!(buf, vec![1, 2, 3]);
    assert_eq!(encode_type("Vec<u9>", &seq(vec![]), &mut buf), Err(CodecError::Parse(ParseError::UnknownType)));
    assert_eq!(buf, vec![1, 2, 3]);
}

#[test]
fn encoding_appends() {
    let tree = parse_tree("u16").unwrap();
    let mut buf = vec![9];
    assert_eq!(encode(&tree, &unum(0x0102), &mut buf), Ok(()));
    assert_eq!(buf, vec![9, 2, 1]);
    assert_eq!(encode_type("bool", &Value::Bool(true), &mut buf), Ok(()));
    assert_eq!(buf, vec![9, 2, 1, 1]);
}

#[test]
fn truncated_input() {
    let cases: Vec<(&str, Vec<u8>)> = vec![
        ("bool", vec![]),
        ("char", vec![97, 0]),
        ("u32", vec![1, 2, 3]),
        ("i128", vec![0; 15]),
        ("f64", vec![0; 7]),
        ("[u16;2]", vec![1, 0, 2]),
        ("[String;1]", vec![2, 0, 0]),
        ("[String;1]", vec![2, 0, 0, 0, b'a']),
        ("Vec<u8>", vec![]),
        ("Vec<u8>", vec![3, 1, 2]),
        ("Vec<u8>", vec![254, 1]),
        ("Vec<String>", vec![1]),
        ("Vec<String>", vec![1, 2, b'a']),
        ("Option<u32>", vec![]),
        ("Option<u32>", vec![0, 0, 0]),
        ("Option<u32>", vec![1, 0, 0]),
        ("(u8,u8)", vec![1]),
        ("(String,u8)", vec![]),
        ("(String,u8)", vec![3, b'a', b'b']),
        ("(String,u8)", vec![2, b'a', b'b']),
        ("S {a: u8, b: u16}", vec![1, 2]),
    ];
    for (ty, bytes) in cases {
        assert_eq!(value_of(ty, &bytes), Err(DecodeError::TruncatedInput), "{bytes:?} as {ty}");
    }
}

#[test]
fn corrupt_data() {
    let cases: Vec<(&str, Vec<u8>)> = vec![
        ("bool", vec![2]),
        ("bool", vec![255]),
        ("char", vec![0x00, 0xD8, 0x00]),
        ("char", vec![0xFF, 0xDF, 0x00]),
        ("char", vec![0x00, 0x00, 0x11]),
        ("char", vec![0xFF, 0xFF, 0xFF]),
        ("String", vec![0xFF]),
        ("String", vec![b'a', 0xC3]),
        ("&str", vec![0xED, 0xA0, 0x80]),
        ("Option<u8>", vec![2, 0]),
        ("Option<String>", vec![1, 0xFF]),
        ("Vec<bool>", vec![2, 1, 7]),
        ("(bool,String)", vec![1, 0xC0]),
        ("S {a: bool}", vec![9]),
    ];
    for (ty, bytes) in cases {
        assert_eq!(value_of(ty, &bytes), Err(DecodeError::CorruptData), "{bytes:?} as {ty}");
    }
}

#[test]
fn the_first_fault_counts() {
    // the first element is corrupt, the second is cut off
    assert_eq!(value_of("[bool;2]", &[7]), Err(DecodeError::CorruptData));
    // the first element is fine, the second is cut off
    assert_eq!(value_of("[bool;2]", &[1]), Err(DecodeError::TruncatedInput));
    // the header of a tuple is read before any member
    assert_eq!(value_of("(bool,String,String)", &[9]), Err(DecodeError::TruncatedInput));
    assert_eq!(value_of("(bool,String,String)", &[9, 7]), Err(DecodeError::CorruptData));
}

#[test]
fn parse_takes_the_value_off_the_buffer() {
    let tree = parse_tree("u16").unwrap();
    let buf = [1u8, 0, 2, 0, 3];
    let mut data: &[u8] = &buf;
    assert_eq!(parse(&tree, &mut data), Ok(unum(1)));
    assert_eq!(data, &[2, 0, 3]);
    assert_eq!(parse(&tree, &mut data), Ok(unum(2)));
    assert_eq!(data, &[3]);
    assert_eq!(parse(&tree, &mut data), Err(DecodeError::TruncatedInput));
    assert_eq!(data, &[3]);

    // text takes all that is there
    let tree = parse_tree("String").unwrap();
    let mut data: &[u8] = b"abc";
    assert_eq!(parse(&tree, &mut data), Ok(text("abc")));
    assert!(data.is_empty());

    // a tuple whose last member has a width leaves what follows it
    let tree = parse_tree("(String,u8)").unwrap();
    let mut data: &[u8] = &[1, b'a', 7, 8, 9];
    assert_eq!(parse(&tree, &mut data), Ok(seq(vec![text("a"), unum(7)])));
    assert_eq!(data, &[8, 9]);
}

#[test]
fn what_follows_a_value_is_not_looked_at() {
    assert_eq!(value_of("u8", &[1, 2, 3]), Ok(unum(1)));
    assert_eq!(value_of("Option<u8>", &[0, 9, 9]), Ok(Value::Null));
    assert_eq!(value_of("Vec<u8>", &[1, 5, 6]), Ok(seq(vec![unum(5)])));
    // an element is read from its own bytes, whatever it leaves of them
    assert_eq!(value_of("Vec<Vec<u8>>", &[1, 3, 1, 5, 6]), Ok(seq(vec![seq(vec![unum(5)])])));
}

#[test]
fn by_descriptor() {
    assert_eq!(parse_type("(u8,String)", &[1, b'a']), Ok(seq(vec![unum(1), text("a")])));
    assert_eq!(parse_type("u32", &[1]), Err(CodecError::Decode(DecodeError::TruncatedInput)));
    assert_eq!(parse_type("bool", &[3]), Err(CodecError::Decode(DecodeError::CorruptData)));
    assert_eq!(parse_type("(u8", &[1]), Err(CodecError::Parse(ParseError::Syntax)));
    assert_eq!(parse_type("Thing", &[1]), Err(CodecError::Parse(ParseError::UnknownType)));
}

#[test]
fn forms_that_are_read_but_not_written() {
    // the empty sequence is taken for the unit tuple, which reads as null
    assert_eq!(bytes_of("()", &seq(vec![])), Ok(vec![]));
    assert_eq!(value_of("()", &[]), Ok(Value::Null));
    // padding is not looked at
    assert_eq!(value_of("Option<u16>", &[0, 7, 7]), Ok(Value::Null));
    assert_eq!(bytes_of("Option<u16>", &Value::Null), Ok(vec![0, 0, 0]));
    // an option of an option cannot tell the inner none from the outer
    assert_eq!(value_of("Option<Option<u8>>", &[1, 0, 0]), Ok(Value::Null));
    assert_eq!(bytes_of("Option<Option<u8>>", &Value::Null), Ok(vec![0, 0, 0]));
}

#[test]
fn a_name_that_a_struct_has_twice() {
    let ty = "S {a: Option<u8>, a: Option<u8>}";
    // the first field of the name takes the entry, the second finds none
    assert_eq!(bytes_of(ty, &record(vec![("a", unum(1))])), Ok(vec![1, 1, 0, 0]));
    // and the second field is the one that counts in what is read
    assert_eq!(
        value_of(ty, &[1, 1, 0, 0]),
        Ok(record(vec![("a", unum(1)), ("a", Value::Null)])),
    );
    assert_eq!(bytes_of(ty, &value_of(ty, &[1, 1, 0, 0]).unwrap()), Ok(vec![0, 0, 0, 0]));
    // only null comes back as it went
    assert_eq!(bytes_of(ty, &record(vec![("a", Value::Null)])), Ok(vec![0, 0, 0, 0]));
    assert_eq!(
        value_of(ty, &[0, 0, 0, 0]),
        Ok(record(vec![("a", Value::Null), ("a", Value::Null)])),
    );
    // a second field that is not optional finds no entry
    assert_eq!(bytes_of("S {a: u8, a: u8}", &record(vec![("a", unum(1))])), Err(EncodeError::TypeError));
}

#[test]
fn a_key_is_ordered_by_its_value_not_by_its_bytes() {
    let a = bytes_of("i32", &num(-1)).unwrap();
    let b = bytes_of("i32", &num(1)).unwrap();
    assert_eq!(a, vec![255, 255, 255, 255]);
    assert_eq!(b, vec![1, 0, 0, 0]);
    assert_eq!(a.cmp(&b), Ordering::Greater);
    let va = value_of("i32", &a).unwrap();
    let vb = value_of("i32", &b).unwrap();
    assert_eq!(ordering(&va, &vb), Some(Ordering::Less));
    assert_eq!(ordering(&num(-1), &num(1)), Some(Ordering::Less));
}
