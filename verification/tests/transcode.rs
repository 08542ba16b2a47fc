//! The adapters of keys and values.

use redb_cli::descriptor::parse_tree;
use redb_cli::error::{DecodeError, EncodeError};
use redb_cli::transcode::{enc_de, EncDe, KVType, KeyError, K, V};
use redb_cli::tree::TypeTree;
use redb_cli::value::{Number, Value};
use std::cmp::Ordering;

fn unum(n: u128) -> Value {
    Value::Number(Number::from_u128(n))
}

fn text(s: &str) -> Value {
    Value::String(s.to_string())
}

#[test]
fn the_raw_codec() {
    let raw = EncDe::new_for_slices();
    assert!(raw.is_raw());
    assert!(raw.can_order());
    assert!(raw.type_tree().is_none());
    assert_eq!(raw.de(b"hello"), Ok(text("hello")));
    assert_eq!(raw.de(&[]), Ok(text("")));
    assert_eq!(raw.enc(&text("hello")), Ok(b"hello".to_vec()));
    assert_eq!(raw.enc(&text("é")), Ok(vec![0xC3, 0xA9]));
    assert_eq!(raw.enc(&unum(1)), Err(EncodeError::TypeError));
    assert_eq!(raw.enc(&Value::Null), Err(EncodeError::TypeError));
    assert_eq!(raw.ord(b"a", b"b"), Some(Ordering::Less));
    assert_eq!(raw.ord(&[255], &[1, 0, 0, 0]), Some(Ordering::Greater));
    assert_eq!(raw.ord(&[1, 2], &[1, 2]), Some(Ordering::Equal));
}

#[test]
fn the_raw_codec_reads_lossily() {
    let raw = EncDe::new_for_slices();
    assert_eq!(raw.de(&[b'a', 0xFF, b'b']), Ok(text("a\u{FFFD}b")));
    assert_eq!(raw.de(&[0xC3]), Ok(text("\u{FFFD}")));
    assert_eq!(raw.de("é🦀".as_bytes()), Ok(text("é🦀")));
}

#[test]
fn the_codec_of_a_type() {
    let codec = EncDe::new_for_tree(parse_tree("(u8,String)").unwrap());
    assert!(!codec.is_raw());
    assert!(codec.can_order());
    assert_eq!(codec.type_tree(), Some(&parse_tree("(u8,String)").unwrap()));
    let v = Value::Sequence(vec![unum(1), text("a")]);
    assert_eq!(codec.enc(&v), Ok(vec![1, b'a']));
    assert_eq!(codec.de(&[1, b'a']), Ok(v));
    assert_eq!(codec.de(&[]), Err(DecodeError::TruncatedInput));
    assert_eq!(codec.enc(&text("a")), Err(EncodeError::TypeError));
    assert_eq!(codec.ord(&[1, b'b'], &[2, b'a']), Some(Ordering::Less));
    assert_eq!(codec.ord(&[1, b'b'], &[1, b'a']), Some(Ordering::Greater));
    assert_eq!(codec.ord(&[1, b'b'], &[]), None);
    assert_eq!(codec.ord(&[], &[1, b'b']), None);
}

#[test]
fn a_typed_codec_orders_values_not_bytes() {
    let codec = EncDe::new_for_tree(parse_tree("i32").unwrap());
    let minus_one = codec.enc(&Value::Number(Number::from_i128(-1))).unwrap();
    let one = codec.enc(&unum(1)).unwrap();
    assert_eq!(codec.ord(&minus_one, &one), Some(Ordering::Less));
    assert_eq!(EncDe::new_for_slices().ord(&minus_one, &one), Some(Ordering::Greater));
}

#[test]
fn a_codec_without_an_order() {
    let codec = EncDe::new_for_tree(parse_tree("f64").unwrap());
    assert!(!codec.can_order());
    assert_eq!(codec.ord(&[0; 8], &[0; 8]), None);
    let codec = EncDe::new_for_tree(parse_tree("S {a: u8}").unwrap());
    assert!(!codec.can_order());
    assert_eq!(codec.ord(&[1], &[2]), None);
}

#[test]
fn codecs_by_name() {
    // text is taken as it stands
    assert!(enc_de("String").unwrap().is_raw());
    assert!(enc_de("&str").unwrap().is_raw());
    // any other type has its codec
    let codec = enc_de("Vec<u16>").unwrap();
    assert_eq!(codec.type_tree(), Some(&parse_tree("Vec<u16>").unwrap()));
    assert_eq!(enc_de("u8").unwrap().type_tree(), Some(&parse_tree("u8").unwrap()));
    assert_eq!(enc_de("Option<String>").unwrap().type_tree(), Some(&parse_tree("Option<String>").unwrap()));
    assert!(!enc_de("&[u8]").unwrap().is_raw());
    // a name that describes no type has none
    assert!(enc_de("Thing").is_none());
    assert!(enc_de("(u8").is_none());
    assert!(enc_de("").is_none());
}

#[test]
fn the_key_adapter() {
    let k = K::new("u16".to_string(), Some(2), enc_de("u16").unwrap()).ok().unwrap();
    assert_eq!(k.descriptor(), "u16");
    assert_eq!(k.fixed_width(), Some(2));
    assert_eq!(k.as_bytes(&unum(258)), Ok(vec![2, 1]));
    assert_eq!(k.as_bytes(&unum(65536)), Err(EncodeError::RangeError));
    assert_eq!(k.from_bytes(&[2, 1]), Ok(unum(258)));
    assert_eq!(k.from_bytes(&[2]), Err(DecodeError::TruncatedInput));
    assert_eq!(k.compare(&[0, 1], &[255, 0]), Some(Ordering::Greater));
    assert_eq!(k.compare(&[0, 1], &[0, 1]), Some(Ordering::Equal));
    assert_eq!(k.compare(&[0], &[0, 1]), None);
    assert!(!k.encde().is_raw());
}

#[test]
fn a_type_without_an_order_is_no_key() {
    for name in ["f64", "f32", "S {a: u8}", "(u8,f64)", "Vec<Inner {x: u8}>"] {
        let r = K::new(name.to_string(), None, enc_de(name).unwrap());
        assert_eq!(r.err(), Some(KeyError::Unorderable), "{name}");
    }
    assert!(K::new("x".to_string(), None, EncDe::new_for_slices()).is_ok());
    assert!(K::new("(u8,String)".to_string(), None, enc_de("(u8,String)").unwrap()).is_ok());
}

#[test]
fn the_value_adapter() {
    let v = V::new("f32".to_string(), Some(4), enc_de("f32").unwrap());
    assert_eq!(v.descriptor(), "f32");
    assert_eq!(v.fixed_width(), Some(4));
    let one = Value::Number(Number::Float32(1.0f32.to_bits()));
    assert_eq!(v.as_bytes(&one), Ok(vec![0, 0, 0x80, 0x3F]));
    assert_eq!(v.from_bytes(&[0, 0, 0x80, 0x3F]), Ok(one));
    assert_eq!(v.from_bytes(&[0]), Err(DecodeError::TruncatedInput));
    assert_eq!(v.as_bytes(&unum(1)), Err(EncodeError::TypeError));
    assert!(!v.encde().is_raw());

    let raw = V::new("Opaque".to_string(), None, EncDe::new_for_slices());
    assert_eq!(raw.fixed_width(), None);
    assert_eq!(raw.from_bytes(b"xyz"), Ok(text("xyz")));
    assert_eq!(raw.as_bytes(&text("xyz")), Ok(b"xyz".to_vec()));
}

#[test]
fn a_schema() {
    let schema = KVType { k_ty: TypeTree::String, v_ty: TypeTree::Bool, is_multi: true };
    assert_eq!(schema.k_ty, TypeTree::String);
    assert_eq!(schema.v_ty, TypeTree::Bool);
    assert!(schema.is_multi);
}
