//! Values and numbers.

use redb_cli::descriptor::parse_tree;
use redb_cli::order::ordering;
use redb_cli::text::{bytes_eq, str_eq};
use redb_cli::tree::{FloatWidth, IntWidth, TypeTree};
use redb_cli::value::{find_entry, Number, Value};
use std::cmp::Ordering;

#[test]
fn a_number_is_held_in_one_form() {
    assert_eq!(Number::from_u128(0), Number::PosInt(0));
    assert_eq!(Number::from_u128(u128::MAX), Number::PosInt(u128::MAX));
    assert_eq!(Number::from_i128(0), Number::PosInt(0));
    assert_eq!(Number::from_i128(7), Number::PosInt(7));
    assert_eq!(Number::from_i128(i128::MAX), Number::PosInt(i128::MAX as u128));
    assert_eq!(Number::from_i128(-1), Number::NegInt(-1));
    assert_eq!(Number::from_i128(i128::MIN), Number::NegInt(i128::MIN));
}

#[test]
fn a_number_as_an_integer() {
    assert_eq!(Number::PosInt(5).as_u128(), Some(5));
    assert_eq!(Number::PosInt(5).as_i128(), Some(5));
    assert_eq!(Number::PosInt(u128::MAX).as_u128(), Some(u128::MAX));
    assert_eq!(Number::PosInt(u128::MAX).as_i128(), None);
    assert_eq!(Number::PosInt(i128::MAX as u128).as_i128(), Some(i128::MAX));
    assert_eq!(Number::PosInt(i128::MAX as u128 + 1).as_i128(), None);
    assert_eq!(Number::NegInt(-5).as_i128(), Some(-5));
    assert_eq!(Number::NegInt(-5).as_u128(), None);
    assert_eq!(Number::NegInt(i128::MIN).as_i128(), Some(i128::MIN));
    assert_eq!(Number::NegInt(5).as_u128(), Some(5));
    assert_eq!(Number::Float32(0).as_u128(), None);
    assert_eq!(Number::Float32(0).as_i128(), None);
    assert_eq!(Number::Float64(7).as_u128(), None);
    assert_eq!(Number::Float64(7).as_i128(), None);
}

#[test]
fn the_entry_of_a_name() {
    let entries = vec![
        ("a".to_string(), Value::Bool(true)),
        ("b".to_string(), Value::Null),
        ("a".to_string(), Value::Bool(false)),
    ];
    assert_eq!(find_entry(&entries, "a"), Some(2));
    assert_eq!(find_entry(&entries, "b"), Some(1));
    assert_eq!(find_entry(&entries, "c"), None);
    assert_eq!(find_entry(&entries, ""), None);
    assert_eq!(find_entry(&Vec::new(), "a"), None);
}

#[test]
fn a_copy_of_a_value() {
    let v = Value::Record(vec![
        ("n".to_string(), Value::Number(Number::NegInt(-3))),
        (
            "s".to_string(),
            Value::Sequence(vec![
                Value::Null,
                Value::Bool(true),
                Value::String("é".to_string()),
                Value::Number(Number::Float32(9)),
                Value::Sequence(vec![]),
                Value::Record(vec![]),
            ]),
        ),
    ]);
    assert_eq!(v.clone(), v);
    assert_eq!(Value::Null.clone(), Value::Null);
}

#[test]
fn a_copy_of_a_tree() {
    let tree = parse_tree("S {a: [Vec<Option<(u8,f32,String,&[u8],char,bool)>>;2], b: T {}}").unwrap();
    assert_eq!(tree.clone(), tree);
    assert_eq!(TypeTree::Bool.clone(), TypeTree::Bool);
}

#[test]
fn the_widths_of_numbers() {
    let widths = [IntWidth::W8, IntWidth::W16, IntWidth::W32, IntWidth::W64, IntWidth::W128];
    assert_eq!(widths.map(|w| w.bytes()), [1, 2, 4, 8, 16]);
    assert_eq!(FloatWidth::W32.bytes(), 4);
    assert_eq!(FloatWidth::W64.bytes(), 8);
}

#[test]
fn equal_text_and_bytes() {
    assert!(bytes_eq(&[], &[]));
    assert!(bytes_eq(&[1, 2], &[1, 2]));
    assert!(!bytes_eq(&[1, 2], &[1, 3]));
    assert!(!bytes_eq(&[1, 2], &[1]));
    assert!(!bytes_eq(&[], &[0]));
    assert!(str_eq("", ""));
    assert!(str_eq("é🦀", "é🦀"));
    assert!(!str_eq("a", "b"));
    assert!(!str_eq("a", "ab"));
}

#[test]
fn the_order_is_an_order() {
    let ns = |n: i128| Value::Number(Number::from_i128(n));
    let values = vec![
        Value::Null,
        Value::Sequence(vec![]),
        Value::Sequence(vec![Value::Null]),
        Value::Sequence(vec![Value::Null, ns(-1)]),
        Value::Sequence(vec![ns(-5)]),
        Value::Sequence(vec![ns(-5), ns(0)]),
        Value::Sequence(vec![ns(-5), ns(1)]),
        Value::Sequence(vec![ns(2)]),
    ];
    for (i, a) in values.iter().enumerate() {
        for (j, b) in values.iter().enumerate() {
            // values of one kind, with null before them all, are in one line
            let ab = ordering(a, b).unwrap();
            assert_eq!(ab, i.cmp(&j), "{a:?} and {b:?}");
            assert_eq!(ordering(b, a), Some(ab.reverse()));
            assert_eq!(ab == Ordering::Equal, a == b);
            for c in &values {
                let bc = ordering(b, c).unwrap();
                if ab != Ordering::Greater && bc != Ordering::Greater {
                    assert_eq!(ordering(a, c), Some(ab.then(bc)));
                }
            }
        }
    }
}
