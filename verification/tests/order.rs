//! The order of values.

use redb_cli::order::{lex_bytes, order_values, ordering, Order};
use redb_cli::value::{Number, Value};
use std::cmp::Ordering;

fn num(n: i128) -> Value {
    Value::Number(Number::from_i128(n))
}

fn unum(n: u128) -> Value {
    Value::Number(Number::from_u128(n))
}

fn text(s: &str) -> Value {
    Value::String(s.to_string())
}

fn seq(items: Vec<Value>) -> Value {
    Value::Sequence(items)
}

#[test]
fn null_comes_first() {
    assert_eq!(ordering(&Value::Null, &Value::Null), Some(Ordering::Equal));
    for v in [Value::Bool(false), num(-5), text(""), seq(vec![]), Value::Record(vec![])] {
        assert_eq!(ordering(&Value::Null, &v), Some(Ordering::Less));
        assert_eq!(ordering(&v, &Value::Null), Some(Ordering::Greater));
    }
}

#[test]
fn the_order_of_booleans() {
    assert_eq!(ordering(&Value::Bool(false), &Value::Bool(true)), Some(Ordering::Less));
    assert_eq!(ordering(&Value::Bool(true), &Value::Bool(false)), Some(Ordering::Greater));
    assert_eq!(ordering(&Value::Bool(true), &Value::Bool(true)), Some(Ordering::Equal));
    assert_eq!(ordering(&Value::Bool(false), &Value::Bool(false)), Some(Ordering::Equal));
}

#[test]
fn the_order_of_numbers() {
    assert_eq!(ordering(&num(-1), &num(1)), Some(Ordering::Less));
    assert_eq!(ordering(&num(3), &unum(3)), Some(Ordering::Equal));
    assert_eq!(ordering(&num(i128::MIN), &num(i128::MAX)), Some(Ordering::Less));
    assert_eq!(ordering(&unum(u128::MAX), &unum(0)), Some(Ordering::Greater));
    assert_eq!(ordering(&unum(u128::MAX), &unum(u128::MAX)), Some(Ordering::Equal));
    assert_eq!(ordering(&unum(1 << 127), &unum(5)), Some(Ordering::Greater));
    // the same number, however it is held
    assert_eq!(
        ordering(&Value::Number(Number::NegInt(7)), &Value::Number(Number::PosInt(7))),
        Some(Ordering::Equal)
    );
}

#[test]
fn numbers_that_no_one_integer_type_holds_have_no_order() {
    assert_eq!(ordering(&num(-1), &unum(u128::MAX)), None);
    assert_eq!(ordering(&unum(1 << 127), &num(-1)), None);
}

#[test]
fn floats_have_no_order() {
    let one = Value::Number(Number::Float64(1.0f64.to_bits()));
    let two = Value::Number(Number::Float64(2.0f64.to_bits()));
    assert_eq!(ordering(&one, &two), None);
    assert_eq!(ordering(&one, &one), None);
    assert_eq!(ordering(&one, &num(1)), None);
    assert_eq!(ordering(&Value::Number(Number::Float32(0)), &Value::Number(Number::Float32(0))), None);
}

#[test]
fn text_is_ordered_by_its_bytes() {
    assert_eq!(ordering(&text("a"), &text("b")), Some(Ordering::Less));
    assert_eq!(ordering(&text("abc"), &text("abcd")), Some(Ordering::Less));
    assert_eq!(ordering(&text("b"), &text("abcd")), Some(Ordering::Greater));
    assert_eq!(ordering(&text(""), &text("")), Some(Ordering::Equal));
    assert_eq!(ordering(&text("Z"), &text("a")), Some(Ordering::Less));
    assert_eq!(ordering(&text("z"), &text("é")), Some(Ordering::Less));
    assert_eq!(ordering(&text("🦀"), &text("🐢")), "🦀".partial_cmp("🐢"));
}

#[test]
fn sequences_are_ordered_member_by_member() {
    assert_eq!(ordering(&seq(vec![]), &seq(vec![])), Some(Ordering::Equal));
    assert_eq!(ordering(&seq(vec![]), &seq(vec![num(0)])), Some(Ordering::Less));
    assert_eq!(ordering(&seq(vec![num(1), num(2)]), &seq(vec![num(1), num(3)])), Some(Ordering::Less));
    assert_eq!(ordering(&seq(vec![num(2)]), &seq(vec![num(1), num(3)])), Some(Ordering::Greater));
    assert_eq!(ordering(&seq(vec![num(1), num(3)]), &seq(vec![num(1)])), Some(Ordering::Greater));
    assert_eq!(
        ordering(&seq(vec![seq(vec![text("a")]), num(1)]), &seq(vec![seq(vec![text("a")]), num(1)])),
        Some(Ordering::Equal)
    );
    // a member decides before a later one without an order is reached
    assert_eq!(
        ordering(&seq(vec![num(1), Value::Record(vec![])]), &seq(vec![num(2), Value::Record(vec![])])),
        Some(Ordering::Less)
    );
    assert_eq!(
        ordering(&seq(vec![num(1), Value::Record(vec![])]), &seq(vec![num(1), Value::Record(vec![])])),
        None
    );
}

#[test]
fn records_and_values_of_different_kinds_have_no_order() {
    assert_eq!(ordering(&Value::Record(vec![]), &Value::Record(vec![])), None);
    assert_eq!(ordering(&Value::Bool(true), &num(1)), None);
    assert_eq!(ordering(&text("1"), &num(1)), None);
    assert_eq!(ordering(&seq(vec![]), &text("")), None);
    assert_eq!(ordering(&num(1), &seq(vec![num(1)])), None);
}

#[test]
fn the_library_own_order() {
    assert_eq!(order_values(&num(1), &num(2)), Some(Order::Less));
    assert_eq!(order_values(&num(2), &num(2)), Some(Order::Equal));
    assert_eq!(order_values(&num(3), &num(2)), Some(Order::Greater));
    assert_eq!(order_values(&num(3), &text("x")), None);
}

#[test]
fn bytes_in_lexicographic_order() {
    assert_eq!(lex_bytes(&[], &[]), Order::Equal);
    assert_eq!(lex_bytes(&[], &[0]), Order::Less);
    assert_eq!(lex_bytes(&[0], &[]), Order::Greater);
    assert_eq!(lex_bytes(&[1, 2, 3], &[1, 2, 4]), Order::Less);
    assert_eq!(lex_bytes(&[1, 2, 3], &[1, 2]), Order::Greater);
    assert_eq!(lex_bytes(&[255], &[1, 0, 0, 0]), Order::Greater);
    assert_eq!(lex_bytes(&[7, 7], &[7, 7]), Order::Equal);
}
