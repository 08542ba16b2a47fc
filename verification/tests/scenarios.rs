use redb_cli::descriptor::parse_tree;
use redb_cli::parser::{encode, parse_from_tree, parse_size};
use redb_cli::value::{Number, Value};

#[test]
fn option_padding() {
    let tree = parse_tree("Option<u32>").unwrap();
    assert_eq!(parse_size(&tree), Some(5));
    let mut buf = Vec::new();
    encode(&tree, &Value::Null, &mut buf).unwrap();
    assert_eq!(buf, vec![0, 0, 0, 0, 0]);
    let mut buf = Vec::new();
    encode(&tree, &Value::Number(Number::PosInt(7)), &mut buf).unwrap();
    assert_eq!(buf, vec![1, 7, 0, 0, 0]);
    assert_eq!(parse_from_tree(&tree, &buf).unwrap(), Value::Number(Number::PosInt(7)));
}

#[test]
fn framing_of_a_tuple() {
    let tree = parse_tree("(Vec<u8>, String)").unwrap();
    let value = Value::Sequence(vec![
        Value::Sequence(vec![
            Value::Number(Number::PosInt(1)),
            Value::Number(Number::PosInt(2)),
            Value::Number(Number::PosInt(3)),
        ]),
        Value::String("ab".to_string()),
    ]);
    let mut buf = Vec::new();
    encode(&tree, &value, &mut buf).unwrap();
    assert_eq!(buf, vec![4, 3, 1, 2, 3, b'a', b'b']);
    assert_eq!(parse_from_tree(&tree, &buf).unwrap(), value);
}
