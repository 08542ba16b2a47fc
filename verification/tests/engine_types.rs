//! The codec against the storage engine's own types: what the engine
//! writes for a value is what the library reads and writes for it.

use redb_cli::descriptor::parse_tree;
use redb_cli::order::ordering;
use redb_cli::parser::{encode, encode_type, parse, parse_size};
use redb_cli::value::{Number, Value};

fn to_json(v: &Value) -> serde_json::Value {
    match v {
        Value::Null => serde_json::Value::Null,
        Value::Bool(b) => serde_json::Value::Bool(*b),
        Value::Number(Number::PosInt(n)) => {
            serde_json::Value::Number(serde_json::Number::from_u128(*n).unwrap())
        }
        Value::Number(Number::NegInt(n)) => {
            serde_json::Value::Number(serde_json::Number::from_i128(*n).unwrap())
        }
        Value::Number(Number::Float32(bits)) => serde_json::Value::Number(
            serde_json::Number::from_f64(f32::from_bits(*bits) as f64).unwrap(),
        ),
        Value::Number(Number::Float64(bits)) => {
            serde_json::Value::Number(serde_json::Number::from_f64(f64::from_bits(*bits)).unwrap())
        }
        Value::String(s) => serde_json::Value::String(s.clone()),
        Value::Sequence(items) => serde_json::Value::Array(items.iter().map(to_json).collect()),
        Value::Record(entries) => {
            let mut map = serde_json::Map::new();
            for (name, value) in entries {
                map.insert(name.clone(), to_json(value));
            }
            serde_json::Value::Object(map)
        }
    }
}

/// Holds the library to one value of an engine type: the value that it
/// decodes from the engine's bytes, the width, and the bytes that it
/// encodes the decoded value to.
fn round_trip(name: &str, width: Option<usize>, bytes: &[u8], json: &serde_json::Value) -> Value {
    println!();
    println!("{name}: {bytes:02x?}");
    let tree = parse_tree(name).unwrap();

    let serde = serde_json::to_string_pretty(json).unwrap();
    let mut rest = bytes;
    let parsed_value = parse(&tree, &mut rest).unwrap();
    let parsed = serde_json::to_string_pretty(&to_json(&parsed_value)).unwrap();
    println!("{serde}\n{parsed}");
    assert_eq!(serde, parsed);

    assert_eq!(parse_size(&tree), width);

    let mut encoded = Vec::new();
    encode_type(name, &parsed_value, &mut encoded).unwrap();
    assert_eq!(bytes, encoded.as_slice());
    parsed_value
}

/// One value `v` of the engine type `T`, which the engine names `name`.
fn case<'b, T>(name: &str, v: T::SelfType<'b>)
where
    T: redb::Value + 'b,
    T::SelfType<'b>: serde::Serialize,
{
    let width = T::fixed_width();
    let buf = T::as_bytes(&v);
    let json = serde_json::to_value(&v).unwrap();
    round_trip(name, width, buf.as_ref(), &json);
}

/// Two values of the engine type `T`, which the engine names `name`.
fn order_case<'b, T>(name: &str, l: T::SelfType<'b>, r: T::SelfType<'b>)
where
    T: redb::Key + 'b,
    T::SelfType<'b>: serde::Serialize,
{
    let width = T::fixed_width();
    let l_buf = T::as_bytes(&l);
    let r_buf = T::as_bytes(&r);
    let l_buf: &[u8] = l_buf.as_ref();
    let r_buf: &[u8] = r_buf.as_ref();

    let tree = parse_tree(name).unwrap();
    assert_eq!(parse_size(&tree), width);

    let l_serde = serde_json::to_string_pretty(&l).unwrap();
    let r_serde = serde_json::to_string_pretty(&r).unwrap();

    let mut rest = l_buf;
    let l_parsed_value = parse(&tree, &mut rest).unwrap();
    let l_parsed = serde_json::to_string_pretty(&to_json(&l_parsed_value)).unwrap();

    let mut rest = r_buf;
    let r_parsed_value = parse(&tree, &mut rest).unwrap();
    let r_parsed = serde_json::to_string_pretty(&to_json(&r_parsed_value)).unwrap();

    println!("{l_serde}\n{l_parsed}");
    assert_eq!(l_serde, l_parsed);

    println!("{r_serde}\n{r_parsed}");
    assert_eq!(r_serde, r_parsed);

    let mut l_encoded = Vec::new();
    encode(&tree, &l_parsed_value, &mut l_encoded).unwrap();
    assert_eq!(l_buf, l_encoded.as_slice());

    let mut r_encoded = Vec::new();
    encode(&tree, &r_parsed_value, &mut r_encoded).unwrap();
    assert_eq!(r_buf, r_encoded.as_slice());

    assert_eq!(
        ordering(&l_parsed_value, &r_parsed_value).unwrap(),
        <T as redb::Key>::compare(l_buf, r_buf),
    );
}

#[test]
fn test_parser() {
    // Signed integers
    case::<i8>("i8", -128);
    case::<i8>("i8", 127);
    case::<i16>("i16", -32768);
    case::<i16>("i16", 32767);
    case::<i32>("i32", -2147483648);
    case::<i32>("i32", 2147483647);
    case::<i64>("i64", -9223372036854775808);
    case::<i64>("i64", 9223372036854775807);
    case::<i128>("i128", -170141183460469231731687303715884105728);
    case::<i128>("i128", 170141183460469231731687303715884105727);

    // Unsigned integers
    case::<u8>("u8", 0);
    case::<u8>("u8", 255);
    case::<u16>("u16", 0);
    case::<u16>("u16", 65535);
    case::<u32>("u32", 0);
    case::<u32>("u32", 4294967295);
    case::<u64>("u64", 0);
    case::<u64>("u64", 18446744073709551615);
    case::<u128>("u128", 0);
    case::<u128>("u128", 340282366920938463463374607431768211455);

    // Tuples
    case::<(i32, i64)>("(i32,i64)", (42, 314));
    case::<(u8, bool, &str)>("(u8,bool,&str)", (255, true, "hello"));
    case::<((),)>("((),)", ((),));
    case::<(i32, String, Vec<u8>)>("(i32,String,Vec<u8>)", (100, String::from("test"), vec![1, 2, 3]));
    case::<(Option<i32>, Option<i32>)>("(Option<i32>,Option<i32>)", (Some(42), None));
    case::<(Vec<i32>, Vec<i32>)>("(Vec<i32>,Vec<i32>)", (vec![], vec![1, 2, 3]));
    case::<(u8, u8, u8, u8)>("(u8,u8,u8,u8)", (0, 1, 2, 3));

    // Options
    case::<Option<i32>>("Option<i32>", Some(321));
    case::<Option<i32>>("Option<i32>", None);
    case::<Option<String>>("Option<String>", Some(String::from("hello")));
    case::<Option<String>>("Option<String>", None);
    case::<Option<Vec<i32>>>("Option<Vec<i32>>", Some(vec![1, 2, 3]));
    case::<Option<Vec<i32>>>("Option<Vec<i32>>", None);
    case::<Option<Option<i32>>>("Option<Option<i32>>", Some(Some(42)));
    case::<Option<Option<i32>>>("Option<Option<i32>>", None);
    case::<Option<&str>>("Option<&str>", Some("world"));
    case::<Option<&str>>("Option<&str>", None);

    // Vectors
    case::<Vec<i32>>("Vec<i32>", vec![]);
    case::<Vec<i32>>("Vec<i32>", vec![1]);
    case::<Vec<i32>>("Vec<i32>", vec![1, 2, 3, 4, 5]);
    case::<Vec<Vec<i32>>>("Vec<Vec<i32>>", vec![vec![1, 2], vec![3, 4]]);
    case::<Vec<Vec<i32>>>("Vec<Vec<i32>>", vec![]);
    case::<Vec<Option<i32>>>("Vec<Option<i32>>", vec![Some(1), None, Some(3)]);
    case::<Vec<String>>("Vec<String>", vec![String::from("a"), String::from("b")]);
    case::<Vec<&str>>("Vec<&str>", vec!["a", "b", "c"]);
    case::<Vec<u8>>("Vec<u8>", vec![0, 255, 128]);
    case::<Vec<bool>>("Vec<bool>", vec![true, false, true]);

    // &str slices
    case::<&str>("&str", "");
    case::<&str>("&str", "hello");
    case::<&str>("&str", "world!");
    case::<&str>("&str", "🦀");
    case::<&str>("&str", "with\nnewline");
    case::<&str>("&str", "with\ttab");
    case::<&str>("&str", "with spaces");
    case::<&str>("&str", "special chars: !@#$%^&*()");
    case::<&str>("&str", r#"raw string with "quotes""#);

    // &[u8] slices
    case::<&[u8]>("&[u8]", &[]);
    case::<&[u8]>("&[u8]", &[0]);
    case::<&[u8]>("&[u8]", &[255]);
    case::<&[u8]>("&[u8]", &[1, 2, 3, 4, 5]);
    case::<&[u8]>("&[u8]", &[0, 255, 128, 64]);
    case::<&[u8]>("&[u8]", "hello".as_bytes());
    case::<&[u8]>("&[u8]", &[b'a', b'b', b'c']);
    case::<&[u8]>("&[u8]", &[0u8; 10]);
    case::<&[u8]>("&[u8]", &[255; 5]);

    // Strings
    case::<String>("String", String::new());
    case::<String>("String", String::from(""));
    case::<String>("String", String::from("hello"));
    case::<String>("String", String::from("🦀 Rust 🦀"));
    case::<String>("String", String::from("multi\nline\nstring"));
    case::<String>("String", String::from("with\ttabs"));
    case::<String>("String", String::from("with spaces and punctuation!"));
    case::<String>("String", "to_string".to_string());
    case::<String>("String", format!("formatted: {}", 42));

    // Mixed complex types
    case::<Vec<Option<(i32, String)>>>("Vec<Option<(i32,String)>>", vec![
        Some((1, String::from("a"))),
        None,
        Some((2, String::from("b"))),
    ]);
    case::<Option<Vec<&str>>>("Option<Vec<&str>>", Some(vec!["a", "b", "c"]));
    case::<Option<Vec<&str>>>("Option<Vec<&str>>", None);
    case::<(&str, Vec<u8>, Option<i32>)>("(&str,Vec<u8>,Option<i32>)", ("test", vec![1, 2, 3], Some(42)));

    // Bytes in different forms
    case::<Vec<u8>>("Vec<u8>", vec![72, 101, 108, 108, 111]);
    case::<&[u8]>("&[u8]", b"Hello World");
    case::<String>("String", String::from_utf8(vec![72, 101, 108, 108, 111]).unwrap());

    // Edge cases
    case::<(Vec<i32>, Option<Vec<i32>>, &str)>("(Vec<i32>,Option<Vec<i32>>,&str)", (vec![], None, ""));
    case::<(Option<Vec<&str>>, Option<Vec<&str>>)>("(Option<Vec<&str>>,Option<Vec<&str>>)", (Some(vec![]), None));

    // Maximum/minimum values in containers
    case::<Vec<i32>>("Vec<i32>", vec![i32::MIN, 0, i32::MAX]);
    case::<Option<u64>>("Option<u64>", Some(u64::MAX));
    case::<Option<u64>>("Option<u64>", Some(u64::MIN));

    // Empty collections
    case::<Vec<String>>("Vec<String>", vec![]);
    case::<Vec<Vec<i32>>>("Vec<Vec<i32>>", vec![]);
    case::<Vec<Option<Vec<i32>>>>("Vec<Option<Vec<i32>>>", vec![]);

    // Single-element cases
    case::<Vec<i32>>("Vec<i32>", vec![42]);
    case::<Option<Vec<i32>>>("Option<Vec<i32>>", Some(vec![42]));
    case::<(i32,)>("(i32,)", (42,));
    case::<&str>("&str", "x");

    // Large collections
    case::<Vec<i32>>("Vec<i32>", (0..1000).collect());
    case::<String>("String", "a".repeat(1000));

    // Unicode edge cases
    case::<&str>("&str", "é");
    case::<&str>("&str", "😀");
    case::<&str>("&str", "a̐");

    // Null bytes
    case::<Vec<u8>>("Vec<u8>", vec![0, 1, 0, 2, 0]);
    case::<&[u8]>("&[u8]", &[0, b'a', 0, b'b', 0]);

    // Boolean vectors
    case::<Vec<bool>>("Vec<bool>", vec![true, false, true, false, true]);
    case::<Option<Vec<bool>>>("Option<Vec<bool>>", Some(vec![true, false]));

    // Mixed with references
    case::<(&str, &[u8])>("(&str,&[u8])", ("test", &[1, 2, 3]));
    case::<Vec<&str>>("Vec<&str>", vec!["a", "bc", "def"]);
}

#[test]
fn test_ordering() {
    // Integer comparisons
    // i8
    order_case::<i8>("i8", 0, 2);
    order_case::<i8>("i8", -128, -127);
    order_case::<i8>("i8", 127, 126);
    order_case::<i8>("i8", 0, -1);
    order_case::<i8>("i8", 100, 100);
    order_case::<i8>("i8", -100, 100);

    // i16
    order_case::<i16>("i16", -32768, -32767);
    order_case::<i16>("i16", 32767, 32766);
    order_case::<i16>("i16", 0, 1000);
    order_case::<i16>("i16", -1000, 1000);
    order_case::<i16>("i16", 0, -1000);

    // i32
    order_case::<i32>("i32", -2147483648, -2147483647);
    order_case::<i32>("i32", 2147483647, 2147483646);
    order_case::<i32>("i32", 0, 1000000);
    order_case::<i32>("i32", -1000000, 1000000);
    order_case::<i32>("i32", 0, -1000000);

    // i64
    order_case::<i64>("i64", -9223372036854775808, -9223372036854775807);
    order_case::<i64>("i64", 9223372036854775807, 9223372036854775806);
    order_case::<i64>("i64", 0, 1000000000000);
    order_case::<i64>("i64", -1000000000000, 1000000000000);

    // i128
    order_case::<i128>(
        "i128",
        -170141183460469231731687303715884105728,
        -170141183460469231731687303715884105727,
    );
    order_case::<i128>(
        "i128",
        170141183460469231731687303715884105727,
        170141183460469231731687303715884105726,
    );

    // u8
    order_case::<u8>("u8", 0, 1);
    order_case::<u8>("u8", 255, 254);
    order_case::<u8>("u8", 100, 100);
    order_case::<u8>("u8", 0, 255);

    // u16
    order_case::<u16>("u16", 0, 65535);
    order_case::<u16>("u16", 65535, 65534);
    order_case::<u16>("u16", 1000, 2000);

    // u32
    order_case::<u32>("u32", 0, 4294967295);
    order_case::<u32>("u32", 4294967295, 4294967294);
    order_case::<u32>("u32", 1000000, 2000000);

    // u64
    order_case::<u64>("u64", 0, 18446744073709551615);
    order_case::<u64>("u64", 18446744073709551615, 18446744073709551614);

    // Boolean comparisons
    order_case::<bool>("bool", false, true);
    order_case::<bool>("bool", true, false);
    order_case::<bool>("bool", false, false);
    order_case::<bool>("bool", true, true);

    // Character comparisons
    order_case::<char>("char", 'a', 'b');
    order_case::<char>("char", 'a', 'A');
    order_case::<char>("char", 'z', 'a');
    order_case::<char>("char", '0', '9');
    order_case::<char>("char", ' ', 'a');
    order_case::<char>("char", '🦀', 'a');
    order_case::<char>("char", '😀', '😃');
    order_case::<char>("char", '\0', 'a');
    order_case::<char>("char", '\n', ' ');
    order_case::<char>("char", char::MAX, 'a');
    order_case::<char>("char", 'α', 'β');

    // &str comparisons
    order_case::<&str>("&str", "a", "b");
    order_case::<&str>("&str", "abc", "abd");
    order_case::<&str>("&str", "abc", "abcd");
    order_case::<&str>("&str", "", "a");
    order_case::<&str>("&str", "hello", "world");
    order_case::<&str>("&str", "Hello", "hello");
    order_case::<&str>("&str", "123", "124");
    order_case::<&str>("&str", "🦀", "🐢");
    order_case::<&str>("&str", "αβγ", "αβδ");
    order_case::<&str>("&str", "a\nb", "a\rb");

    // String comparisons
    order_case::<String>("String", String::from("a"), String::from("b"));
    order_case::<String>("String", String::from(""), String::from("a"));
    order_case::<String>("String", String::from("hello"), String::from("world"));
    order_case::<String>("String", String::from("abc"), String::from("abc"));

    // 2-tuples
    order_case::<(i32, i32)>("(i32,i32)", (1, 2), (1, 3));
    order_case::<(i32, i32)>("(i32,i32)", (1, 2), (2, 1));
    order_case::<(i32, i32)>("(i32,i32)", (1, 2), (1, 2));
    order_case::<(i32, &str)>("(i32,&str)", (1, "a"), (1, "b"));
    order_case::<(i32, &str)>("(i32,&str)", (2, "a"), (1, "z"));

    // 3-tuples
    order_case::<(i32, i32, i32)>("(i32,i32,i32)", (1, 2, 3), (1, 2, 4));
    order_case::<(i32, i32, i32)>("(i32,i32,i32)", (1, 2, 3), (1, 3, 1));

    // Mixed type tuples
    order_case::<(bool, i32, &str)>("(bool,i32,&str)", (true, 1, "a"), (false, 100, "z"));
    order_case::<(bool, i32, &str)>("(bool,i32,&str)", (true, 1, "a"), (true, 1, "b"));

    // Nested tuples
    order_case::<((i32, i32), i32)>("((i32,i32),i32)", ((1, 2), 3), ((1, 2), 4));
    order_case::<((i32, i32), i32)>("((i32,i32),i32)", ((1, 2), 3), ((1, 3), 1));

    // Simple Options
    order_case::<Option<i32>>("Option<i32>", Some(1), Some(2));
    order_case::<Option<i32>>("Option<i32>", Some(1), None);
    order_case::<Option<i32>>("Option<i32>", None, Some(1));
    order_case::<Option<i32>>("Option<i32>", None, None);
    order_case::<Option<i32>>("Option<i32>", Some(1), Some(1));

    // Option with other types
    order_case::<Option<&str>>("Option<&str>", Some("a"), Some("b"));
    order_case::<Option<&str>>("Option<&str>", Some("a"), None);
    order_case::<Option<bool>>("Option<bool>", Some(true), Some(false));

    // Array comparisons
    order_case::<[i32; 3]>("[i32;3]", [1, 2, 3], [1, 2, 4]);
    order_case::<[i32; 3]>("[i32;3]", [1, 2, 3], [1, 3, 2]);
    order_case::<[i32; 0]>("[i32;0]", [], []);
    order_case::<[i32; 2]>("[i32;2]", [1, 2], [1, 2]);
    order_case::<[char; 2]>("[char;2]", ['a', 'b'], ['a', 'c']);

    // Slice comparisons
    order_case::<&[u8]>("&[u8]", b"abc", b"abd");
    order_case::<&[u8]>("&[u8]", &[1, 2, 3], &[1, 2]);

    // Byte comparisons
    order_case::<u8>("u8", b'a', b'b');
    order_case::<u8>("u8", 0, 255);
    order_case::<&[u8]>("&[u8]", &[0, 1, 2], &[0, 1, 3]);

    // Comparing with min/max
    order_case::<i8>("i8", i8::MIN, i8::MAX);
    order_case::<u8>("u8", u8::MIN, u8::MAX);
    order_case::<i64>("i64", i64::MIN, i64::MAX);
    order_case::<u64>("u64", u64::MIN, u64::MAX);
    order_case::<i128>("i128", i128::MIN, i128::MAX);
    order_case::<u128>("u128", u128::MIN, u128::MAX);

    // Nested tuples and Options
    order_case::<(Option<i32>, (i32, &str))>(
        "(Option<i32>,(i32,&str))",
        (Some(1), (2, "a")),
        (None, (2, "a")),
    );
    order_case::<(Option<i32>, (i32, &str))>(
        "(Option<i32>,(i32,&str))",
        (Some(2), (2, "a")),
        (None, (2, "a")),
    );
    order_case::<(Option<i32>, (i32, &str))>(
        "(Option<i32>,(i32,&str))",
        (Some(1), (2, "a")),
        (Some(1), (2, "b")),
    );
    order_case::<(Option<i32>, (i32, &str))>(
        "(Option<i32>,(i32,&str))",
        (Some(2), (2, "a")),
        (Some(1), (2, "b")),
    );
}

type Basic = (u64, String, bool, f64, Vec<String>);
type Nested = (Basic, u64, Option<String>);
type User = (u64, String, Vec<String>);
type Point = ((f64, f64, f64), String);
type Config = (u32, bool);
type Complex = (Basic, Option<Nested>, Vec<Basic>);
type DateTimeExample = (u64, String, bool);
type NetworkConfig = (String, u16, bool, Vec<(String, String)>, Option<u32>);

const BASIC: &str = "Basic {id: u64, name: String, active: bool, price: f64, tags: Vec<String>}";
const NESTED: &str = "Nested {data: Basic {id: u64, name: String, active: bool, price: f64, tags: Vec<String>}, count: u64, metadata: Option<String>}";
const USER: &str = "User {id: u64, username: String, permissions: Vec<String>}";
const POINT: &str = "Point {coordinates: (f64,f64,f64), name: String}";
const CONFIG: &str = "Config {version: u32, enabled: bool}";
const COMPLEX: &str = "Complex {primary: Basic {id: u64, name: String, active: bool, price: f64, tags: Vec<String>}, optional: Option<Nested {data: Basic {id: u64, name: String, active: bool, price: f64, tags: Vec<String>}, count: u64, metadata: Option<String>}>, children: Vec<Basic {id: u64, name: String, active: bool, price: f64, tags: Vec<String>}>}";
const DATE_TIME_EXAMPLE: &str = "DateTimeExample {timestamp: u64, date_string: String, is_utc: bool}";
const NETWORK_CONFIG: &str = "NetworkConfig {host: String, port: u16, ssl: bool, headers: Vec<(String,String)>, timeout_ms: Option<u32>}";

fn json<T: serde::Serialize>(v: T) -> serde_json::Value {
    serde_json::to_value(v).unwrap()
}

fn object(fields: Vec<(&str, serde_json::Value)>) -> serde_json::Value {
    let mut map = serde_json::Map::new();
    for (name, value) in fields {
        map.insert(name.to_string(), value);
    }
    serde_json::Value::Object(map)
}

fn basic(id: u64, name: &str, active: bool, price: f64, tags: Vec<&str>) -> Basic {
    (id, name.to_string(), active, price, tags.into_iter().map(String::from).collect())
}

fn basic_json(b: &Basic) -> serde_json::Value {
    object(vec![
        ("id", json(b.0)),
        ("name", json(&b.1)),
        ("active", json(b.2)),
        ("price", json(b.3)),
        ("tags", json(&b.4)),
    ])
}

fn nested_json(n: &Nested) -> serde_json::Value {
    object(vec![("data", basic_json(&n.0)), ("count", json(n.1)), ("metadata", json(&n.2))])
}

fn user_json(u: &User) -> serde_json::Value {
    object(vec![("id", json(u.0)), ("username", json(&u.1)), ("permissions", json(&u.2))])
}

fn point_json(p: &Point) -> serde_json::Value {
    object(vec![("coordinates", json(p.0)), ("name", json(&p.1))])
}

fn config_json(c: &Config) -> serde_json::Value {
    object(vec![("version", json(c.0)), ("enabled", json(c.1))])
}

fn complex_json(c: &Complex) -> serde_json::Value {
    object(vec![
        ("primary", basic_json(&c.0)),
        (
            "optional",
            match &c.1 {
                Some(n) => nested_json(n),
                None => serde_json::Value::Null,
            },
        ),
        ("children", serde_json::Value::Array(c.2.iter().map(basic_json).collect())),
    ])
}

fn date_time_json(d: &DateTimeExample) -> serde_json::Value {
    object(vec![("timestamp", json(d.0)), ("date_string", json(&d.1)), ("is_utc", json(d.2))])
}

fn network_json(n: &NetworkConfig) -> serde_json::Value {
    object(vec![
        ("host", json(&n.0)),
        ("port", json(n.1)),
        ("ssl", json(n.2)),
        ("headers", json(&n.3)),
        ("timeout_ms", json(n.4)),
    ])
}

/// One struct of the engine, written as the tuple of its fields: the
/// engine lays both out alike.
fn struct_case<T>(name: &str, v: &T::SelfType<'static>, json: serde_json::Value)
where
    T: redb::Value + 'static,
{
    let width = T::fixed_width();
    let buf = T::as_bytes(v);
    round_trip(name, width, buf.as_ref(), &json);
}

#[test]
fn test_structs() {
    // Basic struct tests
    let basic_empty_tags = basic(1, "Test", true, 99.99, vec![]);
    struct_case::<Basic>(BASIC, &basic_empty_tags, basic_json(&basic_empty_tags));

    let basic_with_tags = basic(2, "Product", false, 0.0, vec!["new", "sale", "featured"]);
    struct_case::<Basic>(BASIC, &basic_with_tags, basic_json(&basic_with_tags));

    let basic_max_values = basic(u64::MAX, &"A".repeat(1000), true, f64::MAX, vec![]);
    struct_case::<Basic>(BASIC, &basic_max_values, basic_json(&basic_max_values));

    let basic_min_values = basic(0, "", false, f64::MIN, vec![""]);
    struct_case::<Basic>(BASIC, &basic_min_values, basic_json(&basic_min_values));

    // Nested struct tests
    let nested_with_data: Nested = (basic_with_tags.clone(), 42, Some("extra info".into()));
    struct_case::<Nested>(NESTED, &nested_with_data, nested_json(&nested_with_data));

    let nested_without_metadata: Nested = (basic_empty_tags.clone(), 0, None);
    struct_case::<Nested>(NESTED, &nested_without_metadata, nested_json(&nested_without_metadata));

    // User tests
    let user_active: User = (1001, "admin".into(), vec!["read".into(), "write".into(), "delete".into()]);
    struct_case::<User>(USER, &user_active, user_json(&user_active));

    let user_inactive: User = (1002, "guest".into(), vec![]);
    struct_case::<User>(USER, &user_inactive, user_json(&user_inactive));

    let user_suspended: User = (1003, "".into(), vec!["read".into()]);
    struct_case::<User>(USER, &user_suspended, user_json(&user_suspended));

    // Point with tuple tests
    let point_origin: Point = ((0.0, 0.0, 0.0), "Origin".into());
    struct_case::<Point>(POINT, &point_origin, point_json(&point_origin));

    let point_3d: Point = ((1.5, -2.3, 100.0), "Location".into());
    struct_case::<Point>(POINT, &point_3d, point_json(&point_3d));

    let config_empty: Config = (1, true);
    struct_case::<Config>(CONFIG, &config_empty, config_json(&config_empty));

    let config_full: Config = (2, false);
    struct_case::<Config>(CONFIG, &config_full, config_json(&config_full));

    // Complex nested tests
    let complex_with_all: Complex = (
        basic_with_tags.clone(),
        Some(nested_with_data.clone()),
        vec![basic_empty_tags.clone(), basic_with_tags.clone()],
    );
    struct_case::<Complex>(COMPLEX, &complex_with_all, complex_json(&complex_with_all));

    let complex_without_optional: Complex = (basic_empty_tags.clone(), None, vec![]);
    struct_case::<Complex>(COMPLEX, &complex_without_optional, complex_json(&complex_without_optional));

    // Edge cases
    let basic_special_chars =
        basic(999, "Test\n\t\"quotes\"\u{2764}", true, 3.14159, vec!["tag1", "tag with spaces"]);
    struct_case::<Basic>(BASIC, &basic_special_chars, basic_json(&basic_special_chars));

    // Large collections
    let basic_large_vec: Basic =
        (1000, "Large".into(), true, 0.0, (0..1000).map(|i| format!("tag_{}", i)).collect());
    struct_case::<Basic>(BASIC, &basic_large_vec, basic_json(&basic_large_vec));

    // Optional fields variations
    let nested_some_none_mix: Nested = (basic(3, "Mixed", false, 0.0, vec![]), u64::MAX, None);
    struct_case::<Nested>(NESTED, &nested_some_none_mix, nested_json(&nested_some_none_mix));

    // Empty string edge cases
    let all_empty = basic(0, "", false, 0.0, vec![""]);
    struct_case::<Basic>(BASIC, &all_empty, basic_json(&all_empty));

    let datetime_example: DateTimeExample = (1672531200, "2023-01-01T00:00:00Z".into(), true);
    struct_case::<DateTimeExample>(DATE_TIME_EXAMPLE, &datetime_example, date_time_json(&datetime_example));

    let network_config: NetworkConfig = (
        "localhost".into(),
        8080,
        false,
        vec![
            ("Content-Type".into(), "application/json".into()),
            ("Authorization".into(), "Bearer token".into()),
        ],
        Some(5000),
    );
    struct_case::<NetworkConfig>(NETWORK_CONFIG, &network_config, network_json(&network_config));

    let network_config_no_timeout: NetworkConfig = ("example.com".into(), 443, true, vec![], None);
    struct_case::<NetworkConfig>(
        NETWORK_CONFIG,
        &network_config_no_timeout,
        network_json(&network_config_no_timeout),
    );
}
