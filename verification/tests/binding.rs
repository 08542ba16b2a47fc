//! The binding of a table to its schema.

use redb_cli::binding::{codec_of, Action, Discovery, Fault, Outcome, Phase, MAX_ATTEMPTS};
use redb_cli::descriptor::parse_tree;
use redb_cli::error::ParseError;

/// Takes one answer of the engine, and says what is to be done next.
fn step(d: &mut Discovery, outcome: Outcome) -> Action {
    let (next, action) = std::mem::replace(d, Discovery::new(false, false)).step(outcome);
    *d = next;
    action
}

fn names(key: &str, value: &str) -> Outcome {
    Outcome::NameMismatch { key: key.to_string(), value: value.to_string() }
}

fn width(name: &str, width: Option<usize>) -> Outcome {
    Outcome::WidthMismatch { name: name.to_string(), width }
}

#[test]
fn at_the_start_both_types_are_text() {
    let d = Discovery::new(false, false);
    assert_eq!(d.phase(), Phase::Assumed);
    assert_eq!(d.fault(), None);
    assert_eq!(d.attempts(), 0);
    assert_eq!(d.key().name, "String");
    assert_eq!(d.key().width, None);
    assert_eq!(d.value().name, "String");
    assert_eq!(d.value().width, None);
    assert_eq!(MAX_ATTEMPTS, 5);
}

#[test]
fn a_table_of_text_opens_at_once() {
    let mut d = Discovery::new(false, false);
    assert_eq!(step(&mut d, Outcome::Opened), Action::Done);
    assert_eq!(d.phase(), Phase::Bound);
    assert_eq!(d.attempts(), 1);
    let (k, v) = d.adapters().unwrap();
    assert!(k.encde().is_raw());
    assert!(v.encde().is_raw());
    assert_eq!(k.descriptor(), "String");
}

#[test]
fn names_then_widths_then_open() {
    let mut d = Discovery::new(false, false);
    assert_eq!(step(&mut d, names("u32", "(u8,u16)")), Action::Open);
    assert_eq!(d.phase(), Phase::Probing);
    assert_eq!((d.key().name.as_str(), d.key().width), ("u32", None));
    assert_eq!((d.value().name.as_str(), d.value().width), ("(u8,u16)", None));

    assert_eq!(step(&mut d, width("u32", Some(4))), Action::Open);
    assert_eq!(d.phase(), Phase::Probing);
    assert_eq!((d.key().name.as_str(), d.key().width), ("u32", Some(4)));
    assert_eq!((d.value().name.as_str(), d.value().width), ("(u8,u16)", None));

    assert_eq!(step(&mut d, width("(u8,u16)", Some(3))), Action::Open);
    assert_eq!(d.phase(), Phase::Probing);
    assert_eq!((d.key().name.as_str(), d.key().width), ("u32", Some(4)));
    assert_eq!((d.value().name.as_str(), d.value().width), ("(u8,u16)", Some(3)));

    assert_eq!(step(&mut d, Outcome::Opened), Action::Done);
    assert_eq!(d.phase(), Phase::Bound);
    assert_eq!(d.fault(), None);
    assert_eq!(d.attempts(), 4);
    assert!(d.attempts() <= MAX_ATTEMPTS);
    assert!(!d.read_only(false));

    let (k, v) = d.adapters().unwrap();
    assert_eq!(k.descriptor(), "u32");
    assert_eq!(k.fixed_width(), Some(4));
    assert_eq!(k.encde().type_tree(), Some(&parse_tree("u32").unwrap()));
    assert_eq!(v.descriptor(), "(u8,u16)");
    assert_eq!(v.fixed_width(), Some(3));
    assert_eq!(v.encde().type_tree(), Some(&parse_tree("(u8,u16)").unwrap()));
}

#[test]
fn one_width_for_both_types_of_one_name() {
    let mut d = Discovery::new(false, false);
    assert_eq!(step(&mut d, names("u64", "u64")), Action::Open);
    assert_eq!(step(&mut d, width("u64", Some(8))), Action::Open);
    assert_eq!(d.key().width, Some(8));
    assert_eq!(d.value().width, Some(8));
    assert_eq!(step(&mut d, Outcome::Opened), Action::Done);
    assert_eq!(d.phase(), Phase::Bound);
    assert_eq!(d.attempts(), 3);
}

#[test]
fn a_width_of_another_name_teaches_nothing() {
    let mut d = Discovery::new(false, false);
    assert_eq!(step(&mut d, names("u8", "u16")), Action::Open);
    assert_eq!(step(&mut d, width("u32", Some(4))), Action::Open);
    assert_eq!(d.key().width, None);
    assert_eq!(d.value().width, None);
    assert_eq!(d.attempts(), 2);
}

#[test]
fn the_fifth_failed_attempt_is_the_last() {
    let mut d = Discovery::new(false, false);
    for i in 1..MAX_ATTEMPTS {
        assert_eq!(step(&mut d, width("nothing", None)), Action::Open);
        assert_eq!(d.phase(), Phase::Probing);
        assert_eq!(d.attempts(), i);
    }
    assert_eq!(step(&mut d, width("nothing", None)), Action::Done);
    assert_eq!(d.phase(), Phase::Failed);
    assert_eq!(d.fault(), Some(Fault::Exhausted));
    assert_eq!(d.attempts(), MAX_ATTEMPTS);
    assert!(d.adapters().is_none());
}

#[test]
fn the_fifth_attempt_may_open_the_table() {
    let mut d = Discovery::new(false, false);
    for _ in 1..MAX_ATTEMPTS {
        assert_eq!(step(&mut d, names("u8", "u8")), Action::Open);
    }
    assert_eq!(step(&mut d, Outcome::Opened), Action::Done);
    assert_eq!(d.phase(), Phase::Bound);
    assert_eq!(d.attempts(), MAX_ATTEMPTS);
}

#[test]
fn an_unknown_type_falls_back_to_raw_bytes() {
    let mut d = Discovery::new(false, false);
    assert_eq!(step(&mut d, names("Uuid", "u32")), Action::Open);
    assert_eq!(step(&mut d, width("Uuid", Some(16))), Action::Open);
    assert_eq!(step(&mut d, Outcome::Opened), Action::Done);
    assert_eq!(d.phase(), Phase::Fallback);
    assert_eq!(d.fault(), None);
    assert!(d.read_only(false));
    assert!(!d.read_only(true));
    let (k, v) = d.adapters().unwrap();
    assert!(k.encde().is_raw());
    assert_eq!(k.fixed_width(), Some(16));
    assert_eq!(k.descriptor(), "Uuid");
    assert_eq!(v.encde().type_tree(), Some(&parse_tree("u32").unwrap()));

    for value in ["Thing", "my_crate::Thing", "Pair(u8, u8)"] {
        let mut d = Discovery::new(false, false);
        assert_eq!(step(&mut d, names("u32", value)), Action::Open);
        assert_eq!(step(&mut d, Outcome::Opened), Action::Done);
        assert_eq!(d.phase(), Phase::Fallback, "{value}");
    }
}

#[test]
fn a_name_that_is_no_descriptor_is_fatal() {
    for name in ["(u8", "[u8]", "u8>"] {
        let mut d = Discovery::new(false, false);
        assert_eq!(step(&mut d, names("u32", name)), Action::Open);
        assert_eq!(step(&mut d, Outcome::Opened), Action::Done);
        assert_eq!(d.phase(), Phase::Failed, "{name}");
        assert_eq!(d.fault(), Some(Fault::Descriptor), "{name}");

        let mut d = Discovery::new(false, false);
        assert_eq!(step(&mut d, names(name, "Thing")), Action::Open);
        assert_eq!(step(&mut d, Outcome::Opened), Action::Done);
        assert_eq!(d.fault(), Some(Fault::Descriptor), "{name}");
    }
}

#[test]
fn a_key_without_an_order_is_refused() {
    for key in ["f64", "Point {x: u8}", "(u8,f32)"] {
        let mut d = Discovery::new(false, false);
        assert_eq!(step(&mut d, names(key, "u8")), Action::Open);
        assert_eq!(step(&mut d, Outcome::Opened), Action::Done);
        assert_eq!(d.phase(), Phase::Failed, "{key}");
        assert_eq!(d.fault(), Some(Fault::Unorderable), "{key}");
        assert!(d.adapters().is_none());
    }
}

#[test]
fn a_value_needs_an_order_only_where_a_key_has_several() {
    let mut d = Discovery::new(false, false);
    assert_eq!(step(&mut d, names("u8", "f64")), Action::Open);
    assert_eq!(step(&mut d, Outcome::Opened), Action::Done);
    assert_eq!(d.phase(), Phase::Bound);

    let mut d = Discovery::new(false, true);
    assert_eq!(step(&mut d, names("u8", "f64")), Action::Open);
    assert_eq!(step(&mut d, Outcome::Opened), Action::Done);
    assert_eq!(d.phase(), Phase::Failed);
    assert_eq!(d.fault(), Some(Fault::Unorderable));
}

#[test]
fn a_missing_table() {
    let mut d = Discovery::new(false, false);
    assert_eq!(step(&mut d, Outcome::NotFound), Action::Done);
    assert_eq!(d.phase(), Phase::Failed);
    assert_eq!(d.fault(), Some(Fault::NotFound));

    let mut d = Discovery::new(true, false);
    assert_eq!(step(&mut d, Outcome::NotFound), Action::Create);
    assert_eq!(d.phase(), Phase::Probing);
    assert_eq!(d.attempts(), 1);
    assert_eq!(step(&mut d, Outcome::Opened), Action::Done);
    assert_eq!(d.phase(), Phase::Bound);
    assert_eq!(d.attempts(), 2);
}

#[test]
fn any_other_answer_ends_the_binding() {
    let mut d = Discovery::new(true, false);
    assert_eq!(step(&mut d, Outcome::Other), Action::Done);
    assert_eq!(d.phase(), Phase::Failed);
    assert_eq!(d.fault(), Some(Fault::Engine));
    // and nothing moves it any more
    assert_eq!(step(&mut d, Outcome::Opened), Action::Done);
    assert_eq!(d.phase(), Phase::Failed);
    assert_eq!(d.fault(), Some(Fault::Engine));
    assert_eq!(d.attempts(), 0);
}

#[test]
fn a_given_schema() {
    let mut d = Discovery::with_schema("(u8,u16)", "String", false, false).ok().unwrap();
    assert_eq!(d.phase(), Phase::Assumed);
    assert_eq!((d.key().name.as_str(), d.key().width), ("(u8,u16)", Some(3)));
    assert_eq!((d.value().name.as_str(), d.value().width), ("String", None));
    assert_eq!(step(&mut d, Outcome::Opened), Action::Done);
    assert_eq!(d.phase(), Phase::Bound);

    // the engine's word against a given schema is an error
    let mut d = Discovery::with_schema("u8", "u8", false, false).ok().unwrap();
    assert_eq!(step(&mut d, names("u16", "u16")), Action::Done);
    assert_eq!(d.phase(), Phase::Failed);
    assert_eq!(d.fault(), Some(Fault::Mismatch));
    assert_eq!(d.key().name, "u8");

    let mut d = Discovery::with_schema("u8", "u8", false, false).ok().unwrap();
    assert_eq!(step(&mut d, width("u8", Some(2))), Action::Done);
    assert_eq!(d.fault(), Some(Fault::Mismatch));
    assert_eq!(d.key().width, Some(1));

    assert_eq!(Discovery::with_schema("Thing", "u8", false, false).err(), Some(ParseError::UnknownType));
    assert_eq!(Discovery::with_schema("u8", "(u8", false, false).err(), Some(ParseError::Syntax));
    assert_eq!(Discovery::with_schema("(", "Thing", false, false).err(), Some(ParseError::Syntax));
}

#[test]
fn the_codec_of_a_name() {
    assert!(codec_of("String").is_raw());
    assert!(codec_of("Thing").is_raw());
    assert!(codec_of("((").is_raw());
    assert_eq!(codec_of("u8").type_tree(), Some(&parse_tree("u8").unwrap()));
}
