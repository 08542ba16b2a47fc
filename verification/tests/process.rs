//! The decisions around a table, and small tools.

use redb_cli::cli::CliArgs;
use redb_cli::print::{rendering, Rendering, Shown};
use redb_cli::process::{admit_operation, admits, find_arrow, plan, Operation, Refusal, Request};
use redb_cli::utils::{first_difference, OrElseRes};

fn args() -> CliArgs {
    CliArgs {
        file: "db.redb".to_string(),
        table: None,
        key: None,
        value: None,
        list: false,
        create: false,
        remove: false,
        delete: false,
        multimap: false,
        force: false,
        json: false,
        schema: None,
        ro: false,
        stats: false,
        check: false,
        compact: false,
    }
}

fn some(s: &str) -> Option<String> {
    Some(s.to_string())
}

#[test]
fn what_is_done_to_a_table() {
    assert_eq!(plan(&args(), false), Operation::Scan);
    assert_eq!(plan(&CliArgs { value: some("v"), ..args() }, false), Operation::Scan);
    assert_eq!(plan(&CliArgs { key: some("k"), ..args() }, false), Operation::Get);
    assert_eq!(plan(&CliArgs { key: some("k"), value: some("v"), ..args() }, false), Operation::Insert);
    assert_eq!(plan(&CliArgs { key: some("k"), remove: true, ..args() }, false), Operation::RemoveKey);
    assert_eq!(plan(&CliArgs { key: some("k"), remove: true, ..args() }, true), Operation::RemoveKey);
    assert_eq!(
        plan(&CliArgs { key: some("k"), value: some("v"), remove: true, ..args() }, false),
        Operation::RemoveKey
    );
    assert_eq!(
        plan(&CliArgs { key: some("k"), value: some("v"), remove: true, ..args() }, true),
        Operation::RemoveValue
    );
    assert_eq!(plan(&CliArgs { list: true, key: some("k"), delete: true, ..args() }, false), Operation::List);
    assert_eq!(plan(&CliArgs { delete: true, stats: true, key: some("k"), ..args() }, false), Operation::Delete);
    assert_eq!(plan(&CliArgs { stats: true, key: some("k"), value: some("v"), ..args() }, true), Operation::Stats);
}

#[test]
fn what_writes() {
    for op in [Operation::RemoveValue, Operation::RemoveKey, Operation::Insert] {
        assert!(op.is_write());
        assert_eq!(admit_operation(op, true), Err(Refusal::ReadOnly));
        assert_eq!(admit_operation(op, false), Ok(()));
    }
    for op in [Operation::List, Operation::Delete, Operation::Stats, Operation::Scan, Operation::Get] {
        assert!(!op.is_write());
        assert_eq!(admit_operation(op, true), Ok(()));
        assert_eq!(admit_operation(op, false), Ok(()));
    }
}

#[test]
fn what_a_database_admits() {
    for request in [Request::Read, Request::Write, Request::CheckIntegrity, Request::Compact] {
        assert!(admits(false, request));
    }
    assert!(admits(true, Request::Read));
    assert!(!admits(true, Request::Write));
    assert!(!admits(true, Request::CheckIntegrity));
    assert!(!admits(true, Request::Compact));
}

#[test]
fn the_arrow_of_a_schema() {
    assert_eq!(find_arrow("String -> u8"), Some(6));
    assert_eq!(find_arrow(" -> "), Some(0));
    assert_eq!(find_arrow("a -> b -> c"), Some(1));
    assert_eq!(find_arrow("é -> u8"), Some(2));
    assert_eq!(find_arrow("String->u8"), None);
    assert_eq!(find_arrow("String - > u8"), None);
    assert_eq!(find_arrow("String ->"), None);
    assert_eq!(find_arrow("->"), None);
    assert_eq!(find_arrow(""), None);
    let schema = "(u8,String) -> Vec<u8>";
    let at = find_arrow(schema).unwrap();
    assert_eq!((&schema[..at], &schema[at + 4..]), ("(u8,String)", "Vec<u8>"));
}

fn shown(args: &CliArgs) -> Shown {
    rendering(args).shown
}

#[test]
fn what_is_shown() {
    assert_eq!(shown(&args()), Shown::All);
    assert_eq!(shown(&CliArgs { delete: true, list: true, ..args() }), Shown::Nothing);
    assert_eq!(shown(&CliArgs { remove: true, stats: true, ..args() }), Shown::Nothing);
    assert_eq!(shown(&CliArgs { list: true, stats: true, ..args() }), Shown::List);
    assert_eq!(shown(&CliArgs { stats: true, table: some("t"), ..args() }), Shown::Stats);
    assert_eq!(shown(&CliArgs { key: some("k"), ..args() }), Shown::All);
    assert_eq!(shown(&CliArgs { table: some("t"), ..args() }), Shown::Table);
    assert_eq!(shown(&CliArgs { table: some("t"), value: some("v"), ..args() }), Shown::Table);
    assert_eq!(shown(&CliArgs { table: some("t"), key: some("k"), ..args() }), Shown::Entry);
    let written = CliArgs { table: some("t"), key: some("k"), value: some("v"), ..args() };
    assert_eq!(shown(&written), Shown::Entry);
    assert_eq!(shown(&CliArgs { json: true, ..written }), Shown::Nothing);
}

#[test]
fn how_it_is_shown() {
    assert_eq!(
        rendering(&args()),
        Rendering { shown: Shown::All, json: false, headings: true, keys: true }
    );
    assert_eq!(
        rendering(&CliArgs { table: some("t"), ..args() }),
        Rendering { shown: Shown::Table, json: false, headings: false, keys: true }
    );
    assert_eq!(
        rendering(&CliArgs { table: some("t"), key: some("k"), ..args() }),
        Rendering { shown: Shown::Entry, json: false, headings: false, keys: false }
    );
    assert_eq!(
        rendering(&CliArgs { json: true, ..args() }),
        Rendering { shown: Shown::All, json: true, headings: false, keys: false }
    );
}

#[test]
fn where_two_buffers_differ() {
    assert_eq!(first_difference(&[], &[]), None);
    assert_eq!(first_difference(&[1, 2, 3], &[1, 2, 3]), None);
    assert_eq!(first_difference(&[1, 2, 3], &[1, 9, 3]), Some(1));
    assert_eq!(first_difference(&[0, 2, 3], &[1, 9, 3]), Some(0));
    assert_eq!(first_difference(&[1, 2, 3], &[1, 2]), Some(2));
    assert_eq!(first_difference(&[], &[5]), Some(0));
    assert_eq!(first_difference(&[1, 2], &[1, 2, 0]), Some(2));
}

#[test]
fn a_value_or_else_what_a_computation_gives() {
    let held: Result<u8, &str> = Some(1u8).or_else_res(|| Ok(2));
    assert_eq!(held, Ok(1));
    let held: Result<u8, &str> = Some(1u8).or_else_res(|| Err("unused"));
    assert_eq!(held, Ok(1));
    let computed: Result<u8, &str> = None.or_else_res(|| Ok(2));
    assert_eq!(computed, Ok(2));
    let failed: Result<u8, &str> = None.or_else_res(|| Err("nothing"));
    assert_eq!(failed, Err("nothing"));
    let mut calls = 0;
    let _: Result<u8, ()> = Some(1u8).or_else_res(|| {
        calls += 1;
        Ok(2)
    });
    assert_eq!(calls, 0);
}
