//! What is shown at the end of a run.

use vstd::prelude::*;
use crate::cli::CliArgs;

verus! {

/// What of the collected results is shown.
#[derive(Clone, Copy, Debug, PartialEq, Eq)]
pub enum Shown {
    /// Nothing.
    Nothing,
    /// The types of the tables.
    List,
    /// The statistics of the tables.
    Stats,
    /// The entries of all tables.
    All,
    /// The entries of the table that was asked for.
    Table,
    /// What the key that was asked for has.
    Entry,
}

/// How the results are shown.
#[derive(Clone, Copy, Debug, PartialEq, Eq)]
pub struct Rendering {
    pub shown: Shown,
    /// As JSON, or as lines of text.
    pub json: bool,
    /// With the name of each table above its entries.
    pub headings: bool,
    /// With the key in front of each value.
    pub keys: bool,
}

/// What the arguments `args` ask to see.
pub open spec fn shown(args: CliArgs) -> Shown {
    if args.delete || args.remove {
        Shown::Nothing
    } else if args.list {
        Shown::List
    } else if args.stats {
        Shown::Stats
    } else if args.table is None {
        Shown::All
    } else if args.key is None {
        Shown::Table
    } else if args.value is None {
        Shown::Entry
    } else if args.json {
        Shown::Nothing
    } else {
        Shown::Entry
    }
}

/// How the results of a run with the arguments `args` are shown.
pub fn rendering(args: &CliArgs) -> (r: Rendering)
    ensures
        r.shown == shown(*args),
        r.json == args.json,
        r.headings == (!args.json && args.table is None),
        r.keys == (!args.json && args.key is None),
{
    let shown = if args.delete || args.remove {
        Shown::Nothing
    } else if args.list {
        Shown::List
    } else if args.stats {
        Shown::Stats
    } else if args.table.is_none() {
        Shown::All
    } else if args.key.is_none() {
        Shown::Table
    } else if args.value.is_none() {
        Shown::Entry
    } else if args.json {
        Shown::Nothing
    } else {
        Shown::Entry
    };
    Rendering {
        shown,
        json: args.json,
        headings: !args.json && args.table.is_none(),
        keys: !args.json && args.key.is_none(),
    }
}

} // verus!
