//! What is done to one table: the decisions between the calls of the engine.

use vstd::prelude::*;
use vstd::utf8::encode_utf8;
use crate::cli::CliArgs;

verus! {

/// What is done to a table once it is bound.
#[derive(Clone, Copy, Debug, PartialEq, Eq)]
pub enum Operation {
    /// Its types are listed.
    List,
    /// The table is deleted.
    Delete,
    /// Its statistics are read.
    Stats,
    /// All its entries are read.
    Scan,
    /// One value of a key is removed.
    RemoveValue,
    /// A key is removed with all that it has.
    RemoveKey,
    /// What a key has is read.
    Get,
    /// An entry is written.
    Insert,
}

/// What the arguments `args` ask for on a table; `multi` says whether a
/// key of it may have several values.
pub open spec fn planned(args: CliArgs, multi: bool) -> Operation {
    if args.list {
        Operation::List
    } else if args.delete {
        Operation::Delete
    } else if args.stats {
        Operation::Stats
    } else if args.key is None {
        Operation::Scan
    } else if args.remove {
        if multi && args.value is Some {
            Operation::RemoveValue
        } else {
            Operation::RemoveKey
        }
    } else if args.value is None {
        Operation::Get
    } else {
        Operation::Insert
    }
}

/// What the arguments `args` ask for on a table.
pub fn plan(args: &CliArgs, multi: bool) -> (r: Operation)
    ensures
        r == planned(*args, multi),
{
    if args.list {
        Operation::List
    } else if args.delete {
        Operation::Delete
    } else if args.stats {
        Operation::Stats
    } else if args.key.is_none() {
        Operation::Scan
    } else if args.remove {
        if multi && args.value.is_some() {
            Operation::RemoveValue
        } else {
            Operation::RemoveKey
        }
    } else if args.value.is_none() {
        Operation::Get
    } else {
        Operation::Insert
    }
}

impl Operation {
    /// Whether the operation changes what a table holds.
    pub open spec fn writes(self) -> bool {
        self is RemoveValue || self is RemoveKey || self is Insert
    }

    /// Whether the operation changes what a table holds.
    pub fn is_write(&self) -> (r: bool)
        ensures
            r == self.writes(),
    {
        match self {
            Operation::RemoveValue | Operation::RemoveKey | Operation::Insert => true,
            _ => false,
        }
    }
}

/// Why an operation is not carried out.
#[derive(Clone, Copy, Debug, PartialEq, Eq)]
pub enum Refusal {
    /// The table is read-only, and the operation would write to it.
    ReadOnly,
}

/// Admits the operation `op` on a table that is read-only or not.
pub fn admit_operation(op: Operation, read_only: bool) -> (r: Result<(), Refusal>)
    ensures
        r is Err <==> read_only && op.writes(),
{
    if read_only && op.is_write() {
        Err(Refusal::ReadOnly)
    } else {
        Ok(())
    }
}

/// What is asked of a database.
#[derive(Clone, Copy, Debug, PartialEq, Eq)]
pub enum Request {
    /// To read from it.
    Read,
    /// To write to it.
    Write,
    /// To check its integrity.
    CheckIntegrity,
    /// To compact it.
    Compact,
}

/// Whether a database that is open read-only or not admits `request`:
/// one that is open read-only admits reading, and nothing else.
pub fn admits(read_only: bool, request: Request) -> (r: bool)
    ensures
        r == (!read_only || request is Read),
{
    match request {
        Request::Read => true,
        _ => !read_only,
    }
}

/// Whether the arrow ` -> ` stands at index `i` of `s`.
pub open spec fn arrow_at(s: Seq<u8>, i: int) -> bool {
    0 <= i && i + 4 <= s.len() && s[i] == 0x20 && s[i + 1] == 0x2D && s[i + 2] == 0x3E && s[i + 3] == 0x20
}

/// Where the first arrow ` -> ` stands in the schema `schema`, which
/// parts the descriptor of the key type from that of the value type. The
/// arrow takes four bytes.
pub fn find_arrow(schema: &str) -> (r: Option<usize>)
    ensures
        match r {
            Some(i) => arrow_at(encode_utf8(schema@), i as int) && forall|j: int|
                0 <= j < i ==> !arrow_at(encode_utf8(schema@), j),
            None => forall|j: int| !arrow_at(encode_utf8(schema@), j),
        },
{
    let s = schema.as_bytes();
    if s.len() < 4 {
        return None;
    }
    let last = s.len() - 4;
    let mut i: usize = 0;
    while i <= last
        invariant
            s@ == encode_utf8(schema@),
            s@.len() >= 4,
            last == s@.len() - 4,
            0 <= i <= last + 1,
            forall|j: int| 0 <= j < i ==> !arrow_at(s@, j),
        decreases last + 1 - i,
    {
        if s[i] == 0x20 && s[i + 1] == 0x2D && s[i + 2] == 0x3E && s[i + 3] == 0x20 {
            return Some(i);
        }
        i += 1;
    }
    None
}

} // verus!
