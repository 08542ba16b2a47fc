//! What the caller asks for.

use vstd::prelude::*;

verus! {

/// The arguments of one run.
#[derive(Clone, Debug)]
pub struct CliArgs {
    /// Database file
    pub file: String,
    /// Table name
    pub table: Option<String>,
    /// Key (raw string or JSON value)
    pub key: Option<String>,
    /// Value (raw string or JSON value)
    pub value: Option<String>,
    /// List tables and types
    pub list: bool,
    /// Create database file and table
    pub create: bool,
    /// Remove key
    pub remove: bool,
    /// Delete table
    pub delete: bool,
    /// Open as multimap
    pub multimap: bool,
    /// Write to a table even where its bytes are handled raw
    pub force: bool,
    /// Output JSON
    pub json: bool,
    /// Table schema, e.g. String -> String
    pub schema: Option<String>,
    /// Open database read-only
    pub ro: bool,
    /// Show table stats
    pub stats: bool,
    /// Check integrity
    pub check: bool,
    /// Compact database
    pub compact: bool,
}

} // verus!
