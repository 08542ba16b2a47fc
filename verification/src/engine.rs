//! What the library asks of the storage engine: how it lays out a `char`.

use vstd::prelude::*;
use crate::le::{le_bytes, le_value};

verus! {

/// The width in bytes of the engine's `char`.
pub open spec fn char_width() -> nat {
    3
}

/// Whether `n` is a Unicode scalar value.
pub open spec fn is_scalar_value(n: nat) -> bool {
    n <= 0xD7FF || 0xE000 <= n <= 0x10FFFF
}

/// Calls `<char as redb::Value>::fixed_width`. The engine stores a `char` in
/// three bytes and says so; nothing here checks that it does.
#[verifier::external_body]
pub(crate) fn char_fixed_width() -> (r: Option<usize>)
    ensures
        r == Some(3usize),
{
    <char as redb::Value>::fixed_width()
}

/// Calls `<char as redb::Value>::as_bytes`. The engine writes the three low
/// bytes of the code point, least significant first.
#[verifier::external_body]
pub(crate) fn char_as_bytes(c: char) -> (r: Vec<u8>)
    ensures
        r@ == le_bytes((c as u32) as nat, 3),
{
    <char as redb::Value>::as_bytes(&c).to_vec()
}

/// Calls `<char as redb::Value>::from_bytes`. The engine reads the first
/// three bytes as a little-endian code point, and panics unless there are
/// three and they hold a scalar value.
#[verifier::external_body]
pub(crate) fn char_from_bytes(data: &[u8]) -> (c: char)
    requires
        data@.len() >= 3,
        is_scalar_value(le_value(data@.subrange(0, 3))),
    ensures
        (c as u32) as nat == le_value(data@.subrange(0, 3)),
{
    <char as redb::Value>::from_bytes(data)
}

} // verus!
