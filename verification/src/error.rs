//! The errors of the library.

use vstd::prelude::*;

verus! {

/// Why a descriptor could not be parsed.
#[derive(Clone, Copy, Debug, PartialEq, Eq)]
pub enum ParseError {
    /// The descriptor names a type that the library does not know. A caller
    /// may treat the type as opaque.
    UnknownType,
    /// The descriptor is not in the grammar, or describes a type whose
    /// width no `usize` holds.
    Syntax,
}

/// Why a value could not be encoded.
#[derive(Clone, Copy, Debug, PartialEq, Eq)]
pub enum EncodeError {
    /// The value has not the shape of the type.
    TypeError,
    /// A number does not fit the width that the type or the framing gives it.
    RangeError,
}

/// Why bytes could not be decoded.
#[derive(Clone, Copy, Debug, PartialEq, Eq)]
pub enum DecodeError {
    /// The bytes end before the value does.
    TruncatedInput,
    /// The bytes hold what no value of the type is written as.
    CorruptData,
}

/// Why a value could not be read or written under a descriptor.
#[derive(Clone, Copy, Debug, PartialEq, Eq)]
pub enum CodecError {
    /// The descriptor could not be parsed.
    Parse(ParseError),
    /// The value could not be encoded.
    Encode(EncodeError),
    /// The bytes could not be decoded.
    Decode(DecodeError),
}

} // verus!
