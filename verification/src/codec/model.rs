//! What the codec computes, as functions on mathematical values.

use vstd::prelude::*;
use vstd::utf8::{decode_utf8, encode_utf8, valid_utf8};
use crate::codec::frame::{
    array_prefix, array_prefixes, element_slices, first_err, join_elements, join_members,
    list_prefix, list_prefixes, member_prefixes, member_slices, oks, split_elements, split_members,
};
use crate::engine::{char_width, is_scalar_value};
use crate::error::{DecodeError, EncodeError};
use crate::le::{int_fits, int_of_rep, le_bytes, le_value, twos_complement};
use crate::tree::{field_widths, tuple_widths, TypeView};
use crate::value::{map_of, ValueView};
use crate::wire::{read_varint, varint};

verus! {

/// The byte that `v` stands for in a byte slice.
pub open spec fn byte_of(v: ValueView) -> Result<u8, EncodeError> {
    match v {
        ValueView::Int(n) => if 0 <= n <= 255 {
            Ok(n as u8)
        } else {
            Err(EncodeError::RangeError)
        },
        _ => Err(EncodeError::TypeError),
    }
}

/// The byte that each of `items` stands for.
pub open spec fn bytes_of(items: Seq<ValueView>) -> Seq<Result<u8, EncodeError>> {
    Seq::new(items.len(), |i: int| byte_of(items[i]))
}

/// Whether field `i` is the first of its name among `fields`.
pub open spec fn first_of_name(fields: Seq<(Seq<char>, TypeView)>, i: int) -> bool {
    forall|j: int| 0 <= j < i ==> (#[trigger] fields[j]).0 != fields[i].0
}

/// Whether `fields` has a field of the name `name`.
pub open spec fn has_field(fields: Seq<(Seq<char>, TypeView)>, name: Seq<char>) -> bool {
    exists|i: int| 0 <= i < fields.len() && (#[trigger] fields[i]).0 == name
}

/// The value that the record `m` has for field `i`: its entry of that
/// name, unless an earlier field of the same name took it; `Null` for an
/// optional field without an entry; otherwise none.
pub open spec fn field_value(fields: Seq<(Seq<char>, TypeView)>, i: int, m: Map<Seq<char>, ValueView>) -> Option<
    ValueView,
> {
    if m.contains_key(fields[i].0) && first_of_name(fields, i) {
        Some(m[fields[i].0])
    } else if fields[i].1 is Option {
        Some(ValueView::Null)
    } else {
        None
    }
}

/// Whether every entry of the record `m` is a field of `fields`.
pub open spec fn no_stray_entry(fields: Seq<(Seq<char>, TypeView)>, m: Map<Seq<char>, ValueView>) -> bool {
    forall|name: Seq<char>| m.contains_key(name) ==> has_field(fields, name)
}

/// `n` zero bytes.
pub open spec fn zeros(n: nat) -> Seq<u8> {
    Seq::new(n, |i: int| 0u8)
}

/// The bytes of the value `v` of type `t`, or why it has none.
pub open spec fn encode_spec(t: TypeView, v: ValueView) -> Result<Seq<u8>, EncodeError>
    decreases t, 0nat,
{
    match t {
        TypeView::Bool => match v {
            ValueView::Bool(b) => Ok(
                seq![if b {
                    1u8
                } else {
                    0u8
                }],
            ),
            _ => Err(EncodeError::TypeError),
        },
        TypeView::Char => match v {
            ValueView::String(s) => if s.len() == 1 {
                Ok(le_bytes((s[0] as u32) as nat, char_width()))
            } else {
                Err(EncodeError::TypeError)
            },
            _ => Err(EncodeError::TypeError),
        },
        TypeView::Int { signed, bytes } => match v {
            ValueView::Int(n) => if int_fits(n, signed, bytes) {
                Ok(le_bytes(twos_complement(n, bytes), bytes))
            } else {
                Err(EncodeError::RangeError)
            },
            _ => Err(EncodeError::TypeError),
        },
        TypeView::Float { bytes } => match v {
            ValueView::Float { bytes: held, pattern } => if held == bytes {
                Ok(le_bytes(pattern, bytes))
            } else {
                Err(EncodeError::TypeError)
            },
            _ => Err(EncodeError::TypeError),
        },
        TypeView::String => match v {
            ValueView::String(s) => Ok(encode_utf8(s)),
            _ => Err(EncodeError::TypeError),
        },
        TypeView::ByteSlice => match v {
            ValueView::Sequence(items) => match first_err(bytes_of(items)) {
                Some(e) => Err(e),
                None => Ok(oks(bytes_of(items))),
            },
            _ => Err(EncodeError::TypeError),
        },
        TypeView::Array { elem, len } => match v {
            ValueView::Sequence(items) => if items.len() != len {
                Err(EncodeError::TypeError)
            } else {
                join_elements(
                    array_prefixes(elem.width(), len),
                    encode_each(*elem, items),
                    EncodeError::RangeError,
                )
            },
            _ => Err(EncodeError::TypeError),
        },
        TypeView::Vec { elem } => match v {
            ValueView::Sequence(items) => if items.len() > u32::MAX {
                Err(EncodeError::RangeError)
            } else {
                match join_elements(
                    list_prefixes(elem.width(), items.len()),
                    encode_each(*elem, items),
                    EncodeError::RangeError,
                ) {
                    Ok(b) => Ok(varint(items.len()) + b),
                    Err(e) => Err(e),
                }
            },
            _ => Err(EncodeError::TypeError),
        },
        TypeView::Option { inner } => match v {
            ValueView::Null => Ok(
                seq![0u8] + zeros(
                    match inner.width() {
                        Some(w) => w,
                        None => 0,
                    },
                ),
            ),
            _ => match encode_spec(*inner, v) {
                Ok(b) => Ok(seq![1u8] + b),
                Err(e) => Err(e),
            },
        },
        TypeView::Tuple { elems } => match v {
            ValueView::Null => if elems.len() == 0 {
                Ok(Seq::empty())
            } else {
                Err(EncodeError::TypeError)
            },
            ValueView::Sequence(items) => if items.len() != elems.len() {
                Err(EncodeError::TypeError)
            } else {
                join_members(
                    member_prefixes(tuple_widths(elems)),
                    encode_members(elems, items),
                    EncodeError::RangeError,
                )
            },
            _ => Err(EncodeError::TypeError),
        },
        TypeView::Struct { fields, .. } => match v {
            ValueView::Record(m) => match join_members(
                member_prefixes(field_widths(fields)),
                encode_fields(fields, m),
                EncodeError::RangeError,
            ) {
                Ok(b) => if no_stray_entry(fields, m) {
                    Ok(b)
                } else {
                    Err(EncodeError::TypeError)
                },
                Err(e) => Err(e),
            },
            _ => Err(EncodeError::TypeError),
        },
    }
}

/// The bytes of each of `items` as a value of type `t`.
pub open spec fn encode_each(t: TypeView, items: Seq<ValueView>) -> Seq<Result<Seq<u8>, EncodeError>>
    decreases t, 1nat,
{
    Seq::new(items.len(), |i: int| encode_spec(t, items[i]))
}

/// The bytes of each of `items` as a value of the member type of its place.
pub open spec fn encode_members(elems: Seq<TypeView>, items: Seq<ValueView>) -> Seq<
    Result<Seq<u8>, EncodeError>,
>
    decreases elems, 1nat,
{
    Seq::new(
        elems.len(),
        |i: int|
            if 0 <= i < elems.len() {
                encode_spec(elems[i], items[i])
            } else {
                Err(EncodeError::TypeError)
            },
    )
}

/// The bytes of what the record `m` has for each of `fields`.
pub open spec fn encode_fields(fields: Seq<(Seq<char>, TypeView)>, m: Map<Seq<char>, ValueView>) -> Seq<
    Result<Seq<u8>, EncodeError>,
>
    decreases fields, 1nat,
{
    Seq::new(
        fields.len(),
        |i: int|
            if 0 <= i < fields.len() {
                match field_value(fields, i, m) {
                    Some(v) => encode_spec(fields[i].1, v),
                    None => Err(EncodeError::TypeError),
                }
            } else {
                Err(EncodeError::TypeError)
            },
    )
}

/// The values that `rs` hold, where all are `Ok`.
pub open spec fn values_of(rs: Seq<Result<(ValueView, nat), DecodeError>>) -> Seq<ValueView> {
    Seq::new(rs.len(), |i: int| rs[i]->Ok_0.0)
}

/// The entries of a record: the names of `fields`, each with the value at
/// its place in `values`.
pub open spec fn entries_of(fields: Seq<(Seq<char>, TypeView)>, values: Seq<ValueView>) -> Seq<
    (Seq<char>, ValueView),
> {
    Seq::new(fields.len(), |i: int| (fields[i].0, values[i]))
}

/// The offset behind what a split gave.
pub open spec fn end_of(split: Option<(Seq<Seq<u8>>, nat)>) -> nat {
    match split {
        Some((_, end)) => end,
        None => 0,
    }
}

/// Each byte of `b` as a number.
pub open spec fn numbers_of(b: Seq<u8>) -> Seq<ValueView> {
    Seq::new(b.len(), |i: int| ValueView::Int(b[i] as int))
}

/// The value of type `t` at the front of `b` and the number of bytes that
/// it takes, or why there is none.
pub open spec fn decode_spec(t: TypeView, b: Seq<u8>) -> Result<(ValueView, nat), DecodeError>
    decreases t, 0nat,
{
    match t {
        TypeView::Bool => if b.len() < 1 {
            Err(DecodeError::TruncatedInput)
        } else if b[0] == 0 {
            Ok((ValueView::Bool(false), 1))
        } else if b[0] == 1 {
            Ok((ValueView::Bool(true), 1))
        } else {
            Err(DecodeError::CorruptData)
        },
        TypeView::Char => if b.len() < char_width() {
            Err(DecodeError::TruncatedInput)
        } else if is_scalar_value(le_value(b.subrange(0, char_width() as int))) {
            Ok(
                (
                    ValueView::String(seq![(le_value(b.subrange(0, char_width() as int)) as u32) as char]),
                    char_width(),
                ),
            )
        } else {
            Err(DecodeError::CorruptData)
        },
        TypeView::Int { signed, bytes } => if b.len() < bytes {
            Err(DecodeError::TruncatedInput)
        } else {
            Ok((ValueView::Int(int_of_rep(le_value(b.subrange(0, bytes as int)), signed, bytes)), bytes))
        },
        TypeView::Float { bytes } => if b.len() < bytes {
            Err(DecodeError::TruncatedInput)
        } else {
            Ok((ValueView::Float { bytes, pattern: le_value(b.subrange(0, bytes as int)) }, bytes))
        },
        TypeView::String => if valid_utf8(b) {
            Ok((ValueView::String(decode_utf8(b)), b.len()))
        } else {
            Err(DecodeError::CorruptData)
        },
        TypeView::ByteSlice => Ok((ValueView::Sequence(numbers_of(b)), b.len())),
        TypeView::Array { elem, len } => {
            let rs = decode_each(*elem, element_slices(elem.width(), array_prefix(elem.width()), b, 0, len));
            match first_err(rs) {
                Some(e) => Err(e),
                None => Ok(
                    (
                        ValueView::Sequence(values_of(rs)),
                        end_of(split_elements(elem.width(), array_prefix(elem.width()), b, 0, len)),
                    ),
                ),
            }
        },
        TypeView::Vec { elem } => match read_varint(b) {
            None => Err(DecodeError::TruncatedInput),
            Some((n, used)) => {
                let rs = decode_each(
                    *elem,
                    element_slices(elem.width(), list_prefix(elem.width()), b, used, n),
                );
                match first_err(rs) {
                    Some(e) => Err(e),
                    None => Ok(
                        (
                            ValueView::Sequence(values_of(rs)),
                            end_of(split_elements(elem.width(), list_prefix(elem.width()), b, used, n)),
                        ),
                    ),
                }
            },
        },
        TypeView::Option { inner } => if b.len() < 1 {
            Err(DecodeError::TruncatedInput)
        } else if b[0] == 0 {
            let pad = match inner.width() {
                Some(w) => w,
                None => 0,
            };
            if b.len() < 1 + pad {
                Err(DecodeError::TruncatedInput)
            } else {
                Ok((ValueView::Null, 1 + pad))
            }
        } else if b[0] == 1 {
            match decode_spec(*inner, b.subrange(1, b.len() as int)) {
                Ok((v, used)) => Ok((v, 1 + used)),
                Err(e) => Err(e),
            }
        } else {
            Err(DecodeError::CorruptData)
        },
        TypeView::Tuple { elems } => {
            let ws = tuple_widths(elems);
            let rs = decode_members(elems, member_slices(ws, b));
            match first_err(rs) {
                Some(e) => Err(e),
                None => Ok(
                    (
                        if elems.len() == 0 {
                            ValueView::Null
                        } else {
                            ValueView::Sequence(values_of(rs))
                        },
                        end_of(split_members(ws, b, ws.len())),
                    ),
                ),
            }
        },
        TypeView::Struct { fields, .. } => {
            let ws = field_widths(fields);
            let rs = decode_fields(fields, member_slices(ws, b));
            match first_err(rs) {
                Some(e) => Err(e),
                None => Ok(
                    (
                        ValueView::Record(map_of(entries_of(fields, values_of(rs)))),
                        end_of(split_members(ws, b, ws.len())),
                    ),
                ),
            }
        },
    }
}

/// The value of type `t` in each of `slices`; an element that the buffer
/// ended before is truncated.
pub open spec fn decode_each(t: TypeView, slices: Seq<Option<Seq<u8>>>) -> Seq<
    Result<(ValueView, nat), DecodeError>,
>
    decreases t, 1nat,
{
    Seq::new(
        slices.len(),
        |i: int|
            match slices[i] {
                Some(s) => decode_spec(t, s),
                None => Err(DecodeError::TruncatedInput),
            },
    )
}

/// The value in each of `slices`, of the member type of its place.
pub open spec fn decode_members(elems: Seq<TypeView>, slices: Seq<Option<Seq<u8>>>) -> Seq<
    Result<(ValueView, nat), DecodeError>,
>
    decreases elems, 1nat,
{
    Seq::new(
        elems.len(),
        |i: int|
            if 0 <= i < elems.len() {
                match slices[i] {
                    Some(s) => decode_spec(elems[i], s),
                    None => Err(DecodeError::TruncatedInput),
                }
            } else {
                Err(DecodeError::TruncatedInput)
            },
    )
}

/// The value in each of `slices`, of the type of the field of its place.
pub open spec fn decode_fields(fields: Seq<(Seq<char>, TypeView)>, slices: Seq<Option<Seq<u8>>>) -> Seq<
    Result<(ValueView, nat), DecodeError>,
>
    decreases fields, 1nat,
{
    Seq::new(
        fields.len(),
        |i: int|
            if 0 <= i < fields.len() {
                match slices[i] {
                    Some(s) => decode_spec(fields[i].1, s),
                    None => Err(DecodeError::TruncatedInput),
                }
            } else {
                Err(DecodeError::TruncatedInput)
            },
    )
}

} // verus!
