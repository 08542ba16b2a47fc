//! The decoder: from the engine's bytes to a canonical value.

use vstd::prelude::*;
use vstd::slice::slice_subrange;
use crate::codec::frame::{
    cut, element_slices, first_err, lemma_cut_none, lemma_first_err_at, lemma_first_err_none,
    lemma_read_lens_none, member_lens, member_prefixes, member_slices, read_lens, split_elements,
    split_members, Prefix,
};
use crate::codec::model::{
    decode_each, decode_fields, decode_members, decode_spec, end_of, entries_of, numbers_of,
    values_of,
};
use crate::engine::char_from_bytes;
use crate::error::DecodeError;
use crate::le::{get_le, int_of_rep, lemma_le_value_bound, lemma_pow256_values, pow256};
use crate::text::{string_from_utf8, string_of_char};
use crate::tree::{field_widths, parse_size, tuple_widths, FloatWidth, IntWidth, TypeTree, TypeView};
use crate::value::{entries_view, items_view, map_of, Number, Value, ValueView};
use crate::wire::{take_u32_len, take_varint};

verus! {

/// The widths `ws` as mathematical values.
pub open spec fn widths_view(ws: Seq<Option<usize>>) -> Seq<Option<nat>> {
    Seq::new(
        ws.len(),
        |i: int|
            match ws[i] {
                Some(w) => Some(w as nat),
                None => None,
            },
    )
}

/// Whether the range `r` of `b` is the slice `s`.
pub open spec fn is_slice(r: Option<(usize, usize)>, s: Option<Seq<u8>>, b: Seq<u8>) -> bool {
    match r {
        Some((from, to)) => from <= to <= b.len() && s == Some(b.subrange(from as int, to as int)),
        None => s is None,
    }
}

/// Fills `ranges` up to `n` entries with `None`.
fn fill_none(ranges: &mut Vec<Option<(usize, usize)>>, n: usize)
    requires
        old(ranges)@.len() <= n,
    ensures
        final(ranges)@.len() == n,
        forall|i: int| 0 <= i < old(ranges)@.len() ==> final(ranges)@[i] == old(ranges)@[i],
        forall|i: int| old(ranges)@.len() <= i < n ==> final(ranges)@[i] is None,
{
    while ranges.len() < n
        invariant
            old(ranges)@.len() <= ranges@.len() <= n,
            forall|i: int| 0 <= i < old(ranges)@.len() ==> ranges@[i] == old(ranges)@[i],
            forall|i: int| old(ranges)@.len() <= i < ranges@.len() ==> ranges@[i] is None,
        decreases n - ranges@.len(),
    {
        ranges.push(None);
    }
}

/// Where each member of a tuple or struct lies in `data`, by the widths
/// `ws` of the member types, and the offset behind the last. A member that
/// `data` ends before has no range.
pub(crate) fn member_ranges(ws: &Vec<Option<usize>>, data: &[u8]) -> (r: (Vec<Option<(usize, usize)>>, usize))
    ensures
        r.0@.len() == ws@.len(),
        forall|i: int|
            0 <= i < ws@.len() ==> is_slice(
                #[trigger] r.0@[i],
                member_slices(widths_view(ws@), data@)[i],
                data@,
            ),
        split_members(widths_view(ws@), data@, ws@.len()) is Some ==> r.1 == end_of(
            split_members(widths_view(ws@), data@, ws@.len()),
        ),
        r.1 <= data@.len(),
{
    let ghost wsv = widths_view(ws@);
    let ghost ps = member_prefixes(wsv);
    let ghost b = data@;
    let n = ws.len();
    let mut ranges: Vec<Option<(usize, usize)>> = Vec::new();
    let mut lens: Vec<usize> = Vec::new();
    let mut off: usize = 0;
    let mut i: usize = 0;
    while i < n
        invariant
            0 <= i <= n,
            n == ws@.len(),
            wsv == widths_view(ws@),
            ps == member_prefixes(wsv),
            b == data@,
            off <= data@.len(),
            lens@.len() == i,
            ranges@.len() == 0,
            read_lens(ps, b, i as nat) == Some((Seq::new(i as nat, |k: int| lens@[k] as nat), off as nat)),
        decreases n - i,
    {
        let ghost before = Seq::new(i as nat, |k: int| lens@[k] as nat);
        if ws[i].is_some() || i == n - 1 {
            lens.push(0);
            assert(ps[i as int] is Absent);
            assert(Seq::new((i + 1) as nat, |k: int| lens@[k] as nat) =~= before.push(0));
        } else {
            let mut rest = slice_subrange(data, off, data.len());
            match take_varint(&mut rest) {
                Err(_) => {
                    proof {
                        assert(read_lens(ps, b, (i + 1) as nat) is None);
                        lemma_read_lens_none(ps, b, (i + 1) as nat, n as nat);
                    }
                    fill_none(&mut ranges, n);
                    return (ranges, 0);
                },
                Ok(len) => {
                    lens.push(len);
                    off = data.len() - rest.len();
                    assert(Seq::new((i + 1) as nat, |k: int| lens@[k] as nat) =~= before.push(len as nat));
                },
            }
        }
        i += 1;
    }
    let ghost announced = Seq::new(n as nat, |k: int| lens@[k] as nat);
    let ghost ms = member_lens(wsv, announced);
    let ghost header = off as nat;
    let ghost mut ss: Seq<Seq<u8>> = Seq::empty();
    let mut j: usize = 0;
    while j < n
        invariant
            0 <= j <= n,
            n == ws@.len(),
            wsv == widths_view(ws@),
            ps == member_prefixes(wsv),
            b == data@,
            off <= data@.len(),
            lens@.len() == n,
            announced == Seq::new(n as nat, |k: int| lens@[k] as nat),
            ms == member_lens(wsv, announced),
            read_lens(ps, b, n as nat) == Some((announced, header)),
            cut(ms, b, header, j as nat) == Some((ss, off as nat)),
            ss.len() == j,
            wsv.len() == n,
            ranges@.len() == j,
            forall|k: int|
                0 <= k < j ==> is_slice(#[trigger] ranges@[k], member_slices(wsv, b)[k], b),
        decreases n - j,
    {
        let len: usize = if ws[j].is_some() || j == n - 1 {
            match ws[j] {
                Some(w) => w,
                None => data.len() - off,
            }
        } else {
            lens[j]
        };
        assert(len as nat == match ms[j as int] {
            Some(w) => w,
            None => (b.len() - off) as nat,
        });
        if len > data.len() - off {
            proof {
                assert(cut(ms, b, header, (j + 1) as nat) is None);
                assert forall|k: int| j <= k < n implies member_slices(wsv, b)[k] is None by {
                    lemma_cut_none(ms, b, header, (j + 1) as nat, (k + 1) as nat);
                }
            }
            fill_none(&mut ranges, n);
            proof {
                lemma_cut_none(ms, b, header, (j + 1) as nat, n as nat);
            }
            return (ranges, 0);
        }
        ranges.push(Some((off, off + len)));
        proof {
            let s = b.subrange(off as int, off + len);
            assert(cut(ms, b, header, (j + 1) as nat) == Some((ss.push(s), (off + len) as nat)));
            assert(member_slices(wsv, b)[j as int] == Some(s));
            ss = ss.push(s);
        }
        off = off + len;
        j += 1;
    }
    (ranges, off)
}

/// The integer that the unsigned number `rep` stands for in an integer
/// type.
fn number_of_rep(rep: u128, signed: bool, width: IntWidth) -> (r: Number)
    requires
        rep < pow256(width.spec_bytes()),
    ensures
        r@ == ValueView::Int(int_of_rep(rep as nat, signed, width.spec_bytes())),
{
    proof {
        lemma_pow256_values();
    }
    let umax: u128 = match width {
        IntWidth::W8 => 0xFF,
        IntWidth::W16 => 0xFFFF,
        IntWidth::W32 => 0xFFFF_FFFF,
        IntWidth::W64 => 0xFFFF_FFFF_FFFF_FFFF,
        IntWidth::W128 => 0xFFFF_FFFF_FFFF_FFFF_FFFF_FFFF_FFFF_FFFF,
    };
    if signed && rep > umax / 2 {
        Number::NegInt(-((umax - rep) as i128) - 1)
    } else {
        Number::PosInt(rep)
    }
}

/// The numbers that the bytes of a byte slice are.
fn decode_bytes(data: &[u8]) -> (r: Vec<Value>)
    ensures
        items_view(r@) == numbers_of(data@),
{
    let mut out: Vec<Value> = Vec::new();
    let mut i: usize = 0;
    while i < data.len()
        invariant
            0 <= i <= data.len(),
            out@.len() == i,
            forall|j: int| 0 <= j < i ==> (#[trigger] out@[j])@ == ValueView::Int(data@[j] as int),
        decreases data.len() - i,
    {
        out.push(Value::Number(Number::PosInt(data[i] as u128)));
        i += 1;
    }
    assert(items_view(out@) =~= numbers_of(data@));
    out
}

/// The boolean at the front of `data`.
fn decode_bool(data: &[u8]) -> (r: Result<(Value, usize), DecodeError>)
    ensures
        match r {
            Ok((v, used)) => decode_spec(TypeView::Bool, data@) == Ok::<(ValueView, nat), DecodeError>(
                (v@, used as nat),
            ) && used <= data@.len(),
            Err(e) => decode_spec(TypeView::Bool, data@) == Err::<(ValueView, nat), DecodeError>(e),
        },
{
    if data.len() < 1 {
        Err(DecodeError::TruncatedInput)
    } else if data[0] == 0 {
        Ok((Value::Bool(false), 1))
    } else if data[0] == 1 {
        Ok((Value::Bool(true), 1))
    } else {
        Err(DecodeError::CorruptData)
    }
}

/// The character at the front of `data`, as a text of one character.
fn decode_char(data: &[u8]) -> (r: Result<(Value, usize), DecodeError>)
    ensures
        match r {
            Ok((v, used)) => decode_spec(TypeView::Char, data@) == Ok::<(ValueView, nat), DecodeError>(
                (v@, used as nat),
            ) && used <= data@.len(),
            Err(e) => decode_spec(TypeView::Char, data@) == Err::<(ValueView, nat), DecodeError>(e),
        },
{
    if data.len() < 3 {
        Err(DecodeError::TruncatedInput)
    } else {
        let head = slice_subrange(data, 0, 3);
        let n = get_le(head, 0);
        assert(head@.subrange(0, 3) =~= head@);
        if n <= 0xD7FF || (0xE000 <= n && n <= 0x10FFFF) {
            let c = char_from_bytes(data);
            proof {
                vstd::utf8::char_u32_cast(c, n as u32);
            }
            Ok((Value::String(string_of_char(c)), 3))
        } else {
            Err(DecodeError::CorruptData)
        }
    }
}

/// The integer at the front of `data`.
fn decode_int(data: &[u8], signed: bool, width: IntWidth) -> (r: Result<(Value, usize), DecodeError>)
    ensures
        match r {
            Ok((v, used)) => decode_spec(TypeView::Int { signed, bytes: width.spec_bytes() }, data@) == Ok::<
                (ValueView, nat),
                DecodeError,
            >((v@, used as nat)) && used <= data@.len(),
            Err(e) => decode_spec(TypeView::Int { signed, bytes: width.spec_bytes() }, data@) == Err::<
                (ValueView, nat),
                DecodeError,
            >(e),
        },
{
    let w = width.bytes();
    if data.len() < w {
        Err(DecodeError::TruncatedInput)
    } else {
        let head = slice_subrange(data, 0, w);
        let rep = get_le(head, 0);
        proof {
            assert(head@.subrange(0, w as int) =~= head@);
            lemma_le_value_bound(head@);
        }
        Ok((Value::Number(number_of_rep(rep, signed, width)), w))
    }
}

/// The float at the front of `data`.
fn decode_float(data: &[u8], width: FloatWidth) -> (r: Result<(Value, usize), DecodeError>)
    ensures
        match r {
            Ok((v, used)) => decode_spec(TypeView::Float { bytes: width.spec_bytes() }, data@) == Ok::<
                (ValueView, nat),
                DecodeError,
            >((v@, used as nat)) && used <= data@.len(),
            Err(e) => decode_spec(TypeView::Float { bytes: width.spec_bytes() }, data@) == Err::<
                (ValueView, nat),
                DecodeError,
            >(e),
        },
{
    let w = width.bytes();
    if data.len() < w {
        Err(DecodeError::TruncatedInput)
    } else {
        let head = slice_subrange(data, 0, w);
        let rep = get_le(head, 0);
        proof {
            assert(head@.subrange(0, w as int) =~= head@);
            lemma_le_value_bound(head@);
            lemma_pow256_values();
        }
        match width {
            FloatWidth::W32 => Ok((Value::Number(Number::Float32(rep as u32)), w)),
            FloatWidth::W64 => Ok((Value::Number(Number::Float64(rep as u64)), w)),
        }
    }
}

/// The value of type `p` at the front of `data`, and the number of bytes
/// that it takes.
pub fn decode_value(p: &TypeTree, data: &[u8]) -> (r: Result<(Value, usize), DecodeError>)
    requires
        p@.wf(),
    ensures
        match r {
            Ok((v, used)) => decode_spec(p@, data@) == Ok::<(ValueView, nat), DecodeError>((v@, used as nat))
                && used <= data@.len(),
            Err(e) => decode_spec(p@, data@) == Err::<(ValueView, nat), DecodeError>(e),
        },
    decreases p, 0nat,
{
    match p {
        TypeTree::Bool => decode_bool(data),
        TypeTree::Char => decode_char(data),
        TypeTree::Int { signed, width } => decode_int(data, *signed, *width),
        TypeTree::Float { width } => decode_float(data, *width),
        TypeTree::String => match string_from_utf8(data) {
            Some(s) => Ok((Value::String(s), data.len())),
            None => Err(DecodeError::CorruptData),
        },
        TypeTree::ByteSlice => Ok((Value::Sequence(decode_bytes(data)), data.len())),
        TypeTree::Array { elem, len } => {
            let w = parse_size(elem);
            let prefix = if w.is_some() {
                Prefix::Absent
            } else {
                Prefix::Fixed32
            };
            let (items, end) = decode_elements(elem, data, 0, *len, w, prefix)?;
            Ok((Value::Sequence(items), end))
        },
        TypeTree::Vec { elem } => {
            let mut rest = data;
            match take_varint(&mut rest) {
                Err(_) => Err(DecodeError::TruncatedInput),
                Ok(n) => {
                    let w = parse_size(elem);
                    let prefix = if w.is_some() {
                        Prefix::Absent
                    } else {
                        Prefix::Varint
                    };
                    let (items, end) = decode_elements(elem, data, data.len() - rest.len(), n, w, prefix)?;
                    Ok((Value::Sequence(items), end))
                },
            }
        },
        TypeTree::Option { inner } => {
            if data.len() < 1 {
                Err(DecodeError::TruncatedInput)
            } else if data[0] == 0 {
                let pad: usize = match parse_size(inner) {
                    Some(w) => w,
                    None => 0,
                };
                if data.len() - 1 < pad {
                    Err(DecodeError::TruncatedInput)
                } else {
                    Ok((Value::Null, 1 + pad))
                }
            } else if data[0] == 1 {
                let (v, used) = decode_value(inner, slice_subrange(data, 1, data.len()))?;
                Ok((v, 1 + used))
            } else {
                Err(DecodeError::CorruptData)
            }
        },
        TypeTree::Tuple { elems } => decode_tuple(elems, data, Ghost(p@->Tuple_elems)),
        TypeTree::Struct { fields, .. } => decode_struct(fields, data, Ghost(p@->Struct_fields)),
    }
}

/// The `n` elements of type `elem` of an array or vector that lies in
/// `data` from `start` on, and the offset behind them.
fn decode_elements(elem: &TypeTree, data: &[u8], start: usize, n: usize, w: Option<usize>, prefix: Prefix) -> (r:
    Result<(Vec<Value>, usize), DecodeError>)
    requires
        elem@.wf(),
        start <= data@.len(),
        match w {
            Some(width) => elem@.width() == Some(width as nat),
            None => elem@.width() is None && !(prefix is Absent),
        },
    ensures
        match r {
            Ok((items, end)) => first_err(
                decode_each(elem@, element_slices(elem@.width(), prefix, data@, start as nat, n as nat)),
            ) is None && items_view(items@) == values_of(
                decode_each(elem@, element_slices(elem@.width(), prefix, data@, start as nat, n as nat)),
            ) && end == end_of(split_elements(elem@.width(), prefix, data@, start as nat, n as nat))
                && end <= data@.len(),
            Err(e) => first_err(
                decode_each(elem@, element_slices(elem@.width(), prefix, data@, start as nat, n as nat)),
            ) == Some(e),
        },
    decreases elem, 1nat,
{
    let ghost b = data@;
    let ghost wv = elem@.width();
    let ghost slices = element_slices(wv, prefix, b, start as nat, n as nat);
    let ghost rs = decode_each(elem@, slices);
    let ghost mut ss: Seq<Seq<u8>> = Seq::empty();
    let mut items: Vec<Value> = Vec::new();
    let mut off: usize = start;
    let mut i: usize = 0;
    while i < n
        invariant
            0 <= i <= n,
            elem@.wf(),
            b == data@,
            wv == elem@.width(),
            match w {
                Some(width) => wv == Some(width as nat),
                None => wv is None && !(prefix is Absent),
            },
            slices == element_slices(wv, prefix, b, start as nat, n as nat),
            rs == decode_each(elem@, slices),
            off <= data@.len(),
            split_elements(wv, prefix, b, start as nat, i as nat) == Some((ss, off as nat)),
            ss.len() == i,
            items@.len() == i,
            forall|j: int| 0 <= j < i ==> (#[trigger] rs[j]) is Ok && rs[j]->Ok_0.0 == items@[j]@,
        decreases n - i,
    {
        let mut from: usize = off;
        let len: usize = match w {
            Some(width) => width,
            None => {
                let mut rest = slice_subrange(data, off, data.len());
                let read = match prefix {
                    Prefix::Fixed32 => take_u32_len(&mut rest),
                    _ => take_varint(&mut rest),
                };
                match read {
                    Err(_) => {
                        proof {
                            assert(split_elements(wv, prefix, b, start as nat, (i + 1) as nat) is None);
                            assert(rs[i as int] == Err::<(ValueView, nat), DecodeError>(
                                DecodeError::TruncatedInput,
                            ));
                            lemma_first_err_at(rs, i as int);
                        }
                        return Err(DecodeError::TruncatedInput);
                    },
                    Ok(len) => {
                        from = data.len() - rest.len();
                        len
                    },
                }
            },
        };
        if len > data.len() - from {
            proof {
                assert(split_elements(wv, prefix, b, start as nat, (i + 1) as nat) is None);
                assert(rs[i as int] == Err::<(ValueView, nat), DecodeError>(DecodeError::TruncatedInput));
                lemma_first_err_at(rs, i as int);
            }
            return Err(DecodeError::TruncatedInput);
        }
        let ghost s = b.subrange(from as int, from + len);
        proof {
            assert(split_elements(wv, prefix, b, start as nat, (i + 1) as nat) == Some(
                (ss.push(s), (from + len) as nat),
            ));
            assert(slices[i as int] == Some(s));
        }
        match decode_value(elem, slice_subrange(data, from, from + len)) {
            Err(e) => {
                proof {
                    assert(rs[i as int] == Err::<(ValueView, nat), DecodeError>(e));
                    lemma_first_err_at(rs, i as int);
                }
                return Err(e);
            },
            Ok((v, _)) => {
                items.push(v);
            },
        }
        proof {
            ss = ss.push(s);
        }
        off = from + len;
        i += 1;
    }
    proof {
        lemma_first_err_none(rs);
        assert(items_view(items@) =~= values_of(rs));
    }
    Ok((items, off))
}

/// The widths of the types `elems`.
fn widths_of(elems: &Vec<TypeTree>, Ghost(types): Ghost<Seq<TypeView>>) -> (ws: Vec<Option<usize>>)
    requires
        types.len() == elems.len(),
        forall|i: int| 0 <= i < elems.len() ==> types[i] == (#[trigger] elems[i])@,
        forall|i: int| 0 <= i < elems.len() ==> (#[trigger] types[i]).wf(),
    ensures
        widths_view(ws@) == tuple_widths(types),
{
    let mut ws: Vec<Option<usize>> = Vec::new();
    let mut k: usize = 0;
    while k < elems.len()
        invariant
            0 <= k <= elems.len(),
            types.len() == elems.len(),
            forall|i: int| 0 <= i < elems.len() ==> types[i] == (#[trigger] elems[i])@,
            forall|i: int| 0 <= i < elems.len() ==> (#[trigger] types[i]).wf(),
            ws@.len() == k,
            forall|i: int|
                0 <= i < k ==> match #[trigger] ws@[i] {
                    Some(w) => types[i].width() == Some(w as nat),
                    None => types[i].width() is None,
                },
        decreases elems.len() - k,
    {
        assert(types[k as int].wf());
        ws.push(parse_size(&elems[k]));
        k += 1;
    }
    assert(widths_view(ws@) =~= tuple_widths(types));
    ws
}

/// The widths of the types of `fields`.
fn field_widths_of(fields: &Vec<(String, TypeTree)>, Ghost(types): Ghost<Seq<(Seq<char>, TypeView)>>) -> (ws:
    Vec<Option<usize>>)
    requires
        types.len() == fields.len(),
        forall|i: int| 0 <= i < fields.len() ==> types[i] == ((#[trigger] fields[i]).0@, fields[i].1@),
        forall|i: int| 0 <= i < fields.len() ==> (#[trigger] types[i]).1.wf(),
    ensures
        widths_view(ws@) == field_widths(types),
{
    let mut ws: Vec<Option<usize>> = Vec::new();
    let mut k: usize = 0;
    while k < fields.len()
        invariant
            0 <= k <= fields.len(),
            types.len() == fields.len(),
            forall|i: int| 0 <= i < fields.len() ==> types[i] == ((#[trigger] fields[i]).0@, fields[i].1@),
            forall|i: int| 0 <= i < fields.len() ==> (#[trigger] types[i]).1.wf(),
            ws@.len() == k,
            forall|i: int|
                0 <= i < k ==> match #[trigger] ws@[i] {
                    Some(w) => types[i].1.width() == Some(w as nat),
                    None => types[i].1.width() is None,
                },
        decreases fields.len() - k,
    {
        assert(types[k as int].1.wf());
        assert(types[k as int] == (fields[k as int].0@, fields[k as int].1@));
        ws.push(parse_size(&fields[k].1));
        k += 1;
    }
    assert(widths_view(ws@) =~= field_widths(types));
    ws
}

/// The tuple of types `elems` at the front of `data`.
fn decode_tuple(elems: &Vec<TypeTree>, data: &[u8], Ghost(types): Ghost<Seq<TypeView>>) -> (r: Result<
    (Value, usize),
    DecodeError,
>)
    requires
        types.len() == elems.len(),
        forall|i: int| 0 <= i < elems.len() ==> types[i] == (#[trigger] elems[i])@,
        forall|i: int| 0 <= i < elems.len() ==> (#[trigger] types[i]).wf(),
    ensures
        match r {
            Ok((v, used)) => decode_spec(TypeView::Tuple { elems: types }, data@) == Ok::<
                (ValueView, nat),
                DecodeError,
            >((v@, used as nat)) && used <= data@.len(),
            Err(e) => decode_spec(TypeView::Tuple { elems: types }, data@) == Err::<
                (ValueView, nat),
                DecodeError,
            >(e),
        },
    decreases elems, 1nat,
{
    let ws = widths_of(elems, Ghost(types));
    let (ranges, end) = member_ranges(&ws, data);
    let ghost slices = member_slices(tuple_widths(types), data@);
    let ghost rs = decode_members(types, slices);
    let mut items: Vec<Value> = Vec::new();
    let mut i: usize = 0;
    while i < elems.len()
        invariant
            0 <= i <= elems.len(),
            types.len() == elems.len(),
            forall|i: int| 0 <= i < elems.len() ==> types[i] == (#[trigger] elems[i])@,
            forall|i: int| 0 <= i < elems.len() ==> (#[trigger] types[i]).wf(),
            ranges@.len() == elems.len(),
            slices == member_slices(tuple_widths(types), data@),
            forall|i: int| 0 <= i < elems.len() ==> is_slice(#[trigger] ranges@[i], slices[i], data@),
            rs == decode_members(types, slices),
            items@.len() == i,
            forall|j: int| 0 <= j < i ==> (#[trigger] rs[j]) is Ok && rs[j]->Ok_0.0 == items@[j]@,
        decreases elems.len() - i,
    {
        assert(types[i as int].wf());
        assert(is_slice(ranges@[i as int], slices[i as int], data@));
        match ranges[i] {
            None => {
                proof {
                    assert(rs[i as int] == Err::<(ValueView, nat), DecodeError>(DecodeError::TruncatedInput));
                    lemma_first_err_at(rs, i as int);
                }
                return Err(DecodeError::TruncatedInput);
            },
            Some((from, to)) => match decode_value(&elems[i], slice_subrange(data, from, to)) {
                Err(e) => {
                    proof {
                        assert(rs[i as int] == Err::<(ValueView, nat), DecodeError>(e));
                        lemma_first_err_at(rs, i as int);
                    }
                    return Err(e);
                },
                Ok((v, _)) => {
                    items.push(v);
                },
            },
        }
        i += 1;
    }
    proof {
        lemma_first_err_none(rs);
        assert(items_view(items@) =~= values_of(rs));
        if elems.len() > 0 {
            assert(rs[elems.len() - 1] is Ok);
            assert(slices[elems.len() - 1] is Some);
        }
    }
    if elems.len() == 0 {
        Ok((Value::Null, end))
    } else {
        Ok((Value::Sequence(items), end))
    }
}

/// The struct of fields `fields` at the front of `data`.
fn decode_struct(fields: &Vec<(String, TypeTree)>, data: &[u8], Ghost(types): Ghost<
    Seq<(Seq<char>, TypeView)>,
>) -> (r: Result<(Value, usize), DecodeError>)
    requires
        types.len() == fields.len(),
        forall|i: int| 0 <= i < fields.len() ==> types[i] == ((#[trigger] fields[i]).0@, fields[i].1@),
        forall|i: int| 0 <= i < fields.len() ==> (#[trigger] types[i]).1.wf(),
    ensures
        match r {
            Ok((v, used)) => first_err(decode_fields(types, member_slices(field_widths(types), data@))) is None
                && v@ == ValueView::Record(
                map_of(
                    entries_of(types, values_of(decode_fields(types, member_slices(field_widths(types), data@)))),
                ),
            ) && used == end_of(split_members(field_widths(types), data@, types.len())) && used
                <= data@.len(),
            Err(e) => first_err(decode_fields(types, member_slices(field_widths(types), data@))) == Some(e),
        },
    decreases fields, 1nat,
{
    let ws = field_widths_of(fields, Ghost(types));
    let (ranges, end) = member_ranges(&ws, data);
    let ghost slices = member_slices(field_widths(types), data@);
    let ghost rs = decode_fields(types, slices);
    let mut entries: Vec<(String, Value)> = Vec::new();
    let mut i: usize = 0;
    while i < fields.len()
        invariant
            0 <= i <= fields.len(),
            types.len() == fields.len(),
            forall|i: int| 0 <= i < fields.len() ==> types[i] == ((#[trigger] fields[i]).0@, fields[i].1@),
            forall|i: int| 0 <= i < fields.len() ==> (#[trigger] types[i]).1.wf(),
            ranges@.len() == fields.len(),
            slices == member_slices(field_widths(types), data@),
            forall|i: int| 0 <= i < fields.len() ==> is_slice(#[trigger] ranges@[i], slices[i], data@),
            rs == decode_fields(types, slices),
            entries@.len() == i,
            forall|j: int|
                0 <= j < i ==> (#[trigger] rs[j]) is Ok && rs[j]->Ok_0.0 == entries@[j].1@ && entries@[j].0@
                    == types[j].0,
        decreases fields.len() - i,
    {
        assert(types[i as int].1.wf());
        assert(types[i as int] == (fields[i as int].0@, fields[i as int].1@));
        assert(is_slice(ranges@[i as int], slices[i as int], data@));
        match ranges[i] {
            None => {
                proof {
                    assert(rs[i as int] == Err::<(ValueView, nat), DecodeError>(DecodeError::TruncatedInput));
                    lemma_first_err_at(rs, i as int);
                }
                return Err(DecodeError::TruncatedInput);
            },
            Some((from, to)) => match decode_value(&fields[i].1, slice_subrange(data, from, to)) {
                Err(e) => {
                    proof {
                        assert(rs[i as int] == Err::<(ValueView, nat), DecodeError>(e));
                        lemma_first_err_at(rs, i as int);
                    }
                    return Err(e);
                },
                Ok((v, _)) => {
                    entries.push((fields[i].0.clone(), v));
                },
            },
        }
        i += 1;
    }
    proof {
        lemma_first_err_none(rs);
        assert(entries_view(entries@) =~= entries_of(types, values_of(rs)));
        if fields.len() > 0 {
            assert(rs[fields.len() - 1] is Ok);
            assert(slices[fields.len() - 1] is Some);
        }
    }
    Ok((Value::Record(entries), end))
}

} // verus!
