//! The encoder: from a canonical value to the engine's bytes.

use vstd::prelude::*;
use vstd::string::*;
use crate::codec::frame::{
    announce, announced, array_prefixes, concat, first_err, join_elements, join_members,
    lemma_concat_step, lemma_first_err_at, lemma_first_err_none, list_prefixes, member_prefixes,
    oks, sized, sized_all, Prefix,
};
use crate::codec::model::{
    bytes_of, encode_each, encode_fields, encode_members, encode_spec, field_value,
    first_of_name, has_field, no_stray_entry, zeros,
};
use crate::engine::char_as_bytes;
use crate::error::EncodeError;
use crate::le::{int_fits, le_bytes, lemma_pow256_values, pow256, put_le, twos_complement};
use crate::text::str_eq;
use crate::tree::{field_widths, parse_size, tuple_widths, FloatWidth, IntWidth, TypeTree, TypeView};
use crate::value::{
    entries_view, find_entry, items_view, lemma_map_of_contains, lemma_map_of_domain, map_of,
    Number, Value, ValueView,
};
use crate::wire::{put_varint, varint};

verus! {

/// The largest number that an unsigned integer of the width holds.
fn unsigned_max(width: IntWidth) -> (r: u128)
    ensures
        r == pow256(width.spec_bytes()) - 1,
{
    proof {
        lemma_pow256_values();
    }
    match width {
        IntWidth::W8 => 0xFF,
        IntWidth::W16 => 0xFFFF,
        IntWidth::W32 => 0xFFFF_FFFF,
        IntWidth::W64 => 0xFFFF_FFFF_FFFF_FFFF,
        IntWidth::W128 => 0xFFFF_FFFF_FFFF_FFFF_FFFF_FFFF_FFFF_FFFF,
    }
}

/// The unsigned number that stands for `n` in an integer type, in two's
/// complement.
fn int_rep(n: &Number, signed: bool, width: IntWidth) -> (r: Result<u128, EncodeError>)
    ensures
        match r {
            Ok(rep) => n@ matches ValueView::Int(i) && int_fits(i, signed, width.spec_bytes()) && rep
                == twos_complement(i, width.spec_bytes()),
            Err(e) => match n@ {
                ValueView::Int(i) => !int_fits(i, signed, width.spec_bytes()) && e
                    == EncodeError::RangeError,
                _ => e == EncodeError::TypeError,
            },
        },
{
    let umax = unsigned_max(width);
    let smax = umax / 2;
    proof {
        lemma_pow256_values();
    }
    match n {
        Number::Float32(_) => Err(EncodeError::TypeError),
        Number::Float64(_) => Err(EncodeError::TypeError),
        Number::PosInt(p) => {
            let max = if signed {
                smax
            } else {
                umax
            };
            if *p <= max {
                Ok(*p)
            } else {
                Err(EncodeError::RangeError)
            }
        },
        Number::NegInt(x) => {
            if *x >= 0 {
                let p = *x as u128;
                let max = if signed {
                    smax
                } else {
                    umax
                };
                if p <= max {
                    Ok(p)
                } else {
                    Err(EncodeError::RangeError)
                }
            } else if !signed {
                Err(EncodeError::RangeError)
            } else {
                let m = (-(*x + 1)) as u128;
                if m <= smax {
                    Ok(umax - m)
                } else {
                    Err(EncodeError::RangeError)
                }
            }
        },
    }
}

/// Appends to `out` the announcement of a member of `len` bytes.
fn put_prefix(p: &Prefix, len: usize, out: &mut Vec<u8>)
    requires
        *p is Absent || len <= u32::MAX,
    ensures
        final(out)@ == old(out)@ + p.bytes(len as nat),
{
    match p {
        Prefix::Absent => {
            assert(out@ =~= old(out)@ + p.bytes(len as nat));
        },
        Prefix::Fixed32 => {
            put_le(len as u128, 4, out);
        },
        Prefix::Varint => {
            put_varint(len, out);
        },
    }
}

/// Appends `bytes` to `out`.
fn append(out: &mut Vec<u8>, bytes: &Vec<u8>)
    ensures
        final(out)@ == old(out)@ + bytes@,
{
    out.extend_from_slice(bytes.as_slice());
}

/// The bytes of a byte slice whose bytes are the numbers `items`.
fn encode_bytes(items: &Vec<Value>) -> (r: Result<Vec<u8>, EncodeError>)
    ensures
        match r {
            Ok(b) => first_err(bytes_of(items_view(items@))) is None && b@ == oks(
                bytes_of(items_view(items@)),
            ),
            Err(e) => first_err(bytes_of(items_view(items@))) == Some(e),
        },
{
    let ghost rs = bytes_of(items_view(items@));
    let mut out: Vec<u8> = Vec::new();
    let mut i: usize = 0;
    while i < items.len()
        invariant
            0 <= i <= items.len(),
            rs == bytes_of(items_view(items@)),
            out@.len() == i,
            forall|j: int| 0 <= j < i ==> (#[trigger] rs[j]) == Ok::<u8, EncodeError>(out@[j]),
        decreases items.len() - i,
    {
        let r: Result<u8, EncodeError> = match &items[i] {
            Value::Number(Number::PosInt(p)) => if *p <= 255 {
                Ok(*p as u8)
            } else {
                Err(EncodeError::RangeError)
            },
            Value::Number(Number::NegInt(x)) => if 0 <= *x && *x <= 255 {
                Ok(*x as u8)
            } else {
                Err(EncodeError::RangeError)
            },
            _ => Err(EncodeError::TypeError),
        };
        assert(r == rs[i as int]);
        match r {
            Ok(b) => {
                out.push(b);
            },
            Err(e) => {
                proof {
                    lemma_first_err_at(rs, i as int);
                }
                return Err(e);
            },
        }
        i += 1;
    }
    proof {
        lemma_first_err_none(rs);
        assert(out@ =~= oks(rs));
    }
    Ok(out)
}

/// The bytes of the value `val` of type `p`.
pub fn encode_value(p: &TypeTree, val: &Value) -> (r: Result<Vec<u8>, EncodeError>)
    requires
        p@.wf(),
    ensures
        match r {
            Ok(b) => encode_spec(p@, val@) == Ok::<Seq<u8>, EncodeError>(b@),
            Err(e) => encode_spec(p@, val@) == Err::<Seq<u8>, EncodeError>(e),
        },
    decreases p, 0nat,
{
    match p {
        TypeTree::Bool => match val {
            Value::Bool(b) => {
                let mut out: Vec<u8> = Vec::new();
                out.push(
                    if *b {
                        1u8
                    } else {
                        0u8
                    },
                );
                assert(out@ =~= seq![if *b {
                    1u8
                } else {
                    0u8
                }]);
                Ok(out)
            },
            _ => Err(EncodeError::TypeError),
        },
        TypeTree::Char => match val {
            Value::String(s) => {
                if s.as_str().unicode_len() == 1 {
                    Ok(char_as_bytes(s.as_str().get_char(0)))
                } else {
                    Err(EncodeError::TypeError)
                }
            },
            _ => Err(EncodeError::TypeError),
        },
        TypeTree::Int { signed, width } => match val {
            Value::Number(n) => {
                let rep = int_rep(n, *signed, *width)?;
                let mut out: Vec<u8> = Vec::new();
                put_le(rep, width.bytes(), &mut out);
                assert(out@ =~= le_bytes(rep as nat, width.spec_bytes()));
                Ok(out)
            },
            _ => Err(EncodeError::TypeError),
        },
        TypeTree::Float { width } => match val {
            Value::Number(Number::Float32(bits)) => match width {
                FloatWidth::W32 => {
                    let mut out: Vec<u8> = Vec::new();
                    put_le(*bits as u128, 4, &mut out);
                    assert(out@ =~= le_bytes(*bits as nat, 4));
                    Ok(out)
                },
                FloatWidth::W64 => Err(EncodeError::TypeError),
            },
            Value::Number(Number::Float64(bits)) => match width {
                FloatWidth::W32 => Err(EncodeError::TypeError),
                FloatWidth::W64 => {
                    let mut out: Vec<u8> = Vec::new();
                    put_le(*bits as u128, 8, &mut out);
                    assert(out@ =~= le_bytes(*bits as nat, 8));
                    Ok(out)
                },
            },
            _ => Err(EncodeError::TypeError),
        },
        TypeTree::String => match val {
            Value::String(s) => {
                let mut out: Vec<u8> = Vec::new();
                out.extend_from_slice(s.as_str().as_bytes());
                assert(out@ =~= vstd::utf8::encode_utf8(s@));
                Ok(out)
            },
            _ => Err(EncodeError::TypeError),
        },
        TypeTree::ByteSlice => match val {
            Value::Sequence(items) => encode_bytes(items),
            _ => Err(EncodeError::TypeError),
        },
        TypeTree::Array { elem, len } => match val {
            Value::Sequence(items) => {
                if items.len() != *len {
                    Err(EncodeError::TypeError)
                } else {
                    let prefix = if parse_size(elem).is_some() {
                        Prefix::Absent
                    } else {
                        Prefix::Fixed32
                    };
                    assert(array_prefixes(elem@.width(), *len as nat) =~= Seq::new(
                        items@.len(),
                        |i: int| prefix,
                    ));
                    encode_elements(elem, items, prefix)
                }
            },
            _ => Err(EncodeError::TypeError),
        },
        TypeTree::Vec { elem } => match val {
            Value::Sequence(items) => {
                if items.len() > 0xFFFF_FFFF {
                    Err(EncodeError::RangeError)
                } else {
                    let prefix = if parse_size(elem).is_some() {
                        Prefix::Absent
                    } else {
                        Prefix::Varint
                    };
                    assert(list_prefixes(elem@.width(), items@.len()) =~= Seq::new(
                        items@.len(),
                        |i: int| prefix,
                    ));
                    let body = encode_elements(elem, items, prefix)?;
                    let mut out: Vec<u8> = Vec::new();
                    put_varint(items.len(), &mut out);
                    append(&mut out, &body);
                    assert(out@ =~= varint(items@.len()) + body@);
                    Ok(out)
                }
            },
            _ => Err(EncodeError::TypeError),
        },
        TypeTree::Option { inner } => match val {
            Value::Null => {
                let mut out: Vec<u8> = Vec::new();
                out.push(0u8);
                let pad: usize = match parse_size(inner) {
                    Some(w) => w,
                    None => 0,
                };
                let mut i: usize = 0;
                while i < pad
                    invariant
                        0 <= i <= pad,
                        out@ == seq![0u8] + zeros(i as nat),
                    decreases pad - i,
                {
                    out.push(0u8);
                    i += 1;
                    assert(out@ =~= seq![0u8] + zeros(i as nat));
                }
                Ok(out)
            },
            _ => {
                let body = encode_value(inner, val)?;
                let mut out: Vec<u8> = Vec::new();
                out.push(1u8);
                append(&mut out, &body);
                assert(out@ =~= seq![1u8] + body@);
                Ok(out)
            },
        },
        TypeTree::Tuple { elems } => match val {
            Value::Null => if elems.len() == 0 {
                Ok(Vec::new())
            } else {
                Err(EncodeError::TypeError)
            },
            Value::Sequence(items) => {
                if items.len() != elems.len() {
                    Err(EncodeError::TypeError)
                } else {
                    encode_tuple(elems, items, Ghost(p@->Tuple_elems))
                }
            },
            _ => Err(EncodeError::TypeError),
        },
        TypeTree::Struct { fields, .. } => match val {
            Value::Record(entries) => encode_struct(fields, entries, Ghost(p@->Struct_fields)),
            _ => Err(EncodeError::TypeError),
        },
    }
}

/// The bytes of the elements `items` of an array or vector of `elem`, each
/// behind an announcement of kind `prefix`.
fn encode_elements(elem: &TypeTree, items: &Vec<Value>, prefix: Prefix) -> (r: Result<
    Vec<u8>,
    EncodeError,
>)
    requires
        elem@.wf(),
    ensures
        match r {
            Ok(b) => join_elements(
                Seq::new(items@.len(), |i: int| prefix),
                encode_each(elem@, items_view(items@)),
                EncodeError::RangeError,
            ) == Ok::<Seq<u8>, EncodeError>(b@),
            Err(e) => join_elements(
                Seq::new(items@.len(), |i: int| prefix),
                encode_each(elem@, items_view(items@)),
                EncodeError::RangeError,
            ) == Err::<Seq<u8>, EncodeError>(e),
        },
    decreases elem, 1nat,
{
    let ghost ps = Seq::new(items@.len(), |i: int| prefix);
    let ghost parts = encode_each(elem@, items_view(items@));
    let ghost checked = sized_all(ps, parts, EncodeError::RangeError);
    let ghost framed = announced(ps, oks(parts));
    let mut out: Vec<u8> = Vec::new();
    let mut i: usize = 0;
    while i < items.len()
        invariant
            0 <= i <= items.len(),
            elem@.wf(),
            ps == Seq::new(items@.len(), |i: int| prefix),
            parts == encode_each(elem@, items_view(items@)),
            checked == sized_all(ps, parts, EncodeError::RangeError),
            framed == announced(ps, oks(parts)),
            forall|j: int| 0 <= j < i ==> (#[trigger] checked[j]) is Ok,
            out@ == concat(framed.take(i as int)),
        decreases items.len() - i,
    {
        let part = encode_value(elem, &items[i]);
        assert(items_view(items@)[i as int] == items[i as int]@);
        match part {
            Err(e) => {
                proof {
                    assert(checked[i as int] == Err::<Seq<u8>, EncodeError>(e));
                    lemma_first_err_at(checked, i as int);
                }
                return Err(e);
            },
            Ok(body) => {
                let announce_it = match prefix {
                    Prefix::Absent => false,
                    _ => true,
                };
                if announce_it && body.len() > 0xFFFF_FFFF {
                    proof {
                        assert(checked[i as int] == Err::<Seq<u8>, EncodeError>(EncodeError::RangeError));
                        lemma_first_err_at(checked, i as int);
                    }
                    return Err(EncodeError::RangeError);
                }
                put_prefix(&prefix, body.len(), &mut out);
                append(&mut out, &body);
                proof {
                    assert(checked[i as int] is Ok);
                    lemma_concat_step(framed, i as int);
                    assert(framed[i as int] == prefix.bytes(body@.len()) + body@);
                    assert(out@ =~= concat(framed.take(i as int)) + framed[i as int]);
                }
            },
        }
        i += 1;
    }
    proof {
        lemma_first_err_none(checked);
        assert(framed.take(i as int) =~= framed);
    }
    Ok(out)
}

/// Adds one member to the two halves of a tuple or struct: its
/// announcement to `head`, its bytes to `tail`.
fn push_member(
    fixed: bool,
    last: bool,
    body: &Vec<u8>,
    head: &mut Vec<u8>,
    tail: &mut Vec<u8>,
    Ghost(p): Ghost<Prefix>,
) -> (r: Result<(), EncodeError>)
    requires
        p == (if fixed || last {
            Prefix::Absent
        } else {
            Prefix::Varint
        }),
    ensures
        match r {
            Ok(_) => sized(p, Ok::<Seq<u8>, EncodeError>(body@), EncodeError::RangeError) is Ok && final(head)@
                == old(head)@ + p.bytes(body@.len()) && final(tail)@ == old(tail)@ + body@,
            Err(e) => sized(p, Ok::<Seq<u8>, EncodeError>(body@), EncodeError::RangeError) == Err::<
                Seq<u8>,
                EncodeError,
            >(e),
        },
{
    if fixed || last {
        assert(head@ =~= old(head)@ + p.bytes(body@.len()));
    } else {
        if body.len() > 0xFFFF_FFFF {
            return Err(EncodeError::RangeError);
        }
        put_varint(body.len(), head);
    }
    append(tail, body);
    Ok(())
}

/// The bytes of a tuple of types `elems` whose members are `items`.
fn encode_tuple(elems: &Vec<TypeTree>, items: &Vec<Value>, Ghost(types): Ghost<Seq<TypeView>>) -> (r:
    Result<Vec<u8>, EncodeError>)
    requires
        items.len() == elems.len(),
        types.len() == elems.len(),
        forall|i: int| 0 <= i < elems.len() ==> types[i] == (#[trigger] elems[i])@,
        forall|i: int| 0 <= i < elems.len() ==> (#[trigger] types[i]).wf(),
    ensures
        match r {
            Ok(b) => join_members(
                member_prefixes(tuple_widths(types)),
                encode_members(types, items_view(items@)),
                EncodeError::RangeError,
            ) == Ok::<Seq<u8>, EncodeError>(b@),
            Err(e) => join_members(
                member_prefixes(tuple_widths(types)),
                encode_members(types, items_view(items@)),
                EncodeError::RangeError,
            ) == Err::<Seq<u8>, EncodeError>(e),
        },
    decreases elems, 1nat,
{
    let ghost ws = tuple_widths(types);
    let ghost ps = member_prefixes(ws);
    let ghost parts = encode_members(types, items_view(items@));
    let ghost checked = sized_all(ps, parts, EncodeError::RangeError);
    let mut head: Vec<u8> = Vec::new();
    let mut tail: Vec<u8> = Vec::new();
    let n = elems.len();
    let mut i: usize = 0;
    while i < n
        invariant
            0 <= i <= n,
            n == elems.len(),
            items.len() == elems.len(),
            types.len() == elems.len(),
            forall|i: int| 0 <= i < elems.len() ==> types[i] == (#[trigger] elems[i])@,
            forall|i: int| 0 <= i < elems.len() ==> (#[trigger] types[i]).wf(),
            ws == tuple_widths(types),
            ps == member_prefixes(ws),
            parts == encode_members(types, items_view(items@)),
            checked == sized_all(ps, parts, EncodeError::RangeError),
            forall|j: int| 0 <= j < i ==> (#[trigger] checked[j]) is Ok,
            head@ == concat(announce(ps, oks(parts)).take(i as int)),
            tail@ == concat(oks(parts).take(i as int)),
        decreases n - i,
    {
        assert(types[i as int].wf());
        assert(items_view(items@)[i as int] == items[i as int]@);
        let part = encode_value(&elems[i], &items[i]);
        assert(parts[i as int] == encode_spec(types[i as int], items[i as int]@));
        match part {
            Err(e) => {
                proof {
                    assert(checked[i as int] == Err::<Seq<u8>, EncodeError>(e));
                    lemma_first_err_at(checked, i as int);
                }
                return Err(e);
            },
            Ok(body) => {
                let fixed = parse_size(&elems[i]).is_some();
                let pushed = push_member(fixed, i == n - 1, &body, &mut head, &mut tail, Ghost(ps[i as int]));
                match pushed {
                    Err(e) => {
                        proof {
                            assert(checked[i as int] == Err::<Seq<u8>, EncodeError>(e));
                            lemma_first_err_at(checked, i as int);
                        }
                        return Err(e);
                    },
                    Ok(_) => {
                        proof {
                            assert(checked[i as int] is Ok);
                            lemma_concat_step(announce(ps, oks(parts)), i as int);
                            lemma_concat_step(oks(parts), i as int);
                        }
                    },
                }
            },
        }
        i += 1;
    }
    proof {
        lemma_first_err_none(checked);
        assert(announce(ps, oks(parts)).take(i as int) =~= announce(ps, oks(parts)));
        assert(oks(parts).take(i as int) =~= oks(parts));
    }
    append(&mut head, &tail);
    Ok(head)
}

/// Whether field `i` is the first of its name among `fields`.
fn is_first_of_name(fields: &Vec<(String, TypeTree)>, i: usize, Ghost(types): Ghost<
    Seq<(Seq<char>, TypeView)>,
>) -> (r: bool)
    requires
        i < fields.len(),
        types.len() == fields.len(),
        forall|j: int| 0 <= j < fields.len() ==> types[j].0 == (#[trigger] fields[j]).0@,
    ensures
        r == first_of_name(types, i as int),
{
    let mut j: usize = 0;
    while j < i
        invariant
            0 <= j <= i,
            i < fields.len(),
            types.len() == fields.len(),
            forall|j: int| 0 <= j < fields.len() ==> types[j].0 == (#[trigger] fields[j]).0@,
            forall|k: int| 0 <= k < j ==> (#[trigger] types[k]).0 != types[i as int].0,
        decreases i - j,
    {
        if str_eq(fields[j].0.as_str(), fields[i].0.as_str()) {
            assert(types[j as int].0 == types[i as int].0);
            return false;
        }
        j += 1;
    }
    true
}

/// Whether `fields` has a field of the name `name`.
fn is_field(fields: &Vec<(String, TypeTree)>, name: &str, Ghost(types): Ghost<
    Seq<(Seq<char>, TypeView)>,
>) -> (r: bool)
    requires
        types.len() == fields.len(),
        forall|j: int| 0 <= j < fields.len() ==> types[j].0 == (#[trigger] fields[j]).0@,
    ensures
        r == has_field(types, name@),
{
    let mut j: usize = 0;
    while j < fields.len()
        invariant
            0 <= j <= fields.len(),
            types.len() == fields.len(),
            forall|j: int| 0 <= j < fields.len() ==> types[j].0 == (#[trigger] fields[j]).0@,
            forall|k: int| 0 <= k < j ==> (#[trigger] types[k]).0 != name@,
        decreases fields.len() - j,
    {
        if str_eq(fields[j].0.as_str(), name) {
            assert(types[j as int].0 == name@);
            return true;
        }
        j += 1;
    }
    false
}

/// Whether every entry of the record is a field of `fields`.
fn has_no_stray_entry(fields: &Vec<(String, TypeTree)>, entries: &Vec<(String, Value)>, Ghost(types): Ghost<
    Seq<(Seq<char>, TypeView)>,
>) -> (r: bool)
    requires
        types.len() == fields.len(),
        forall|j: int| 0 <= j < fields.len() ==> types[j].0 == (#[trigger] fields[j]).0@,
    ensures
        r == no_stray_entry(types, map_of(entries_view(entries@))),
{
    let ghost pairs = entries_view(entries@);
    let mut k: usize = 0;
    while k < entries.len()
        invariant
            0 <= k <= entries.len(),
            types.len() == fields.len(),
            forall|j: int| 0 <= j < fields.len() ==> types[j].0 == (#[trigger] fields[j]).0@,
            pairs == entries_view(entries@),
            forall|j: int| 0 <= j < k ==> has_field(types, (#[trigger] pairs[j]).0),
        decreases entries.len() - k,
    {
        if !is_field(fields, entries[k].0.as_str(), Ghost(types)) {
            proof {
                lemma_map_of_contains(pairs, k as int);
                assert(map_of(pairs).contains_key(pairs[k as int].0));
            }
            return false;
        }
        k += 1;
    }
    proof {
        assert forall|name: Seq<char>| map_of(pairs).contains_key(name) implies has_field(types, name) by {
            lemma_map_of_domain(pairs, name);
            let i = choose|i: int| 0 <= i < pairs.len() && pairs[i].0 == name;
            assert(has_field(types, pairs[i].0));
        }
    }
    true
}

/// The bytes of a struct of fields `fields` from the record `entries`.
fn encode_struct(
    fields: &Vec<(String, TypeTree)>,
    entries: &Vec<(String, Value)>,
    Ghost(types): Ghost<Seq<(Seq<char>, TypeView)>>,
) -> (r: Result<Vec<u8>, EncodeError>)
    requires
        types.len() == fields.len(),
        forall|i: int| 0 <= i < fields.len() ==> types[i] == ((#[trigger] fields[i]).0@, fields[i].1@),
        forall|i: int| 0 <= i < fields.len() ==> (#[trigger] types[i]).1.wf(),
    ensures
        match r {
            Ok(b) => join_members(
                member_prefixes(field_widths(types)),
                encode_fields(types, map_of(entries_view(entries@))),
                EncodeError::RangeError,
            ) == Ok::<Seq<u8>, EncodeError>(b@) && no_stray_entry(types, map_of(entries_view(entries@))),
            Err(e) => match join_members(
                member_prefixes(field_widths(types)),
                encode_fields(types, map_of(entries_view(entries@))),
                EncodeError::RangeError,
            ) {
                Ok(_) => !no_stray_entry(types, map_of(entries_view(entries@))) && e
                    == EncodeError::TypeError,
                Err(first) => e == first,
            },
        },
    decreases fields, 1nat,
{
    let ghost m = map_of(entries_view(entries@));
    let ghost ws = field_widths(types);
    let ghost ps = member_prefixes(ws);
    let ghost parts = encode_fields(types, m);
    let ghost checked = sized_all(ps, parts, EncodeError::RangeError);
    let null = Value::Null;
    let mut head: Vec<u8> = Vec::new();
    let mut tail: Vec<u8> = Vec::new();
    let n = fields.len();
    let mut i: usize = 0;
    while i < n
        invariant
            0 <= i <= n,
            n == fields.len(),
            types.len() == fields.len(),
            forall|i: int| 0 <= i < fields.len() ==> types[i] == ((#[trigger] fields[i]).0@, fields[i].1@),
            forall|i: int| 0 <= i < fields.len() ==> (#[trigger] types[i]).1.wf(),
            m == map_of(entries_view(entries@)),
            ws == field_widths(types),
            ps == member_prefixes(ws),
            parts == encode_fields(types, m),
            checked == sized_all(ps, parts, EncodeError::RangeError),
            null@ == ValueView::Null,
            forall|j: int| 0 <= j < i ==> (#[trigger] checked[j]) is Ok,
            head@ == concat(announce(ps, oks(parts)).take(i as int)),
            tail@ == concat(oks(parts).take(i as int)),
        decreases n - i,
    {
        assert(types[i as int].1.wf());
        assert(types[i as int] == (fields[i as int].0@, fields[i as int].1@));
        let found = if is_first_of_name(fields, i, Ghost(types)) {
            find_entry(entries, fields[i].0.as_str())
        } else {
            None
        };
        let optional = match &fields[i].1 {
            TypeTree::Option { .. } => true,
            _ => false,
        };
        let supplied: Option<&Value> = match found {
            Some(k) => Some(&entries[k].1),
            None => if optional {
                Some(&null)
            } else {
                None
            },
        };
        assert(match supplied {
            Some(v) => field_value(types, i as int, m) == Some(v@),
            None => field_value(types, i as int, m) is None,
        });
        let part = match supplied {
            Some(v) => encode_value(&fields[i].1, v),
            None => Err(EncodeError::TypeError),
        };
        assert(parts[i as int] == match part {
            Ok(b) => Ok::<Seq<u8>, EncodeError>(b@),
            Err(e) => Err::<Seq<u8>, EncodeError>(e),
        });
        match part {
            Err(e) => {
                proof {
                    assert(checked[i as int] == Err::<Seq<u8>, EncodeError>(e));
                    lemma_first_err_at(checked, i as int);
                }
                return Err(e);
            },
            Ok(body) => {
                let fixed = parse_size(&fields[i].1).is_some();
                let pushed = push_member(fixed, i == n - 1, &body, &mut head, &mut tail, Ghost(ps[i as int]));
                match pushed {
                    Err(e) => {
                        proof {
                            assert(checked[i as int] == Err::<Seq<u8>, EncodeError>(e));
                            lemma_first_err_at(checked, i as int);
                        }
                        return Err(e);
                    },
                    Ok(_) => {
                        proof {
                            assert(checked[i as int] is Ok);
                            lemma_concat_step(announce(ps, oks(parts)), i as int);
                            lemma_concat_step(oks(parts), i as int);
                        }
                    },
                }
            },
        }
        i += 1;
    }
    proof {
        lemma_first_err_none(checked);
        assert(announce(ps, oks(parts)).take(i as int) =~= announce(ps, oks(parts)));
        assert(oks(parts).take(i as int) =~= oks(parts));
    }
    if !has_no_stray_entry(fields, entries, Ghost(types)) {
        return Err(EncodeError::TypeError);
    }
    append(&mut head, &tail);
    Ok(head)
}

} // verus!
