//! What holds of the codec for every type and every value.

use vstd::prelude::*;
use vstd::utf8::{char_is_scalar, char_u32_cast, encode_utf8_decode_utf8, encode_utf8_valid_utf8};
use crate::codec::frame::{
    announce, announced, array_prefix, array_prefixes, concat, element_slices, end_of_split,
    first_err, lemma_concat_empty, lemma_concat_len, lemma_first_err_all_ok, lemma_first_err_none,
    lemma_split_members_of_join, lemma_split_of_join, lemma_sum_widths_all, lemma_sum_widths_even,
    list_prefix, list_prefixes, member_prefixes, member_slices, oks, sized_all, split_elements,
    split_members, Prefix,
};
use crate::codec::model::{
    bytes_of, decode_each, decode_fields, decode_members, decode_spec, encode_each, encode_fields,
    encode_members, encode_spec, entries_of, field_value, first_of_name, has_field, numbers_of,
    values_of,
};
use crate::error::{DecodeError, EncodeError};
use crate::le::{
    le_value, lemma_int_of_rep_inverse, lemma_le_bytes_len, lemma_le_value_bound,
    lemma_le_value_of_bytes, lemma_pow256_values, lemma_twos_complement_inverse, pow256,
    twos_complement,
};
use crate::order::{order_from, order_spec};
use crate::tree::{field_widths, tuple_widths, TypeView};
use crate::value::{lemma_map_of_contains, lemma_map_of_domain, map_of, ValueView};
use crate::wire::{lemma_read_varint_of_varint, read_varint, varint};

verus! {

/// Width agreement: the encoding of a value of a type of fixed width is as
/// long as that width, whatever the value.
pub proof fn lemma_width_agreement(t: TypeView, v: ValueView)
    requires
        t.width() is Some,
        encode_spec(t, v) is Ok,
    ensures
        encode_spec(t, v)->Ok_0.len() == t.width()->0,
    decreases t,
{
    match t {
        TypeView::Bool => {},
        TypeView::Char => {
            lemma_le_bytes_len((v->String_0[0] as u32) as nat, 3);
        },
        TypeView::Int { signed, bytes } => {
            lemma_le_bytes_len(twos_complement(v->Int_0, bytes), bytes);
        },
        TypeView::Float { bytes } => {
            lemma_le_bytes_len(v->Float_pattern, bytes);
        },
        TypeView::String => {},
        TypeView::ByteSlice => {},
        TypeView::Array { elem, len } => {
            let items = v->Sequence_0;
            let w = elem.width()->0;
            let ps = array_prefixes(elem.width(), len);
            let parts = encode_each(*elem, items);
            let checked = sized_all(ps, parts, EncodeError::RangeError);
            lemma_first_err_all_ok(checked);
            let framed = announced(ps, oks(parts));
            let ws = Seq::new(len, |i: int| Some(w));
            assert forall|i: int| 0 <= i < framed.len() implies ws[i] == Some((#[trigger] framed[i]).len()) by {
                assert(checked[i] is Ok);
                lemma_width_agreement(*elem, items[i]);
                assert(framed[i] =~= parts[i]->Ok_0);
            }
            lemma_concat_len(framed, ws);
            lemma_sum_widths_even(w, len);
        },
        TypeView::Vec { .. } => {},
        TypeView::Option { inner } => {
            if !(v is Null) {
                lemma_width_agreement(*inner, v);
            }
        },
        TypeView::Tuple { elems } => {
            if v is Sequence {
                let items = v->Sequence_0;
                let ws = tuple_widths(elems);
                let ps = member_prefixes(ws);
                let parts = encode_members(elems, items);
                let checked = sized_all(ps, parts, EncodeError::RangeError);
                lemma_first_err_all_ok(checked);
                lemma_sum_widths_all(ws);
                let bodies = oks(parts);
                assert forall|i: int| 0 <= i < bodies.len() implies ws[i] == Some((#[trigger] bodies[i]).len()) by {
                    assert(checked[i] is Ok);
                    assert(ws[i] is Some);
                    lemma_width_agreement(elems[i], items[i]);
                }
                lemma_concat_len(bodies, ws);
                assert forall|i: int| 0 <= i < bodies.len() implies (#[trigger] announce(ps, bodies)[i]).len()
                    == 0 by {
                    assert(ws[i] is Some);
                }
                lemma_concat_empty(announce(ps, bodies));
            }
        },
        TypeView::Struct { fields, .. } => {
            let m = v->Record_0;
            let ws = field_widths(fields);
            let ps = member_prefixes(ws);
            let parts = encode_fields(fields, m);
            let checked = sized_all(ps, parts, EncodeError::RangeError);
            lemma_first_err_all_ok(checked);
            lemma_sum_widths_all(ws);
            let bodies = oks(parts);
            assert forall|i: int| 0 <= i < bodies.len() implies ws[i] == Some((#[trigger] bodies[i]).len()) by {
                assert(checked[i] is Ok);
                assert(ws[i] is Some);
                lemma_width_agreement(fields[i].1, field_value(fields, i, m)->0);
            }
            lemma_concat_len(bodies, ws);
            assert forall|i: int| 0 <= i < bodies.len() implies (#[trigger] announce(ps, bodies)[i]).len()
                == 0 by {
                assert(ws[i] is Some);
            }
            lemma_concat_empty(announce(ps, bodies));
        },
    }
}

/// Whether `v` is the one form in which a value of type `t` is decoded:
/// the unit tuple is `Null`, not the empty sequence; a record has an entry
/// for every field, also for an optional one, and `Null` for a name that
/// the struct has more than once; and the bit pattern of a float fits its
/// width.
pub open spec fn canonical(t: TypeView, v: ValueView) -> bool
    decreases t,
{
    match t {
        TypeView::Float { bytes } => match v {
            ValueView::Float { pattern, .. } => pattern < pow256(bytes),
            _ => true,
        },
        TypeView::Array { elem, .. } => match v {
            ValueView::Sequence(items) => forall|i: int|
                0 <= i < items.len() ==> canonical(*elem, #[trigger] items[i]),
            _ => true,
        },
        TypeView::Vec { elem } => match v {
            ValueView::Sequence(items) => forall|i: int|
                0 <= i < items.len() ==> canonical(*elem, #[trigger] items[i]),
            _ => true,
        },
        TypeView::Option { inner } => v is Null || canonical(*inner, v),
        TypeView::Tuple { elems } => match v {
            ValueView::Null => true,
            ValueView::Sequence(items) => elems.len() > 0 && forall|i: int|
                0 <= i < elems.len() ==> canonical(#[trigger] elems[i], items[i]),
            _ => true,
        },
        TypeView::Struct { fields, .. } => match v {
            ValueView::Record(m) => forall|i: int|
                0 <= i < fields.len() ==> m.contains_key((#[trigger] fields[i]).0) && if first_of_name(
                    fields,
                    i,
                ) {
                    canonical(fields[i].1, m[fields[i].0])
                } else {
                    m[fields[i].0] is Null
                },
            _ => true,
        },
        _ => true,
    }
}

/// Whether `b` is what the encoder writes for some value of type `t`.
pub open spec fn well_framed(t: TypeView, b: Seq<u8>) -> bool {
    exists|v: ValueView| canonical(t, v) && #[trigger] encode_spec(t, v) == Ok::<Seq<u8>, EncodeError>(b)
}

/// The elements of an array or vector that were encoded are cut out of
/// the layout again, and nothing is left over.
proof fn lemma_elements_cut(elem: TypeView, items: Seq<ValueView>, p: Prefix, pre: Seq<u8>)
    requires
        elem.width() is Some <==> p is Absent,
        first_err(sized_all(Seq::new(items.len(), |i: int| p), encode_each(elem, items), EncodeError::RangeError))
            is None,
    ensures
        ({
            let ps = Seq::new(items.len(), |i: int| p);
            let b = pre + concat(announced(ps, oks(encode_each(elem, items))));
            &&& forall|i: int| 0 <= i < items.len() ==> (#[trigger] encode_spec(elem, items[i])) is Ok
            &&& forall|i: int|
                0 <= i < items.len() ==> (#[trigger] element_slices(elem.width(), p, b, pre.len(), items.len())[i])
                    == Some(encode_spec(elem, items[i])->Ok_0)
            &&& end_of_split(split_elements(elem.width(), p, b, pre.len(), items.len())) == Some(b.len())
        }),
{
    let n = items.len();
    let w = elem.width();
    let ps = Seq::new(n, |i: int| p);
    let parts = encode_each(elem, items);
    let checked = sized_all(ps, parts, EncodeError::RangeError);
    let bodies = oks(parts);
    let framed = announced(ps, bodies);
    let b = pre + concat(framed);
    let slices = element_slices(w, p, b, pre.len(), n);
    lemma_first_err_all_ok(checked);
    assert forall|i: int| 0 <= i < items.len() implies (#[trigger] encode_spec(elem, items[i])) is Ok by {
        assert(checked[i] is Ok);
    }
    assert forall|i: int| 0 <= i < bodies.len() implies match w {
        Some(n) => (#[trigger] bodies[i]).len() == n,
        None => bodies[i].len() <= u32::MAX,
    } by {
        assert(checked[i] is Ok);
        assert(bodies[i] == encode_spec(elem, items[i])->Ok_0);
        if w is Some {
            lemma_width_agreement(elem, items[i]);
        }
    }
    assert forall|k: nat| k <= n implies split_elements(w, p, b, pre.len(), k) == Some(
        (bodies.take(k as int), pre.len() + concat(framed.take(k as int)).len()),
    ) by {
        lemma_split_of_join(w, p, pre, bodies, k);
    }
    assert forall|i: int| 0 <= i < n implies (#[trigger] slices[i]) == Some(
        encode_spec(elem, items[i])->Ok_0,
    ) by {
        let k = (i + 1) as nat;
        assert(split_elements(w, p, b, pre.len(), k) is Some);
        assert(bodies.take(k as int)[i] == bodies[i]);
        assert(bodies[i] == encode_spec(elem, items[i])->Ok_0);
    }
    assert(split_elements(w, p, b, pre.len(), n) is Some);
    assert(framed.take(n as int) =~= framed);
}

/// The elements of an array or vector that were encoded are decoded again.
proof fn lemma_elements_round_trip(elem: TypeView, items: Seq<ValueView>, p: Prefix, pre: Seq<u8>)
    requires
        elem.width() is Some <==> p is Absent,
        first_err(sized_all(Seq::new(items.len(), |i: int| p), encode_each(elem, items), EncodeError::RangeError))
            is None,
        forall|i: int|
            0 <= i < items.len() ==> #[trigger] decode_spec(elem, encode_spec(elem, items[i])->Ok_0) == Ok::<
                (ValueView, nat),
                DecodeError,
            >((items[i], encode_spec(elem, items[i])->Ok_0.len())),
    ensures
        ({
            let ps = Seq::new(items.len(), |i: int| p);
            let b = pre + concat(announced(ps, oks(encode_each(elem, items))));
            let rs = decode_each(elem, element_slices(elem.width(), p, b, pre.len(), items.len()));
            &&& first_err(rs) is None
            &&& values_of(rs) == items
            &&& end_of_split(split_elements(elem.width(), p, b, pre.len(), items.len())) == Some(b.len())
        }),
{
    let n = items.len();
    let ps = Seq::new(n, |i: int| p);
    let b = pre + concat(announced(ps, oks(encode_each(elem, items))));
    let slices = element_slices(elem.width(), p, b, pre.len(), n);
    let rs = decode_each(elem, slices);
    lemma_elements_cut(elem, items, p, pre);
    assert forall|i: int| 0 <= i < n implies (#[trigger] rs[i]) == Ok::<(ValueView, nat), DecodeError>(
        (items[i], encode_spec(elem, items[i])->Ok_0.len()),
    ) by {
        assert(slices[i] == Some(encode_spec(elem, items[i])->Ok_0));
        assert(decode_spec(elem, encode_spec(elem, items[i])->Ok_0) == Ok::<(ValueView, nat), DecodeError>(
            (items[i], encode_spec(elem, items[i])->Ok_0.len()),
        ));
    }
    lemma_first_err_none(rs);
    assert(values_of(rs) =~= items);
}

/// Round trip for the types that hold no other type.
proof fn lemma_leaf_round_trip(t: TypeView, v: ValueView)
    requires
        t is Bool || t is Char || t is Int || t is Float || t is String || t is ByteSlice,
        canonical(t, v),
        encode_spec(t, v) is Ok,
    ensures
        decode_spec(t, encode_spec(t, v)->Ok_0) == Ok::<(ValueView, nat), DecodeError>(
            (v, encode_spec(t, v)->Ok_0.len()),
        ),
{
    let b = encode_spec(t, v)->Ok_0;
    match t {
        TypeView::Bool => {},
        TypeView::Char => {
            let s = v->String_0;
            let c = s[0];
            let code = c as u32;
            lemma_pow256_values();
            char_is_scalar(c);
            char_u32_cast(c, code);
            lemma_le_bytes_len(code as nat, 3);
            lemma_le_value_of_bytes(code as nat, 3);
            assert(b.subrange(0, 3) =~= b);
            assert(seq![code as char] =~= s);
        },
        TypeView::Int { signed, bytes } => {
            let n = v->Int_0;
            lemma_pow256_values();
            lemma_le_bytes_len(twos_complement(n, bytes), bytes);
            if bytes >= 1 {
                lemma_twos_complement_inverse(n, signed, bytes);
            }
            lemma_le_value_of_bytes(twos_complement(n, bytes), bytes);
            assert(b.subrange(0, bytes as int) =~= b);
        },
        TypeView::Float { bytes } => {
            lemma_le_bytes_len(v->Float_pattern, bytes);
            lemma_le_value_of_bytes(v->Float_pattern, bytes);
            assert(b.subrange(0, bytes as int) =~= b);
        },
        TypeView::String => {
            encode_utf8_valid_utf8(v->String_0);
            encode_utf8_decode_utf8(v->String_0);
        },
        TypeView::ByteSlice => {
            let items = v->Sequence_0;
            lemma_first_err_all_ok(bytes_of(items));
            assert forall|i: int| 0 <= i < items.len() implies numbers_of(b)[i] == #[trigger] items[i] by {
                assert(bytes_of(items)[i] is Ok);
            }
            assert(numbers_of(b) =~= items);
        },
        _ => {},
    }
}

/// The members of a tuple or struct that were encoded are cut out of the
/// layout again.
proof fn lemma_members_cut(ws: Seq<Option<nat>>, parts: Seq<Result<Seq<u8>, EncodeError>>)
    requires
        parts.len() == ws.len(),
        first_err(sized_all(member_prefixes(ws), parts, EncodeError::RangeError)) is None,
        forall|i: int| 0 <= i < ws.len() && ws[i] is Some ==> (#[trigger] parts[i])->Ok_0.len() == ws[i]->0,
    ensures
        ({
            let ps = member_prefixes(ws);
            let b = concat(announce(ps, oks(parts))) + concat(oks(parts));
            &&& forall|i: int| 0 <= i < ws.len() ==> (#[trigger] parts[i]) is Ok
            &&& forall|i: int| 0 <= i < ws.len() ==> (#[trigger] member_slices(ws, b)[i]) == Some(parts[i]->Ok_0)
            &&& end_of_split(split_members(ws, b, ws.len())) == Some(b.len())
        }),
{
    let ps = member_prefixes(ws);
    let checked = sized_all(ps, parts, EncodeError::RangeError);
    let bodies = oks(parts);
    lemma_first_err_all_ok(checked);
    assert forall|i: int| 0 <= i < ws.len() implies (#[trigger] parts[i]) is Ok by {
        assert(checked[i] is Ok);
    }
    assert forall|i: int| 0 <= i < bodies.len() implies match #[trigger] ws[i] {
        Some(n) => bodies[i].len() == n,
        None => i == bodies.len() - 1 || bodies[i].len() <= u32::MAX,
    } by {
        assert(checked[i] is Ok);
        assert(parts[i] is Ok);
    }
    lemma_split_members_of_join(ws, bodies);
}

/// Round trip, from the value: a value in its canonical form that the
/// encoder accepts is what the decoder reads from its bytes, and the
/// decoder reads all of them.
pub proof fn lemma_decode_of_encode(t: TypeView, v: ValueView)
    requires
        canonical(t, v),
        encode_spec(t, v) is Ok,
    ensures
        decode_spec(t, encode_spec(t, v)->Ok_0) == Ok::<(ValueView, nat), DecodeError>(
            (v, encode_spec(t, v)->Ok_0.len()),
        ),
    decreases t, 0nat,
{
    let b = encode_spec(t, v)->Ok_0;
    match t {
        TypeView::Array { elem, len } => {
            let items = v->Sequence_0;
            let p = array_prefix(elem.width());
            assert(array_prefixes(elem.width(), len) =~= Seq::new(items.len(), |i: int| p));
            lemma_each_round_trip(*elem, items, p);
            lemma_elements_round_trip(*elem, items, p, Seq::empty());
            let framed = announced(Seq::new(items.len(), |i: int| p), oks(encode_each(*elem, items)));
            assert(Seq::<u8>::empty() + concat(framed) =~= b);
        },
        TypeView::Vec { elem } => {
            let items = v->Sequence_0;
            let p = list_prefix(elem.width());
            assert(list_prefixes(elem.width(), items.len()) =~= Seq::new(items.len(), |i: int| p));
            lemma_each_round_trip(*elem, items, p);
            let count = varint(items.len());
            let framed = announced(Seq::new(items.len(), |i: int| p), oks(encode_each(*elem, items)));
            lemma_read_varint_of_varint(items.len(), concat(framed));
            lemma_elements_round_trip(*elem, items, p, count);
        },
        TypeView::Option { inner } => {
            if v is Null {
                let pad = match inner.width() {
                    Some(w) => w,
                    None => 0,
                };
                assert(b.len() == 1 + pad);
            } else {
                lemma_decode_of_encode(*inner, v);
                let body = encode_spec(*inner, v)->Ok_0;
                assert(b.subrange(1, b.len() as int) =~= body);
            }
        },
        TypeView::Tuple { elems } => {
            let ws = tuple_widths(elems);
            if v is Sequence {
                let items = v->Sequence_0;
                let parts = encode_members(elems, items);
                assert forall|i: int| 0 <= i < ws.len() && ws[i] is Some implies (#[trigger] parts[i])->Ok_0.len()
                    == ws[i]->0 by {
                    lemma_first_err_all_ok(sized_all(member_prefixes(ws), parts, EncodeError::RangeError));
                    assert(sized_all(member_prefixes(ws), parts, EncodeError::RangeError)[i] is Ok);
                    lemma_width_agreement(elems[i], items[i]);
                }
                lemma_members_cut(ws, parts);
                let rs = decode_members(elems, member_slices(ws, b));
                assert forall|i: int| 0 <= i < elems.len() implies (#[trigger] rs[i]) == Ok::<
                    (ValueView, nat),
                    DecodeError,
                >((items[i], parts[i]->Ok_0.len())) by {
                    assert(parts[i] is Ok);
                    assert(member_slices(ws, b)[i] == Some(parts[i]->Ok_0));
                    lemma_decode_of_encode(elems[i], items[i]);
                }
                lemma_first_err_none(rs);
                assert(values_of(rs) =~= items);
            } else {
                let rs = decode_members(elems, member_slices(ws, b));
                lemma_first_err_none(rs);
            }
        },
        TypeView::Struct { fields, .. } => {
            let m = v->Record_0;
            let ws = field_widths(fields);
            let parts = encode_fields(fields, m);
            let checked = sized_all(member_prefixes(ws), parts, EncodeError::RangeError);
            lemma_first_err_all_ok(checked);
            assert forall|i: int| 0 <= i < fields.len() implies (#[trigger] field_value(fields, i, m)) is Some
                && canonical(fields[i].1, field_value(fields, i, m)->0) && encode_spec(
                fields[i].1,
                field_value(fields, i, m)->0,
            ) is Ok by {
                assert(checked[i] is Ok);
                assert(m.contains_key(fields[i].0));
            }
            assert forall|i: int| 0 <= i < ws.len() && ws[i] is Some implies (#[trigger] parts[i])->Ok_0.len()
                == ws[i]->0 by {
                assert(field_value(fields, i, m) is Some);
                lemma_width_agreement(fields[i].1, field_value(fields, i, m)->0);
            }
            lemma_members_cut(ws, parts);
            let rs = decode_fields(fields, member_slices(ws, b));
            assert forall|i: int| 0 <= i < fields.len() implies (#[trigger] rs[i]) == Ok::<
                (ValueView, nat),
                DecodeError,
            >((field_value(fields, i, m)->0, parts[i]->Ok_0.len())) by {
                assert(parts[i] is Ok);
                assert(field_value(fields, i, m) is Some);
                assert(member_slices(ws, b)[i] == Some(parts[i]->Ok_0));
                lemma_decode_of_encode(fields[i].1, field_value(fields, i, m)->0);
            }
            lemma_first_err_none(rs);
            assert forall|i: int| 0 <= i < fields.len() implies (#[trigger] values_of(rs)[i]) == m[fields[i].0] by {
                assert(rs[i] is Ok);
                assert(field_value(fields, i, m) is Some);
            }
            lemma_record_rebuilt(fields, m, values_of(rs));
        },
        _ => {
            lemma_leaf_round_trip(t, v);
        },
    }
}

/// Each element of an array or vector that was encoded is decoded again.
proof fn lemma_each_round_trip(elem: TypeView, items: Seq<ValueView>, p: Prefix)
    requires
        forall|i: int| 0 <= i < items.len() ==> canonical(elem, #[trigger] items[i]),
        first_err(sized_all(Seq::new(items.len(), |i: int| p), encode_each(elem, items), EncodeError::RangeError))
            is None,
    ensures
        forall|i: int|
            0 <= i < items.len() ==> #[trigger] decode_spec(elem, encode_spec(elem, items[i])->Ok_0) == Ok::<
                (ValueView, nat),
                DecodeError,
            >((items[i], encode_spec(elem, items[i])->Ok_0.len())),
    decreases elem, 1nat,
{
    let checked = sized_all(Seq::new(items.len(), |i: int| p), encode_each(elem, items), EncodeError::RangeError);
    lemma_first_err_all_ok(checked);
    assert forall|i: int| 0 <= i < items.len() implies #[trigger] decode_spec(
        elem,
        encode_spec(elem, items[i])->Ok_0,
    ) == Ok::<(ValueView, nat), DecodeError>((items[i], encode_spec(elem, items[i])->Ok_0.len())) by {
        assert(checked[i] is Ok);
        lemma_decode_of_encode(elem, items[i]);
    }
}

/// Among fields of which one has the name `name`, one is the last of that
/// name.
proof fn lemma_last_of_name(fields: Seq<(Seq<char>, TypeView)>, name: Seq<char>, n: int) -> (last: int)
    requires
        0 <= n <= fields.len(),
        exists|i: int| 0 <= i < n && (#[trigger] fields[i]).0 == name,
    ensures
        0 <= last < n,
        fields[last].0 == name,
        forall|j: int| last < j < n ==> (#[trigger] fields[j]).0 != name,
    decreases n,
{
    if fields[n - 1].0 == name {
        n - 1
    } else {
        let i = choose|i: int| 0 <= i < n && (#[trigger] fields[i]).0 == name;
        assert(0 <= i < n - 1 && fields[i].0 == name);
        lemma_last_of_name(fields, name, n - 1)
    }
}

/// The record that is built from the values of the fields of a struct is
/// the record that they were taken from.
proof fn lemma_record_rebuilt(fields: Seq<(Seq<char>, TypeView)>, m: Map<Seq<char>, ValueView>, values: Seq<
    ValueView,
>)
    requires
        values.len() == fields.len(),
        forall|i: int| 0 <= i < fields.len() ==> m.contains_key((#[trigger] fields[i]).0) && values[i] == m[fields[i].0],
        forall|name: Seq<char>| m.contains_key(name) ==> has_field(fields, name),
    ensures
        map_of(entries_of(fields, values)) == m,
{
    let entries = entries_of(fields, values);
    let back = map_of(entries);
    assert forall|name: Seq<char>| back.contains_key(name) <==> m.contains_key(name) by {
        if back.contains_key(name) {
            lemma_map_of_domain(entries, name);
            let i = choose|i: int| 0 <= i < entries.len() && entries[i].0 == name;
            assert(m.contains_key(fields[i].0));
        }
        if m.contains_key(name) {
            assert(has_field(fields, name));
            let i = choose|i: int| 0 <= i < fields.len() && (#[trigger] fields[i]).0 == name;
            lemma_map_of_contains(entries, i);
        }
    }
    assert forall|name: Seq<char>| m.contains_key(name) implies back[name] == m[name] by {
        assert(has_field(fields, name));
        let last = lemma_last_of_name(fields, name, fields.len() as int);
        assert forall|j: int| last < j < entries.len() implies entries[j].0 != entries[last].0 by {
            assert(fields[j].0 != name);
        }
        lemma_map_of_contains(entries, last);
    }
    assert(back =~= m);
}

/// Whether the value `v` of type `t` comes back from its bytes as it went.
pub open spec fn round_trips(t: TypeView, v: ValueView) -> bool {
    encode_spec(t, v) matches Ok(b) && decode_spec(t, b) matches Ok((w, _)) && w == v
}

/// `Null` is in canonical form for every type.
proof fn lemma_canonical_null(t: TypeView)
    ensures
        canonical(t, ValueView::Null),
{
}

/// The elements of an array or vector that comes back as it went come
/// back as they went.
proof fn lemma_elements_came_back(elem: TypeView, items: Seq<ValueView>, p: Prefix, pre: Seq<u8>)
    requires
        elem.width() is Some <==> p is Absent,
        first_err(sized_all(Seq::new(items.len(), |i: int| p), encode_each(elem, items), EncodeError::RangeError))
            is None,
        ({
            let ps = Seq::new(items.len(), |i: int| p);
            let b = pre + concat(announced(ps, oks(encode_each(elem, items))));
            let rs = decode_each(elem, element_slices(elem.width(), p, b, pre.len(), items.len()));
            first_err(rs) is None && values_of(rs) == items
        }),
    ensures
        forall|i: int| 0 <= i < items.len() ==> round_trips(elem, #[trigger] items[i]),
{
    let ps = Seq::new(items.len(), |i: int| p);
    let b = pre + concat(announced(ps, oks(encode_each(elem, items))));
    let slices = element_slices(elem.width(), p, b, pre.len(), items.len());
    let rs = decode_each(elem, slices);
    lemma_elements_cut(elem, items, p, pre);
    lemma_first_err_all_ok(rs);
    assert forall|i: int| 0 <= i < items.len() implies round_trips(elem, #[trigger] items[i]) by {
        assert(encode_spec(elem, items[i]) is Ok);
        assert(slices[i] == Some(encode_spec(elem, items[i])->Ok_0));
        assert(rs[i] is Ok);
        assert(values_of(rs)[i] == items[i]);
    }
}

/// The members of a tuple or struct that were encoded are cut out of the
/// layout again, whatever their values.
proof fn lemma_members_cut_any(ws: Seq<Option<nat>>, types: Seq<TypeView>, values: Seq<ValueView>, parts: Seq<
    Result<Seq<u8>, EncodeError>,
>)
    requires
        parts.len() == ws.len(),
        types.len() == ws.len(),
        values.len() == ws.len(),
        forall|i: int| 0 <= i < ws.len() ==> ws[i] == (#[trigger] types[i]).width(),
        forall|i: int| 0 <= i < ws.len() ==> (#[trigger] parts[i]) == encode_spec(types[i], values[i]),
        first_err(sized_all(member_prefixes(ws), parts, EncodeError::RangeError)) is None,
    ensures
        ({
            let ps = member_prefixes(ws);
            let b = concat(announce(ps, oks(parts))) + concat(oks(parts));
            &&& forall|i: int| 0 <= i < ws.len() ==> (#[trigger] parts[i]) is Ok
            &&& forall|i: int| 0 <= i < ws.len() ==> (#[trigger] member_slices(ws, b)[i]) == Some(parts[i]->Ok_0)
            &&& end_of_split(split_members(ws, b, ws.len())) == Some(b.len())
        }),
{
    let checked = sized_all(member_prefixes(ws), parts, EncodeError::RangeError);
    lemma_first_err_all_ok(checked);
    assert forall|i: int| 0 <= i < ws.len() && ws[i] is Some implies (#[trigger] parts[i])->Ok_0.len() == ws[i]->0 by {
        assert(checked[i] is Ok);
        assert(ws[i] == types[i].width());
        lemma_width_agreement(types[i], values[i]);
    }
    lemma_members_cut(ws, parts);
}

/// Exactness of the canonical form: a value that comes back from its
/// bytes as it went is in canonical form. With
/// [`lemma_decode_of_encode`], the values that the round trip holds of are
/// the values in canonical form that the encoder accepts, and no others.
pub proof fn lemma_round_trip_is_canonical(t: TypeView, v: ValueView)
    requires
        round_trips(t, v),
    ensures
        canonical(t, v),
    decreases t, 0nat,
{
    let b = encode_spec(t, v)->Ok_0;
    match t {
        TypeView::Float { bytes } => {
            lemma_le_bytes_len(v->Float_pattern, bytes);
            assert(b.subrange(0, bytes as int) =~= b);
            lemma_le_value_bound(b);
        },
        TypeView::Array { elem, len } => {
            let items = v->Sequence_0;
            let p = array_prefix(elem.width());
            assert(array_prefixes(elem.width(), len) =~= Seq::new(items.len(), |i: int| p));
            let framed = announced(Seq::new(items.len(), |i: int| p), oks(encode_each(*elem, items)));
            assert(Seq::<u8>::empty() + concat(framed) =~= b);
            lemma_elements_came_back(*elem, items, p, Seq::empty());
            assert forall|i: int| 0 <= i < items.len() implies canonical(*elem, #[trigger] items[i]) by {
                assert(round_trips(*elem, items[i]));
                lemma_round_trip_is_canonical(*elem, items[i]);
            }
        },
        TypeView::Vec { elem } => {
            let items = v->Sequence_0;
            let p = list_prefix(elem.width());
            assert(list_prefixes(elem.width(), items.len()) =~= Seq::new(items.len(), |i: int| p));
            let framed = announced(Seq::new(items.len(), |i: int| p), oks(encode_each(*elem, items)));
            lemma_read_varint_of_varint(items.len(), concat(framed));
            lemma_elements_came_back(*elem, items, p, varint(items.len()));
            assert forall|i: int| 0 <= i < items.len() implies canonical(*elem, #[trigger] items[i]) by {
                assert(round_trips(*elem, items[i]));
                lemma_round_trip_is_canonical(*elem, items[i]);
            }
        },
        TypeView::Option { inner } => {
            if !(v is Null) {
                let body = encode_spec(*inner, v)->Ok_0;
                assert(b.subrange(1, b.len() as int) =~= body);
                lemma_round_trip_is_canonical(*inner, v);
            }
        },
        TypeView::Tuple { elems } => {
            if v is Sequence {
                let items = v->Sequence_0;
                let ws = tuple_widths(elems);
                let parts = encode_members(elems, items);
                lemma_members_cut_any(ws, elems, items, parts);
                let rs = decode_members(elems, member_slices(ws, b));
                lemma_first_err_all_ok(rs);
                assert forall|i: int| 0 <= i < elems.len() implies canonical(#[trigger] elems[i], items[i]) by {
                    assert(parts[i] is Ok);
                    assert(member_slices(ws, b)[i] == Some(parts[i]->Ok_0));
                    assert(rs[i] is Ok);
                    assert(values_of(rs)[i] == items[i]);
                    lemma_round_trip_is_canonical(elems[i], items[i]);
                }
            }
        },
        TypeView::Struct { fields, .. } => {
            let m = v->Record_0;
            let ws = field_widths(fields);
            let parts = encode_fields(fields, m);
            let checked = sized_all(member_prefixes(ws), parts, EncodeError::RangeError);
            lemma_first_err_all_ok(checked);
            assert forall|i: int| 0 <= i < fields.len() implies (#[trigger] field_value(fields, i, m)) is Some by {
                assert(checked[i] is Ok);
            }
            let types = Seq::new(fields.len(), |i: int| fields[i].1);
            let given = Seq::new(fields.len(), |i: int| field_value(fields, i, m)->0);
            assert forall|i: int| 0 <= i < ws.len() implies (#[trigger] parts[i]) == encode_spec(types[i], given[i]) by {
                assert(field_value(fields, i, m) is Some);
            }
            lemma_members_cut_any(ws, types, given, parts);
            let rs = decode_fields(fields, member_slices(ws, b));
            lemma_first_err_all_ok(rs);
            let taken = values_of(rs);
            let entries = entries_of(fields, taken);
            assert(map_of(entries) == m);
            // what was read for a field is what its member was decoded to
            assert forall|i: int| 0 <= i < fields.len() implies (#[trigger] rs[i]) == decode_spec(
                fields[i].1,
                encode_spec(fields[i].1, given[i])->Ok_0,
            ) by {
                assert(parts[i] is Ok);
                assert(member_slices(ws, b)[i] == Some(parts[i]->Ok_0));
            }
            // a field that is not the first of its name was read as null
            assert forall|i: int| 0 <= i < fields.len() && !first_of_name(fields, i) implies (#[trigger] taken[i])
                is Null by {
                assert(field_value(fields, i, m) is Some);
                assert(given[i] is Null);
                lemma_canonical_null(fields[i].1);
                assert(parts[i] is Ok);
                lemma_decode_of_encode(fields[i].1, ValueView::Null);
                assert(rs[i] is Ok);
            }
            assert forall|i: int| 0 <= i < fields.len() implies m.contains_key((#[trigger] fields[i]).0) && if first_of_name(
                fields,
                i,
            ) {
                canonical(fields[i].1, m[fields[i].0])
            } else {
                m[fields[i].0] is Null
            } by {
                let name = fields[i].0;
                lemma_map_of_contains(entries, i);
                assert(has_field(fields, name));
                let last = lemma_last_of_name(fields, name, fields.len() as int);
                assert forall|j: int| last < j < entries.len() implies entries[j].0 != entries[last].0 by {
                    assert(fields[j].0 != name);
                }
                lemma_map_of_contains(entries, last);
                assert(m[name] == taken[last]);
                if last != i {
                    // the name is there more than once, and the last of it is not the first
                    assert(i < last);
                    assert(!first_of_name(fields, last)) by {
                        assert(fields[i].0 == fields[last].0);
                    }
                    assert(taken[last] is Null);
                    lemma_canonical_null(fields[i].1);
                } else if first_of_name(fields, i) {
                    assert(given[i] == m[name]);
                    assert(rs[i] is Ok);
                    assert(taken[i] == rs[i]->Ok_0.0);
                    assert(parts[i] is Ok);
                    lemma_round_trip_is_canonical(fields[i].1, m[name]);
                }
            }
        },
        _ => {},
    }
}

/// Round trip, exactly: a value comes back from its bytes as it went just
/// where the encoder accepts it and it is in canonical form.
pub proof fn lemma_round_trip_exactly(t: TypeView, v: ValueView)
    ensures
        round_trips(t, v) <==> encode_spec(t, v) is Ok && canonical(t, v),
{
    if round_trips(t, v) {
        lemma_round_trip_is_canonical(t, v);
    }
    if encode_spec(t, v) is Ok && canonical(t, v) {
        lemma_decode_of_encode(t, v);
    }
}

/// Round trip, from the bytes: what the encoder writes for a value in its
/// canonical form is decoded, and encoding what was decoded writes the
/// same bytes.
pub proof fn lemma_encode_of_decode(t: TypeView, b: Seq<u8>)
    requires
        well_framed(t, b),
    ensures
        decode_spec(t, b) is Ok,
        decode_spec(t, b)->Ok_0.1 == b.len(),
        encode_spec(t, decode_spec(t, b)->Ok_0.0) == Ok::<Seq<u8>, EncodeError>(b),
{
    let v = choose|v: ValueView| canonical(t, v) && #[trigger] encode_spec(t, v) == Ok::<Seq<u8>, EncodeError>(b);
    lemma_decode_of_encode(t, v);
}

/// A buffer is well framed just where it decodes to a value in canonical
/// form that is encoded as the buffer: whether it is can be found out by
/// decoding it.
pub proof fn lemma_well_framed_decodes(t: TypeView, b: Seq<u8>)
    ensures
        well_framed(t, b) <==> decode_spec(t, b) is Ok && canonical(t, decode_spec(t, b)->Ok_0.0) && encode_spec(
            t,
            decode_spec(t, b)->Ok_0.0,
        ) == Ok::<Seq<u8>, EncodeError>(b),
{
    if well_framed(t, b) {
        let v = choose|v: ValueView| canonical(t, v) && #[trigger] encode_spec(t, v) == Ok::<Seq<u8>, EncodeError>(b);
        lemma_decode_of_encode(t, v);
    }
}

/// Sequences whose members at each place have an order have one.
proof fn lemma_order_from_some(a: Seq<ValueView>, b: Seq<ValueView>, i: int)
    requires
        0 <= i,
        forall|j: int| i <= j < a.len() && j < b.len() ==> order_spec(#[trigger] a[j], b[j]) is Some,
    ensures
        order_from(a, b, i) is Some,
    decreases a.len() - i,
{
    if i < a.len() && i < b.len() {
        assert(order_spec(a[i], b[i]) is Some);
        lemma_order_from_some(a, b, i + 1);
    }
}

/// The elements of two arrays or vectors of one orderable type have an order.
proof fn lemma_each_comparable(elem: TypeView, sa: Seq<Option<Seq<u8>>>, sb: Seq<Option<Seq<u8>>>)
    requires
        elem.wf(),
        elem.orderable(),
        first_err(decode_each(elem, sa)) is None,
        first_err(decode_each(elem, sb)) is None,
    ensures
        order_from(values_of(decode_each(elem, sa)), values_of(decode_each(elem, sb)), 0) is Some,
    decreases elem, 1nat,
{
    let ra = decode_each(elem, sa);
    let rb = decode_each(elem, sb);
    lemma_first_err_all_ok(ra);
    lemma_first_err_all_ok(rb);
    assert forall|j: int| 0 <= j < values_of(ra).len() && j < values_of(rb).len() implies order_spec(
        #[trigger] values_of(ra)[j],
        values_of(rb)[j],
    ) is Some by {
        assert(ra[j] is Ok);
        assert(rb[j] is Ok);
        lemma_decoded_comparable(elem, sa[j]->0, sb[j]->0);
    }
    lemma_order_from_some(values_of(ra), values_of(rb), 0);
}

/// Totality on an orderable type: any two values that are decoded under
/// one orderable type have an order.
pub proof fn lemma_decoded_comparable(t: TypeView, a: Seq<u8>, b: Seq<u8>)
    requires
        t.wf(),
        t.orderable(),
        decode_spec(t, a) is Ok,
        decode_spec(t, b) is Ok,
    ensures
        order_spec(decode_spec(t, a)->Ok_0.0, decode_spec(t, b)->Ok_0.0) is Some,
    decreases t, 0nat,
{
    match t {
        TypeView::Int { signed, bytes } => {
            lemma_pow256_values();
            lemma_le_value_bound(a.subrange(0, bytes as int));
            lemma_le_value_bound(b.subrange(0, bytes as int));
            lemma_int_of_rep_inverse(le_value(a.subrange(0, bytes as int)), signed, bytes);
            lemma_int_of_rep_inverse(le_value(b.subrange(0, bytes as int)), signed, bytes);
        },
        TypeView::ByteSlice => {
            lemma_order_from_some(numbers_of(a), numbers_of(b), 0);
        },
        TypeView::Array { elem, len } => {
            let p = array_prefix(elem.width());
            lemma_each_comparable(
                *elem,
                element_slices(elem.width(), p, a, 0, len),
                element_slices(elem.width(), p, b, 0, len),
            );
        },
        TypeView::Vec { elem } => {
            let p = list_prefix(elem.width());
            let (na, ua) = read_varint(a)->0;
            let (nb, ub) = read_varint(b)->0;
            lemma_each_comparable(
                *elem,
                element_slices(elem.width(), p, a, ua, na),
                element_slices(elem.width(), p, b, ub, nb),
            );
        },
        TypeView::Option { inner } => {
            if a[0] == 1 && b[0] == 1 {
                lemma_decoded_comparable(*inner, a.subrange(1, a.len() as int), b.subrange(1, b.len() as int));
            }
        },
        TypeView::Tuple { elems } => {
            let ws = tuple_widths(elems);
            let ra = decode_members(elems, member_slices(ws, a));
            let rb = decode_members(elems, member_slices(ws, b));
            lemma_first_err_all_ok(ra);
            lemma_first_err_all_ok(rb);
            assert forall|j: int| 0 <= j < values_of(ra).len() && j < values_of(rb).len() implies order_spec(
                #[trigger] values_of(ra)[j],
                values_of(rb)[j],
            ) is Some by {
                assert(ra[j] is Ok);
                assert(rb[j] is Ok);
                assert(elems[j].wf());
                assert(elems[j].orderable());
                lemma_decoded_comparable(elems[j], member_slices(ws, a)[j]->0, member_slices(ws, b)[j]->0);
            }
            lemma_order_from_some(values_of(ra), values_of(rb), 0);
        },
        _ => {},
    }
}

/// A float has no place in a sort key, and neither has a struct,
/// whatever its fields.
pub proof fn lemma_unorderable(t: TypeView)
    requires
        t is Float || t is Struct,
    ensures
        !t.orderable(),
{
}

} // verus!
