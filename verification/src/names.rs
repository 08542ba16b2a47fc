//! The names of types: the descriptor that the engine writes for a type,
//! and that the parser reads back as that type.

use vstd::prelude::*;
use vstd::utf8::{encode_utf8, is_ascii_chars_encode_utf8};
use crate::descriptor::{
    all_digits, ascii_text, atom, depth, descriptor_type, digits_value, find_top, identifier,
    is_digit, is_space, is_word_byte, nesting, number, parse_fields, parse_list, parse_spec,
    reference, trim_hi, trim_lo, word_end,
};
use crate::error::ParseError;
use crate::tree::TypeView;

verus! {

/// The bytes of the words of the descriptor language.
pub proof fn lemma_words()
    ensures
        encode_utf8("bool"@) == seq![0x62u8, 0x6F, 0x6F, 0x6C],
        encode_utf8("char"@) == seq![0x63u8, 0x68, 0x61, 0x72],
        encode_utf8("String"@) == seq![0x53u8, 0x74, 0x72, 0x69, 0x6E, 0x67],
        encode_utf8("u8"@) == seq![0x75u8, 0x38],
        encode_utf8("u16"@) == seq![0x75u8, 0x31, 0x36],
        encode_utf8("u32"@) == seq![0x75u8, 0x33, 0x32],
        encode_utf8("u64"@) == seq![0x75u8, 0x36, 0x34],
        encode_utf8("u128"@) == seq![0x75u8, 0x31, 0x32, 0x38],
        encode_utf8("i8"@) == seq![0x69u8, 0x38],
        encode_utf8("i16"@) == seq![0x69u8, 0x31, 0x36],
        encode_utf8("i32"@) == seq![0x69u8, 0x33, 0x32],
        encode_utf8("i64"@) == seq![0x69u8, 0x36, 0x34],
        encode_utf8("i128"@) == seq![0x69u8, 0x31, 0x32, 0x38],
        encode_utf8("f32"@) == seq![0x66u8, 0x33, 0x32],
        encode_utf8("f64"@) == seq![0x66u8, 0x36, 0x34],
        encode_utf8("Vec"@) == seq![0x56u8, 0x65, 0x63],
        encode_utf8("Option"@) == seq![0x4Fu8, 0x70, 0x74, 0x69, 0x6F, 0x6E],
        encode_utf8("&[u8]"@) == seq![0x26u8, 0x5B, 0x75, 0x38, 0x5D],
        encode_utf8("&str"@) == seq![0x26u8, 0x73, 0x74, 0x72],
{
    reveal_strlit("bool");
    reveal_strlit("char");
    reveal_strlit("String");
    reveal_strlit("u8");
    reveal_strlit("u16");
    reveal_strlit("u32");
    reveal_strlit("u64");
    reveal_strlit("u128");
    reveal_strlit("i8");
    reveal_strlit("i16");
    reveal_strlit("i32");
    reveal_strlit("i64");
    reveal_strlit("i128");
    reveal_strlit("f32");
    reveal_strlit("f64");
    reveal_strlit("Vec");
    reveal_strlit("Option");
    reveal_strlit("&[u8]");
    reveal_strlit("&str");
    lemma_ascii_word("bool"@);
    lemma_ascii_word("char"@);
    lemma_ascii_word("String"@);
    lemma_ascii_word("u8"@);
    lemma_ascii_word("u16"@);
    lemma_ascii_word("u32"@);
    lemma_ascii_word("u64"@);
    lemma_ascii_word("u128"@);
    lemma_ascii_word("i8"@);
    lemma_ascii_word("i16"@);
    lemma_ascii_word("i32"@);
    lemma_ascii_word("i64"@);
    lemma_ascii_word("i128"@);
    lemma_ascii_word("f32"@);
    lemma_ascii_word("f64"@);
    lemma_ascii_word("Vec"@);
    lemma_ascii_word("Option"@);
    lemma_ascii_word("&[u8]"@);
    lemma_ascii_word("&str"@);
}

/// The bytes of ASCII characters.
pub open spec fn ascii_bytes(chars: Seq<char>) -> Seq<u8> {
    Seq::new(chars.len(), |i: int| chars[i] as u8)
}

/// ASCII text is encoded as the bytes of its characters.
pub proof fn lemma_ascii_word(chars: Seq<char>)
    requires
        forall|i: int| 0 <= i < chars.len() ==> '\0' <= #[trigger] chars[i] <= '\u{7f}',
    ensures
        encode_utf8(chars) == ascii_bytes(chars),
{
    is_ascii_chars_encode_utf8(chars);
    assert(encode_utf8(chars) =~= ascii_bytes(chars));
}

/// The decimal digits of `n`.
pub open spec fn digits(n: nat) -> Seq<u8>
    decreases n,
{
    if n < 10 {
        seq![(0x30 + n) as u8]
    } else {
        digits(n / 10).push((0x30 + n % 10) as u8)
    }
}

/// The name of an integer type.
pub open spec fn int_name(signed: bool, bytes: nat) -> Seq<u8> {
    if signed {
        if bytes == 1 {
            encode_utf8("i8"@)
        } else if bytes == 2 {
            encode_utf8("i16"@)
        } else if bytes == 4 {
            encode_utf8("i32"@)
        } else if bytes == 8 {
            encode_utf8("i64"@)
        } else {
            encode_utf8("i128"@)
        }
    } else {
        if bytes == 1 {
            encode_utf8("u8"@)
        } else if bytes == 2 {
            encode_utf8("u16"@)
        } else if bytes == 4 {
            encode_utf8("u32"@)
        } else if bytes == 8 {
            encode_utf8("u64"@)
        } else {
            encode_utf8("u128"@)
        }
    }
}

/// The name of a float type.
pub open spec fn float_name(bytes: nat) -> Seq<u8> {
    if bytes == 4 {
        encode_utf8("f32"@)
    } else {
        encode_utf8("f64"@)
    }
}

/// The descriptor of the type `t`, as the engine writes it: without
/// spaces but in a struct, and with a comma behind the one member of a
/// tuple of one.
pub open spec fn describe(t: TypeView) -> Seq<u8>
    decreases t, 0nat,
{
    match t {
        TypeView::Bool => encode_utf8("bool"@),
        TypeView::Char => encode_utf8("char"@),
        TypeView::Int { signed, bytes } => int_name(signed, bytes),
        TypeView::Float { bytes } => float_name(bytes),
        TypeView::String => encode_utf8("String"@),
        TypeView::ByteSlice => encode_utf8("&[u8]"@),
        TypeView::Array { elem, len } => seq![0x5Bu8] + (describe(*elem) + seq![0x3Bu8] + digits(len)) + seq![
            0x5Du8,
        ],
        TypeView::Vec { elem } => encode_utf8("Vec"@) + seq![0x3Cu8] + describe(*elem) + seq![0x3Eu8],
        TypeView::Option { inner } => encode_utf8("Option"@) + seq![0x3Cu8] + describe(*inner) + seq![0x3Eu8],
        TypeView::Tuple { elems } => seq![0x28u8] + (describe_list(elems, 0) + (if elems.len() == 1 {
            seq![0x2Cu8]
        } else {
            Seq::empty()
        })) + seq![0x29u8],
        TypeView::Struct { name, fields } => (ascii_bytes(name) + seq![0x20u8]) + seq![0x7Bu8] + describe_fields(
            fields,
            0,
        ) + seq![0x7Du8],
    }
}

/// The descriptors of the types `elems` from the `k`th on, with a comma
/// between any two.
pub open spec fn describe_list(elems: Seq<TypeView>, k: nat) -> Seq<u8>
    decreases elems, elems.len() - k,
{
    if k >= elems.len() {
        Seq::empty()
    } else if k == elems.len() - 1 {
        describe(elems[k as int])
    } else {
        describe(elems[k as int]) + seq![0x2Cu8] + describe_list(elems, k + 1)
    }
}

/// The fields `fields` from the `k`th on, each as its name, a colon and
/// the descriptor of its type, with a comma between any two.
pub open spec fn describe_fields(fields: Seq<(Seq<char>, TypeView)>, k: nat) -> Seq<u8>
    decreases fields, fields.len() - k,
{
    if k >= fields.len() {
        Seq::empty()
    } else if k == fields.len() - 1 {
        ascii_bytes(fields[k as int].0) + (seq![0x3Au8, 0x20u8] + describe(fields[k as int].1))
    } else {
        ascii_bytes(fields[k as int].0) + (seq![0x3Au8, 0x20u8] + describe(fields[k as int].1)) + seq![
            0x2Cu8,
        ] + (seq![0x20u8] + describe_fields(fields, k + 1))
    }
}

/// Whether `name` may name a struct or a field: a word of ASCII letters,
/// digits and underscores that does not begin with a digit.
pub open spec fn is_identifier(name: Seq<char>) -> bool {
    &&& name.len() > 0
    &&& forall|i: int| 0 <= i < name.len() ==> '\0' <= #[trigger] name[i] <= '\u{7f}' && is_word_byte(name[i] as u8)
    &&& !is_digit(name[0] as u8)
}

/// Whether the type `t` has a descriptor: its numbers have the widths of
/// numbers, the length of an array is one that a `usize` holds, and its
/// structs and fields have identifiers for names.
pub open spec fn nameable(t: TypeView) -> bool
    decreases t,
{
    match t {
        TypeView::Int { bytes, .. } => bytes == 1 || bytes == 2 || bytes == 4 || bytes == 8 || bytes == 16,
        TypeView::Float { bytes } => bytes == 4 || bytes == 8,
        TypeView::Array { elem, len } => nameable(*elem) && len <= usize::MAX,
        TypeView::Vec { elem } => nameable(*elem),
        TypeView::Option { inner } => nameable(*inner),
        TypeView::Tuple { elems } => forall|i: int| 0 <= i < elems.len() ==> nameable(#[trigger] elems[i]),
        TypeView::Struct { name, fields } => is_identifier(name) && forall|i: int|
            0 <= i < fields.len() ==> is_identifier((#[trigger] fields[i]).0) && nameable(fields[i].1),
        _ => true,
    }
}

/// Whether the text `d` stands in `s` from `lo` on.
pub open spec fn stands_at(s: Seq<u8>, lo: int, d: Seq<u8>) -> bool {
    0 <= lo && lo + d.len() <= s.len() && s.subrange(lo, lo + d.len()) == d
}

/// Whether the brackets of `d` are level: no prefix closes more than it
/// opens, and the whole closes all that it opens.
pub open spec fn level(d: Seq<u8>) -> bool {
    &&& depth(d, 0, d.len() as int) == 0
    &&& forall|i: int| 0 <= i <= d.len() ==> depth(d, 0, i) >= 0
}

/// Whether `sep` stands nowhere in `d` outside all brackets.
pub open spec fn free_of(d: Seq<u8>, sep: u8) -> bool {
    forall|i: int| 0 <= i < d.len() && depth(d, 0, i) == 0 ==> d[i] != sep
}

/// Whether `d` is level and holds no comma, semicolon or colon outside all
/// brackets.
pub open spec fn sealed(d: Seq<u8>) -> bool {
    level(d) && free_of(d, 0x2C) && free_of(d, 0x3B) && free_of(d, 0x3A)
}

/// The depth of a text that stands in a buffer is its depth by itself.
pub proof fn lemma_depth_at(s: Seq<u8>, lo: int, d: Seq<u8>, i: int)
    requires
        stands_at(s, lo, d),
        0 <= i <= d.len(),
    ensures
        depth(s, lo, lo + i) == depth(d, 0, i),
    decreases i,
{
    if i > 0 {
        lemma_depth_at(s, lo, d, i - 1);
        assert(s[lo + i - 1] == s.subrange(lo, lo + d.len())[i - 1]);
    }
}

/// The depth at a place is the depth at a place before it and the depth
/// from there on.
pub proof fn lemma_depth_sum(s: Seq<u8>, lo: int, mid: int, i: int)
    requires
        0 <= lo <= mid <= i <= s.len(),
    ensures
        depth(s, lo, i) == depth(s, lo, mid) + depth(s, mid, i),
    decreases i - mid,
{
    if i > mid {
        lemma_depth_sum(s, lo, mid, i - 1);
    }
}

/// Two level texts, one behind the other, are level.
pub proof fn lemma_level_concat(x: Seq<u8>, y: Seq<u8>)
    requires
        level(x),
        level(y),
    ensures
        level(x + y),
        forall|i: int| 0 <= i <= x.len() ==> depth(x + y, 0, i) == depth(x, 0, i),
        forall|i: int| 0 <= i <= y.len() ==> depth(x + y, 0, x.len() + i) == depth(y, 0, i),
{
    let z = x + y;
    assert(z.subrange(0, x.len() as int) =~= x);
    assert(z.subrange(x.len() as int, (x.len() + y.len()) as int) =~= y);
    assert forall|i: int| 0 <= i <= x.len() implies depth(z, 0, i) == depth(x, 0, i) by {
        lemma_depth_at(z, 0, x, i);
    }
    assert forall|i: int| 0 <= i <= y.len() implies depth(z, 0, x.len() + i) == depth(y, 0, i) by {
        lemma_depth_sum(z, 0, x.len() as int, x.len() + i);
        lemma_depth_at(z, x.len() as int, y, i);
    }
    assert forall|i: int| 0 <= i <= z.len() implies depth(z, 0, i) >= 0 by {
        if i > x.len() {
            assert(depth(z, 0, x.len() + (i - x.len())) == depth(y, 0, i - x.len()));
        }
    }
    assert(depth(z, 0, (x.len() + y.len()) as int) == depth(y, 0, y.len() as int));
}

/// Whether no byte of `w` is a bracket.
pub open spec fn flat(w: Seq<u8>) -> bool {
    forall|i: int| 0 <= i < w.len() ==> nesting(#[trigger] w[i]) == 0
}

/// A text without brackets is level, at depth zero throughout.
pub proof fn lemma_flat_level(w: Seq<u8>)
    requires
        flat(w),
    ensures
        level(w),
        forall|i: int| 0 <= i <= w.len() ==> depth(w, 0, i) == 0,
{
    assert forall|i: int| 0 <= i <= w.len() implies depth(w, 0, i) == 0 by {
        lemma_flat_depth(w, i);
    }
}

proof fn lemma_flat_depth(w: Seq<u8>, i: int)
    requires
        flat(w),
        0 <= i <= w.len(),
    ensures
        depth(w, 0, i) == 0,
    decreases i,
{
    if i > 0 {
        lemma_flat_depth(w, i - 1);
    }
}

/// A level text between an opening and a closing bracket, behind a text
/// without brackets that is free of the separators, is sealed.
pub proof fn lemma_wrapped_sealed(w: Seq<u8>, open: u8, inner: Seq<u8>, close: u8)
    requires
        flat(w),
        free_of(w, 0x2C),
        free_of(w, 0x3B),
        free_of(w, 0x3A),
        nesting(open) == 1,
        nesting(close) == -1,
        level(inner),
    ensures
        sealed(w + seq![open] + inner + seq![close]),
{
    let d = w + seq![open] + inner + seq![close];
    let n = w.len() as int;
    let m = inner.len() as int;
    lemma_flat_level(w);
    assert forall|i: int| 0 <= i <= d.len() implies depth(d, 0, i) == (if i <= n {
        0
    } else if i <= n + 1 + m {
        1 + depth(inner, 0, i - n - 1)
    } else {
        0
    }) by {
        if i <= n {
            assert(d.subrange(0, n) =~= w);
            lemma_depth_at(d, 0, w, i);
        } else {
            assert(d.subrange(0, n) =~= w);
            lemma_depth_at(d, 0, w, n);
            lemma_depth_sum(d, 0, n, i);
            lemma_depth_sum(d, n, n + 1, i);
            assert(depth(d, n, n) == 0);
            assert(depth(d, n, n + 1) == nesting(d[n]));
            if i <= n + 1 + m {
                assert(d.subrange(n + 1, n + 1 + m) =~= inner);
                lemma_depth_at(d, n + 1, inner, i - n - 1);
            } else {
                assert(d.subrange(n + 1, n + 1 + m) =~= inner);
                lemma_depth_at(d, n + 1, inner, m);
                lemma_depth_sum(d, n + 1, n + 1 + m, i);
                assert(depth(d, n + 1 + m, n + 1 + m) == 0);
                assert(depth(d, n + 1 + m, i) == nesting(d[n + 1 + m]));
            }
        }
    }
    assert forall|i: int| 0 <= i < d.len() && depth(d, 0, i) == 0 implies d[i] != 0x2C && d[i] != 0x3B && d[i]
        != 0x3A by {
        if i < n {
            assert(d[i] == w[i]);
            assert(depth(w, 0, i) == 0);
        } else if i == n {
        } else if i < n + 1 + m {
            assert(depth(inner, 0, i - n - 1) >= 0);
        } else {
        }
    }
}

/// A text that is free of a separator behind a level text that is free
/// of it makes a text that is free of it.
pub proof fn lemma_free_concat(x: Seq<u8>, y: Seq<u8>, sep: u8)
    requires
        level(x),
        level(y),
        free_of(x, sep),
        free_of(y, sep),
    ensures
        free_of(x + y, sep),
{
    lemma_level_concat(x, y);
    let z = x + y;
    assert forall|i: int| 0 <= i < z.len() && depth(z, 0, i) == 0 implies z[i] != sep by {
        if i < x.len() {
            assert(depth(x, 0, i) == 0);
            assert(z[i] == x[i]);
        } else {
            assert(depth(z, 0, x.len() + (i - x.len())) == depth(y, 0, i - x.len()));
            assert(z[i] == y[i - x.len()]);
        }
    }
}

/// A separator is found right behind a level text that is free of it, and
/// not at all where the text ends the search.
pub proof fn lemma_find_top_behind(s: Seq<u8>, lo: int, from: int, hi: int, d: Seq<u8>, sep: u8)
    requires
        stands_at(s, lo, d),
        level(d),
        free_of(d, sep),
        lo <= from <= lo + d.len() <= hi <= s.len(),
        lo + d.len() == hi || s[lo + d.len()] == sep,
    ensures
        find_top(s, lo, from, hi, sep) == lo + d.len(),
    decreases lo + d.len() - from,
{
    lemma_depth_at(s, lo, d, from - lo);
    if from < lo + d.len() {
        assert(s[from] == s.subrange(lo, lo + d.len())[from - lo]);
        lemma_find_top_behind(s, lo, from + 1, hi, d, sep);
    }
}

/// Spaces in front of a byte that is none are skipped up to it.
pub proof fn lemma_trim_lo_skips(s: Seq<u8>, lo: int, a: int, hi: int)
    requires
        0 <= lo <= a < hi <= s.len(),
        forall|i: int| lo <= i < a ==> is_space(#[trigger] s[i]),
        !is_space(s[a]),
    ensures
        trim_lo(s, lo, hi) == a,
    decreases a - lo,
{
    if lo < a {
        lemma_trim_lo_skips(s, lo + 1, a, hi);
    }
}

/// A word ends where its bytes end.
pub proof fn lemma_word_end_at(s: Seq<u8>, lo: int, hi: int, w: Seq<u8>)
    requires
        stands_at(s, lo, w),
        forall|i: int| 0 <= i < w.len() ==> is_word_byte(#[trigger] w[i]),
        lo + w.len() <= hi <= s.len(),
        lo + w.len() == hi || !is_word_byte(s[lo + w.len()]),
    ensures
        word_end(s, lo, hi) == lo + w.len(),
    decreases w.len(),
{
    if w.len() > 0 {
        assert(s[lo] == s.subrange(lo, lo + w.len())[0]);
        assert(is_word_byte(w[0]));
        let rest = w.drop_first();
        assert(s.subrange(lo + 1, lo + 1 + rest.len()) =~= rest);
        assert forall|i: int| 0 <= i < rest.len() implies is_word_byte(#[trigger] rest[i]) by {
            assert(is_word_byte(w[i + 1]));
        }
        lemma_word_end_at(s, lo + 1, hi, rest);
    }
}

/// A text of the bytes of words has no brackets and no separators.
pub proof fn lemma_word_sealed(w: Seq<u8>)
    requires
        forall|i: int| 0 <= i < w.len() ==> is_word_byte(#[trigger] w[i]),
    ensures
        flat(w),
        sealed(w),
{
    assert forall|i: int| 0 <= i < w.len() implies nesting(#[trigger] w[i]) == 0 by {
        assert(is_word_byte(w[i]));
    }
    lemma_flat_level(w);
    assert forall|i: int| 0 <= i < w.len() implies w[i] != 0x2C && w[i] != 0x3B && w[i] != 0x3A by {
        assert(is_word_byte(w[i]));
    }
}

/// The digits of a number are digits, and write the number.
pub proof fn lemma_digits(s: Seq<u8>, lo: int, n: nat)
    requires
        stands_at(s, lo, digits(n)),
    ensures
        digits(n).len() >= 1,
        forall|i: int| 0 <= i < digits(n).len() ==> is_digit(#[trigger] digits(n)[i]),
        digits_value(s, lo, lo + digits(n).len()) == n,
    decreases n,
{
    let d = digits(n);
    if n < 10 {
        assert(s[lo] == s.subrange(lo, lo + d.len())[0]);
        assert(digits_value(s, lo, lo) == 0);
    } else {
        let front = digits(n / 10);
        assert(s.subrange(lo, lo + front.len()) =~= front) by {
            assert(s.subrange(lo, lo + d.len()).subrange(0, front.len() as int) =~= front);
        }
        lemma_digits(s, lo, n / 10);
        assert(s[lo + d.len() - 1] == s.subrange(lo, lo + d.len())[d.len() - 1]);
        assert forall|i: int| 0 <= i < d.len() implies is_digit(#[trigger] d[i]) by {
            if i < front.len() {
                assert(is_digit(front[i]));
            }
        }
    }
}

/// Whether `w` is a word: one byte or more, of letters, digits and
/// underscores.
pub open spec fn is_word(w: Seq<u8>) -> bool {
    w.len() > 0 && forall|i: int| 0 <= i < w.len() ==> is_word_byte(#[trigger] w[i])
}

/// The words of the language are words.
pub proof fn lemma_words_are_words()
    ensures
        is_word(encode_utf8("bool"@)),
        is_word(encode_utf8("char"@)),
        is_word(encode_utf8("String"@)),
        is_word(encode_utf8("u8"@)),
        is_word(encode_utf8("u16"@)),
        is_word(encode_utf8("u32"@)),
        is_word(encode_utf8("u64"@)),
        is_word(encode_utf8("u128"@)),
        is_word(encode_utf8("i8"@)),
        is_word(encode_utf8("i16"@)),
        is_word(encode_utf8("i32"@)),
        is_word(encode_utf8("i64"@)),
        is_word(encode_utf8("i128"@)),
        is_word(encode_utf8("f32"@)),
        is_word(encode_utf8("f64"@)),
        is_word(encode_utf8("Vec"@)),
        is_word(encode_utf8("Option"@)),
{
    lemma_words();
}

/// Whether a descriptor may begin with the byte `c`.
pub open spec fn begins_type(c: u8) -> bool {
    is_word_byte(c) || c == 0x28 || c == 0x5B || c == 0x26
}

/// The bytes of an identifier are a word that does not begin with a digit.
pub proof fn lemma_identifier_bytes(name: Seq<char>)
    requires
        is_identifier(name),
    ensures
        is_word(ascii_bytes(name)),
        !is_digit(ascii_bytes(name)[0]),
        ascii_text(ascii_bytes(name)) == name,
{
    let w = ascii_bytes(name);
    assert forall|i: int| 0 <= i < w.len() implies is_word_byte(#[trigger] w[i]) by {
        assert(is_word_byte(name[i] as u8));
    }
    assert forall|i: int| 0 <= i < name.len() implies (#[trigger] w[i]) as char == name[i] by {
        let c = name[i];
        assert('\0' <= c <= '\u{7f}');
        vstd::utf8::char_u32_cast(c, c as u32);
    }
    assert(ascii_text(w) =~= name);
}

/// Whether `d` has the shape of a descriptor: it is sealed, begins as a
/// descriptor may, and does not end with a space.
pub open spec fn well_shaped(d: Seq<u8>) -> bool {
    &&& sealed(d)
    &&& d.len() > 0
    &&& begins_type(d[0])
    &&& !is_space(d[0])
    &&& !is_space(d.last())
}

/// A word has the shape of a descriptor.
pub proof fn lemma_word_shaped(w: Seq<u8>)
    requires
        is_word(w),
    ensures
        well_shaped(w),
{
    lemma_word_sealed(w);
    assert(is_word_byte(w[0]));
    assert(is_word_byte(w[w.len() - 1]));
}

/// A level text in brackets, behind a word or nothing, has the shape of a
/// descriptor.
pub proof fn lemma_wrapped_shaped(w: Seq<u8>, open: u8, inner: Seq<u8>, close: u8)
    requires
        w.len() == 0 || is_word(w),
        w.len() == 0 ==> begins_type(open),
        nesting(open) == 1,
        nesting(close) == -1,
        level(inner),
    ensures
        well_shaped(w + seq![open] + inner + seq![close]),
{
    let d = w + seq![open] + inner + seq![close];
    if w.len() == 0 {
        assert(flat(w));
        lemma_flat_level(w);
    } else {
        lemma_word_sealed(w);
        assert(is_word_byte(w[0]));
        assert(d[0] == w[0]);
    }
    lemma_wrapped_sealed(w, open, inner, close);
    assert(d.last() == close);
}

/// The text between the brackets of an array is level.
pub proof fn lemma_array_inner(x: Seq<u8>, len: nat)
    requires
        level(x),
    ensures
        level(x + seq![0x3Bu8] + digits(len)),
        is_word(digits(len)),
{
    let semi = seq![0x3Bu8];
    let ds = digits(len);
    assert(flat(semi));
    lemma_flat_level(semi);
    assert(stands_at(ds, 0, ds)) by {
        assert(ds.subrange(0, ds.len() as int) =~= ds);
    }
    lemma_digits(ds, 0, len);
    assert forall|i: int| 0 <= i < ds.len() implies is_word_byte(#[trigger] ds[i]) by {
        assert(is_digit(ds[i]));
    }
    lemma_word_sealed(ds);
    lemma_level_concat(x, semi);
    lemma_level_concat(x + semi, ds);
}

/// The shape of a descriptor: it is sealed, begins as a descriptor may,
/// and does not end with a space.
pub proof fn lemma_describe_shape(t: TypeView)
    requires
        nameable(t),
    ensures
        well_shaped(describe(t)),
    decreases t, 0nat,
{
    let d = describe(t);
    let none = Seq::<u8>::empty();
    match t {
        TypeView::ByteSlice => {
            lemma_words();
            let amp = seq![0x26u8];
            let inner = seq![0x75u8, 0x38];
            assert(is_word(inner));
            lemma_word_sealed(inner);
            assert(flat(amp));
            lemma_flat_level(amp);
            lemma_wrapped_sealed(amp, 0x5B, inner, 0x5D);
            assert(d =~= amp + seq![0x5Bu8] + inner + seq![0x5Du8]);
        },
        TypeView::Array { elem, len } => {
            lemma_describe_shape(*elem);
            lemma_array_inner(describe(*elem), len);
            let inner = describe(*elem) + seq![0x3Bu8] + digits(len);
            lemma_wrapped_shaped(none, 0x5B, inner, 0x5D);
            assert(d =~= none + seq![0x5Bu8] + inner + seq![0x5Du8]);
        },
        TypeView::Vec { elem } => {
            lemma_words_are_words();
            lemma_describe_shape(*elem);
            lemma_wrapped_shaped(encode_utf8("Vec"@), 0x3C, describe(*elem), 0x3E);
        },
        TypeView::Option { inner } => {
            lemma_words_are_words();
            lemma_describe_shape(*inner);
            lemma_wrapped_shaped(encode_utf8("Option"@), 0x3C, describe(*inner), 0x3E);
        },
        TypeView::Tuple { elems } => {
            lemma_list_level(elems, 0);
            let list = describe_list(elems, 0);
            let tail = if elems.len() == 1 {
                seq![0x2Cu8]
            } else {
                Seq::<u8>::empty()
            };
            assert(flat(tail));
            lemma_flat_level(tail);
            lemma_level_concat(list, tail);
            lemma_wrapped_shaped(none, 0x28, list + tail, 0x29);
            assert(d =~= none + seq![0x28u8] + (list + tail) + seq![0x29u8]);
        },
        TypeView::Struct { name, fields } => {
            lemma_identifier_bytes(name);
            lemma_fields_level(fields, 0);
            lemma_struct_shaped(ascii_bytes(name), describe_fields(fields, 0));
        },
        _ => {
            lemma_words_are_words();
            lemma_word_shaped(d);
        },
    }
}

/// A level text in braces, behind a name and a space, has the shape of a
/// descriptor.
pub proof fn lemma_struct_shaped(name: Seq<u8>, inner: Seq<u8>)
    requires
        is_word(name),
        level(inner),
    ensures
        well_shaped((name + seq![0x20u8]) + seq![0x7Bu8] + inner + seq![0x7Du8]),
{
    let w = name + seq![0x20u8];
    let d = w + seq![0x7Bu8] + inner + seq![0x7Du8];
    assert forall|i: int| 0 <= i < w.len() implies nesting(#[trigger] w[i]) == 0 && w[i] != 0x2C && w[i] != 0x3B
        && w[i] != 0x3A by {
        if i < name.len() {
            assert(is_word_byte(name[i]));
        }
    }
    lemma_flat_level(w);
    lemma_wrapped_sealed(w, 0x7B, inner, 0x7D);
    assert(d[0] == name[0]);
    assert(is_word_byte(name[0]));
    assert(d.last() == 0x7Du8);
}

/// A list of descriptors is level.
pub proof fn lemma_list_level(elems: Seq<TypeView>, k: nat)
    requires
        forall|i: int| 0 <= i < elems.len() ==> nameable(#[trigger] elems[i]),
    ensures
        level(describe_list(elems, k)),
    decreases elems, elems.len() - k,
{
    if k >= elems.len() {
        let w = Seq::<u8>::empty();
        assert(flat(w));
        lemma_flat_level(w);
    } else {
        lemma_describe_shape(elems[k as int]);
        if k < elems.len() - 1 {
            lemma_list_level(elems, k + 1);
            let comma = seq![0x2Cu8];
            assert(flat(comma));
            lemma_flat_level(comma);
            lemma_level_concat(describe(elems[k as int]), comma);
            lemma_level_concat(describe(elems[k as int]) + comma, describe_list(elems, k + 1));
        }
    }
}

/// A field is level and holds no comma outside all brackets.
pub proof fn lemma_field_level(name: Seq<char>, t: TypeView)
    requires
        is_identifier(name),
        nameable(t),
    ensures
        level(ascii_bytes(name) + (seq![0x3Au8, 0x20u8] + describe(t))),
        free_of(ascii_bytes(name) + (seq![0x3Au8, 0x20u8] + describe(t)), 0x2C),
    decreases t, 1nat,
{
    lemma_identifier_bytes(name);
    lemma_describe_shape(t);
    let n = ascii_bytes(name);
    let mid = seq![0x3Au8, 0x20u8];
    lemma_word_sealed(n);
    assert(flat(mid));
    lemma_flat_level(mid);
    assert(free_of(mid, 0x2C));
    lemma_level_concat(mid, describe(t));
    lemma_free_concat(mid, describe(t), 0x2C);
    lemma_level_concat(n, mid + describe(t));
    lemma_free_concat(n, mid + describe(t), 0x2C);
}

/// A list of fields is level.
pub proof fn lemma_fields_level(fields: Seq<(Seq<char>, TypeView)>, k: nat)
    requires
        forall|i: int| 0 <= i < fields.len() ==> is_identifier((#[trigger] fields[i]).0) && nameable(fields[i].1),
    ensures
        level(describe_fields(fields, k)),
    decreases fields, fields.len() - k,
{
    if k >= fields.len() {
        let w = Seq::<u8>::empty();
        assert(flat(w));
        lemma_flat_level(w);
    } else {
        let f = fields[k as int];
        lemma_field_level(f.0, f.1);
        if k < fields.len() - 1 {
            lemma_fields_level(fields, k + 1);
            let comma = seq![0x2Cu8];
            let space = seq![0x20u8];
            assert(flat(comma));
            lemma_flat_level(comma);
            assert(flat(space));
            lemma_flat_level(space);
            let head = ascii_bytes(f.0) + (seq![0x3Au8, 0x20u8] + describe(f.1));
            lemma_level_concat(space, describe_fields(fields, k + 1));
            lemma_level_concat(head, comma);
            lemma_level_concat(head + comma, space + describe_fields(fields, k + 1));
        }
    }
}

/// Where a text of two parts stands, both parts stand.
pub proof fn lemma_parts(s: Seq<u8>, a: int, x: Seq<u8>, y: Seq<u8>)
    requires
        stands_at(s, a, x + y),
    ensures
        stands_at(s, a, x),
        stands_at(s, a + x.len(), y),
{
    let d = x + y;
    assert(s.subrange(a, a + x.len()) =~= d.subrange(0, x.len() as int));
    assert(d.subrange(0, x.len() as int) =~= x);
    assert(s.subrange(a + x.len(), a + x.len() + y.len()) =~= d.subrange(x.len() as int, d.len() as int));
    assert(d.subrange(x.len() as int, d.len() as int) =~= y);
}

/// The bytes of a text that stands in a buffer are the bytes of the buffer.
pub proof fn lemma_byte_at(s: Seq<u8>, a: int, d: Seq<u8>, i: int)
    requires
        stands_at(s, a, d),
        0 <= i < d.len(),
    ensures
        s[a + i] == d[i],
{
    assert(s.subrange(a, a + d.len())[i] == s[a + i]);
}

/// Whether the text `d` lies in `s` from `lo` to `hi` behind nothing but
/// spaces: from `a` on.
pub open spec fn lies(s: Seq<u8>, lo: int, a: int, hi: int, d: Seq<u8>) -> bool {
    &&& 0 <= lo <= a
    &&& stands_at(s, a, d)
    &&& hi == a + d.len()
    &&& forall|i: int| lo <= i < a ==> is_space(#[trigger] s[i])
}

/// Of a well-shaped text that lies in a buffer, nothing is trimmed but the
/// spaces in front of it.
pub proof fn lemma_trimmed(s: Seq<u8>, lo: int, a: int, hi: int, d: Seq<u8>)
    requires
        lies(s, lo, a, hi, d),
        well_shaped(d),
    ensures
        trim_lo(s, lo, hi) == a,
        trim_hi(s, a, hi) == hi,
        a < hi,
        s[a] == d[0],
        s[hi - 1] == d.last(),
{
    lemma_byte_at(s, a, d, 0);
    lemma_byte_at(s, a, d, d.len() - 1);
    lemma_trim_lo_skips(s, lo, a, hi);
}

/// The words of the language name their types, and no struct's name is
/// taken for one of them by mistake.
pub proof fn lemma_atoms()
    ensures
        atom(encode_utf8("bool"@)) == Some(TypeView::Bool),
        atom(encode_utf8("char"@)) == Some(TypeView::Char),
        atom(encode_utf8("String"@)) == Some(TypeView::String),
        atom(encode_utf8("u8"@)) == Some(TypeView::Int { signed: false, bytes: 1 }),
        atom(encode_utf8("u16"@)) == Some(TypeView::Int { signed: false, bytes: 2 }),
        atom(encode_utf8("u32"@)) == Some(TypeView::Int { signed: false, bytes: 4 }),
        atom(encode_utf8("u64"@)) == Some(TypeView::Int { signed: false, bytes: 8 }),
        atom(encode_utf8("u128"@)) == Some(TypeView::Int { signed: false, bytes: 16 }),
        atom(encode_utf8("i8"@)) == Some(TypeView::Int { signed: true, bytes: 1 }),
        atom(encode_utf8("i16"@)) == Some(TypeView::Int { signed: true, bytes: 2 }),
        atom(encode_utf8("i32"@)) == Some(TypeView::Int { signed: true, bytes: 4 }),
        atom(encode_utf8("i64"@)) == Some(TypeView::Int { signed: true, bytes: 8 }),
        atom(encode_utf8("i128"@)) == Some(TypeView::Int { signed: true, bytes: 16 }),
        atom(encode_utf8("f32"@)) == Some(TypeView::Float { bytes: 4 }),
        atom(encode_utf8("f64"@)) == Some(TypeView::Float { bytes: 8 }),
        reference(encode_utf8("&[u8]"@)) == Some(TypeView::ByteSlice),
        encode_utf8("Option"@) != encode_utf8("Vec"@),
{
    lemma_words();
    let bool_ = encode_utf8("bool"@);
    let char_ = encode_utf8("char"@);
    let string = encode_utf8("String"@);
    let u8_ = encode_utf8("u8"@);
    let u16_ = encode_utf8("u16"@);
    let u32_ = encode_utf8("u32"@);
    let u64_ = encode_utf8("u64"@);
    let u128_ = encode_utf8("u128"@);
    let i8_ = encode_utf8("i8"@);
    let i16_ = encode_utf8("i16"@);
    let i32_ = encode_utf8("i32"@);
    let i64_ = encode_utf8("i64"@);
    let i128_ = encode_utf8("i128"@);
    let f32_ = encode_utf8("f32"@);
    let f64_ = encode_utf8("f64"@);
    assert(bool_[0] == 0x62 && char_[0] == 0x63 && string[0] == 0x53);
    assert(u8_[0] == 0x75 && u16_[0] == 0x75 && u32_[0] == 0x75 && u64_[0] == 0x75 && u128_[0] == 0x75);
    assert(i8_[0] == 0x69 && i16_[0] == 0x69 && i32_[0] == 0x69 && i64_[0] == 0x69 && i128_[0] == 0x69);
    assert(f32_[0] == 0x66 && f64_[0] == 0x66);
    assert(u8_[1] == 0x38 && u16_[1] == 0x31 && u32_[1] == 0x33 && u64_[1] == 0x36 && u128_[1] == 0x31);
    assert(i8_[1] == 0x38 && i16_[1] == 0x31 && i32_[1] == 0x33 && i64_[1] == 0x36 && i128_[1] == 0x31);
    assert(f32_[1] == 0x33 && f64_[1] == 0x36);
    assert(u8_.len() == 2 && u16_.len() == 3 && u32_.len() == 3 && u64_.len() == 3 && u128_.len() == 4);
    assert(i8_.len() == 2 && i16_.len() == 3 && i32_.len() == 3 && i64_.len() == 3 && i128_.len() == 4);
}

/// A type that has a word for its name is read from that word.
pub proof fn lemma_read_atom(s: Seq<u8>, lo: int, a: int, hi: int, t: TypeView)
    requires
        t is Bool || t is Char || t is Int || t is Float || t is String,
        nameable(t),
        lies(s, lo, a, hi, describe(t)),
        hi <= s.len(),
    ensures
        parse_spec(s, lo, hi) == Ok::<TypeView, ParseError>(t),
{
    let d = describe(t);
    lemma_words_are_words();
    lemma_atoms();
    lemma_word_shaped(d);
    lemma_trimmed(s, lo, a, hi, d);
    lemma_word_end_at(s, a, hi, d);
    assert(is_word_byte(d[0]));
    assert(s.subrange(a, hi) == d);
}

/// A byte slice is read from its name.
pub proof fn lemma_read_bytes(s: Seq<u8>, lo: int, a: int, hi: int)
    requires
        lies(s, lo, a, hi, describe(TypeView::ByteSlice)),
        hi <= s.len(),
    ensures
        parse_spec(s, lo, hi) == Ok::<TypeView, ParseError>(TypeView::ByteSlice),
{
    let d = describe(TypeView::ByteSlice);
    lemma_words();
    lemma_atoms();
    lemma_describe_shape(TypeView::ByteSlice);
    lemma_trimmed(s, lo, a, hi, d);
    assert(d[0] == 0x26);
    assert(s.subrange(a, hi) == d);
}

/// What a text that begins with `Vec<` or `Option<` and ends with `>` is
/// read as.
proof fn lemma_wrapped_branch(s: Seq<u8>, lo: int, a: int, e: int, hi: int, inner: TypeView)
    requires
        0 <= lo <= a < e,
        e + 2 <= hi <= s.len(),
        trim_lo(s, lo, hi) == a,
        trim_hi(s, a, hi) == hi,
        is_word_byte(s[a]),
        word_end(s, a, hi) == e,
        s[e] == 0x3C,
        s[hi - 1] == 0x3E,
        s.subrange(a, e) == encode_utf8("Vec"@) || s.subrange(a, e) == encode_utf8("Option"@),
        parse_spec(s, e + 1, hi - 1) == Ok::<TypeView, ParseError>(inner),
    ensures
        parse_spec(s, lo, hi) == Ok::<TypeView, ParseError>(
            if s.subrange(a, e) == encode_utf8("Vec"@) {
                TypeView::Vec { elem: Box::new(inner) }
            } else {
                TypeView::Option { inner: Box::new(inner) }
            },
        ),
{
}

/// A vector or an option is read from its name where the type in its
/// brackets is read from the text between them.
pub proof fn lemma_read_wrapped(s: Seq<u8>, lo: int, a: int, hi: int, t: TypeView)
    requires
        t is Vec || t is Option,
        nameable(t),
        lies(s, lo, a, hi, describe(t)),
        hi <= s.len(),
        ({
            let word = if t is Vec {
                encode_utf8("Vec"@)
            } else {
                encode_utf8("Option"@)
            };
            let inner = if t is Vec {
                *t->Vec_elem
            } else {
                *t->Option_inner
            };
            parse_spec(s, a + word.len() + 1, hi - 1) == Ok::<TypeView, ParseError>(inner)
        }),
    ensures
        parse_spec(s, lo, hi) == Ok::<TypeView, ParseError>(t),
{
    let d = describe(t);
    let word = if t is Vec {
        encode_utf8("Vec"@)
    } else {
        encode_utf8("Option"@)
    };
    let inner = if t is Vec {
        *t->Vec_elem
    } else {
        *t->Option_inner
    };
    let x = describe(inner);
    let e = a + word.len();
    lemma_words_are_words();
    lemma_atoms();
    lemma_describe_shape(t);
    lemma_describe_shape(inner);
    lemma_trimmed(s, lo, a, hi, d);
    assert(d == word + seq![0x3Cu8] + x + seq![0x3Eu8]);
    lemma_parts(s, a, word + seq![0x3Cu8] + x, seq![0x3Eu8]);
    lemma_parts(s, a, word + seq![0x3Cu8], x);
    lemma_parts(s, a, word, seq![0x3Cu8]);
    lemma_byte_at(s, e, seq![0x3Cu8], 0);
    lemma_word_end_at(s, a, hi, word);
    assert(is_word_byte(word[0]));
    lemma_byte_at(s, a, word, 0);
    assert(s.subrange(a, e) == word);
    assert(d.last() == 0x3E);
    lemma_wrapped_branch(s, lo, a, e, hi, inner);
}

/// A number that a `usize` holds is read from its digits.
pub proof fn lemma_read_number(s: Seq<u8>, lo: int, hi: int, n: nat)
    requires
        stands_at(s, lo, digits(n)),
        hi == lo + digits(n).len(),
        hi <= s.len(),
        n <= usize::MAX,
    ensures
        number(s, lo, hi) == Some(n),
{
    let ds = digits(n);
    lemma_digits(s, lo, n);
    lemma_byte_at(s, lo, ds, 0);
    lemma_byte_at(s, lo, ds, ds.len() - 1);
    assert(is_digit(ds[0]) && is_digit(ds[ds.len() - 1]));
    assert(trim_lo(s, lo, hi) == lo);
    assert(trim_hi(s, lo, hi) == hi);
    assert forall|i: int| lo <= i < hi implies is_digit(#[trigger] s[i]) by {
        lemma_byte_at(s, lo, ds, i - lo);
        assert(is_digit(ds[i - lo]));
    }
    assert(all_digits(s, lo, hi));
}

/// Where the parts of the descriptor of an array stand.
pub proof fn lemma_array_parts(s: Seq<u8>, a: int, x: Seq<u8>, ds: Seq<u8>)
    requires
        stands_at(s, a, seq![0x5Bu8] + (x + seq![0x3Bu8] + ds) + seq![0x5Du8]),
    ensures
        s[a] == 0x5B,
        stands_at(s, a + 1, x),
        s[a + 1 + x.len()] == 0x3B,
        stands_at(s, a + 2 + x.len(), ds),
        s[a + 2 + x.len() + ds.len()] == 0x5D,
{
    let semi = seq![0x3Bu8];
    lemma_parts(s, a, seq![0x5Bu8] + (x + semi + ds), seq![0x5Du8]);
    lemma_parts(s, a, seq![0x5Bu8], x + semi + ds);
    lemma_parts(s, a + 1, x + semi, ds);
    lemma_parts(s, a + 1, x, semi);
    lemma_byte_at(s, a, seq![0x5Bu8], 0);
    lemma_byte_at(s, a + 1 + x.len(), semi, 0);
    lemma_byte_at(s, a + 2 + x.len() + ds.len(), seq![0x5Du8], 0);
}

/// An array is read from its descriptor where its element type is read
/// from the text in front of the semicolon.
pub proof fn lemma_read_array(s: Seq<u8>, lo: int, a: int, hi: int, t: TypeView)
    requires
        t is Array,
        nameable(t),
        lies(s, lo, a, hi, describe(t)),
        hi <= s.len(),
        parse_spec(s, a + 1, a + 1 + describe(*t->Array_elem).len()) == Ok::<TypeView, ParseError>(
            *t->Array_elem,
        ),
    ensures
        parse_spec(s, lo, hi) == Ok::<TypeView, ParseError>(t),
{
    let d = describe(t);
    let elem = *t->Array_elem;
    let len = t->Array_len;
    let x = describe(elem);
    let ds = digits(len);
    lemma_describe_shape(t);
    lemma_describe_shape(elem);
    lemma_trimmed(s, lo, a, hi, d);
    lemma_array_parts(s, a, x, ds);
    let at = a + 1 + x.len();
    lemma_find_top_behind(s, a + 1, a + 1, hi - 1, x, 0x3B);
    lemma_read_number(s, at + 1, hi - 1, len);
    assert(find_top(s, a + 1, a + 1, hi - 1, 0x3B) == at);
    assert(number(s, at + 1, hi - 1) == Some(len));
    assert(s[hi - 1] == 0x5D);
}

/// A tuple is read from its descriptor where its members are read from
/// the list between its parentheses.
pub proof fn lemma_read_tuple(s: Seq<u8>, lo: int, a: int, hi: int, t: TypeView)
    requires
        t is Tuple,
        nameable(t),
        lies(s, lo, a, hi, describe(t)),
        hi <= s.len(),
        parse_list(s, a + 1, hi - 1) == Ok::<Seq<TypeView>, ParseError>(t->Tuple_elems),
    ensures
        parse_spec(s, lo, hi) == Ok::<TypeView, ParseError>(t),
{
    let d = describe(t);
    lemma_describe_shape(t);
    lemma_trimmed(s, lo, a, hi, d);
    assert(d[0] == 0x28);
    assert(d.last() == 0x29);
}

/// What a text that is a word, a space and a list in braces is read as.
proof fn lemma_struct_branch(s: Seq<u8>, lo: int, a: int, e: int, hi: int, fields: Seq<(Seq<char>, TypeView)>)
    requires
        0 <= lo <= a < e,
        e + 3 <= hi <= s.len(),
        trim_lo(s, lo, hi) == a,
        trim_hi(s, a, hi) == hi,
        is_word_byte(s[a]),
        !is_digit(s[a]),
        word_end(s, a, hi) == e,
        s[e] == 0x20,
        trim_lo(s, e, hi) == e + 1,
        s[e + 1] == 0x7B,
        s[hi - 1] == 0x7D,
        parse_fields(s, e + 2, hi - 1) == Ok::<Seq<(Seq<char>, TypeView)>, ParseError>(fields),
    ensures
        parse_spec(s, lo, hi) == Ok::<TypeView, ParseError>(
            TypeView::Struct { name: ascii_text(s.subrange(a, e)), fields },
        ),
{
}

/// A struct is read from its descriptor where its fields are read from
/// the list between its braces.
pub proof fn lemma_read_struct(s: Seq<u8>, lo: int, a: int, hi: int, t: TypeView)
    requires
        t is Struct,
        nameable(t),
        lies(s, lo, a, hi, describe(t)),
        hi <= s.len(),
        parse_fields(s, a + t->Struct_name.len() + 2, hi - 1) == Ok::<Seq<(Seq<char>, TypeView)>, ParseError>(
            t->Struct_fields,
        ),
    ensures
        parse_spec(s, lo, hi) == Ok::<TypeView, ParseError>(t),
{
    let d = describe(t);
    let name = ascii_bytes(t->Struct_name);
    let inner = describe_fields(t->Struct_fields, 0);
    lemma_identifier_bytes(t->Struct_name);
    lemma_describe_shape(t);
    lemma_trimmed(s, lo, a, hi, d);
    assert(d == (name + seq![0x20u8]) + seq![0x7Bu8] + inner + seq![0x7Du8]);
    lemma_parts(s, a, (name + seq![0x20u8]) + seq![0x7Bu8] + inner, seq![0x7Du8]);
    lemma_parts(s, a, (name + seq![0x20u8]) + seq![0x7Bu8], inner);
    lemma_parts(s, a, name + seq![0x20u8], seq![0x7Bu8]);
    lemma_parts(s, a, name, seq![0x20u8]);
    let e = a + name.len();
    lemma_byte_at(s, e, seq![0x20u8], 0);
    lemma_byte_at(s, e + 1, seq![0x7Bu8], 0);
    lemma_byte_at(s, a, name, 0);
    lemma_word_end_at(s, a, hi, name);
    assert(is_word_byte(name[0]));
    lemma_trim_lo_skips(s, e, e + 1, hi);
    assert(d.last() == 0x7D);
    assert(s.subrange(a, e) == name);
    lemma_struct_branch(s, lo, a, e, hi, t->Struct_fields);
}

/// The first comma outside all brackets stands right behind the first
/// member of a list, or nowhere where the member ends the list.
pub proof fn lemma_list_first(s: Seq<u8>, lo: int, hi: int, d: Seq<u8>)
    requires
        stands_at(s, lo, d),
        well_shaped(d),
        lo + d.len() <= hi <= s.len(),
        lo + d.len() == hi || s[lo + d.len()] == 0x2C,
    ensures
        trim_lo(s, lo, hi) < hi,
        find_top(s, lo, lo, hi, 0x2C) == lo + d.len(),
{
    lemma_byte_at(s, lo, d, 0);
    lemma_find_top_behind(s, lo, lo, hi, d, 0x2C);
}

/// Spaces do not change the depth.
pub proof fn lemma_depth_of_spaces(s: Seq<u8>, lo: int, a: int)
    requires
        0 <= lo <= a <= s.len(),
        forall|i: int| lo <= i < a ==> is_space(#[trigger] s[i]),
    ensures
        depth(s, lo, a) == 0,
    decreases a - lo,
{
    if lo < a {
        lemma_depth_of_spaces(s, lo, a - 1);
        assert(is_space(s[a - 1]));
    }
}

/// A comma or colon is found right behind a level text that is free of it
/// and lies behind nothing but spaces, and not at all where the text ends
/// the search.
pub proof fn lemma_find_top_padded(s: Seq<u8>, lo: int, a: int, from: int, hi: int, x: Seq<u8>, sep: u8)
    requires
        sep == 0x2C || sep == 0x3A,
        0 <= lo <= a,
        forall|i: int| lo <= i < a ==> is_space(#[trigger] s[i]),
        stands_at(s, a, x),
        level(x),
        free_of(x, sep),
        lo <= from <= a + x.len() <= hi <= s.len(),
        a + x.len() == hi || s[a + x.len()] == sep,
    ensures
        find_top(s, lo, from, hi, sep) == a + x.len(),
    decreases a + x.len() - from,
{
    if from < a {
        assert(is_space(s[from]));
        lemma_find_top_padded(s, lo, a, from + 1, hi, x, sep);
    } else {
        lemma_depth_of_spaces(s, lo, a);
        lemma_depth_sum(s, lo, a, from);
        lemma_depth_at(s, a, x, from - a);
        if from < a + x.len() {
            lemma_byte_at(s, a, x, from - a);
            lemma_find_top_padded(s, lo, a, from + 1, hi, x, sep);
        }
    }
}

/// The comma behind a field is the first outside all brackets.
pub proof fn lemma_field_comma(s: Seq<u8>, lo: int, a: int, hi: int, name: Seq<char>, t: TypeView)
    requires
        is_identifier(name),
        nameable(t),
        0 <= lo <= a,
        forall|i: int| lo <= i < a ==> is_space(#[trigger] s[i]),
        stands_at(s, a, ascii_bytes(name) + (seq![0x3Au8, 0x20u8] + describe(t))),
        a + name.len() + 2 + describe(t).len() <= hi <= s.len(),
        a + name.len() + 2 + describe(t).len() == hi || s[a + name.len() + 2 + describe(t).len()] == 0x2C,
    ensures
        find_top(s, lo, lo, hi, 0x2C) == a + name.len() + 2 + describe(t).len(),
{
    let head = ascii_bytes(name) + (seq![0x3Au8, 0x20u8] + describe(t));
    lemma_field_level(name, t);
    lemma_find_top_padded(s, lo, a, lo, hi, head, 0x2C);
}

/// The colon behind the name of a field is the first outside all brackets.
pub proof fn lemma_field_colon(s: Seq<u8>, lo: int, a: int, hi: int, n: Seq<u8>)
    requires
        is_word(n),
        0 <= lo <= a,
        forall|i: int| lo <= i < a ==> is_space(#[trigger] s[i]),
        stands_at(s, a, n),
        a + n.len() < hi <= s.len(),
        s[a + n.len()] == 0x3A,
    ensures
        find_top(s, lo, lo, hi, 0x3A) == a + n.len(),
{
    lemma_word_sealed(n);
    lemma_find_top_padded(s, lo, a, lo, hi, n, 0x3A);
}

/// The name of a field is read from the text in front of its colon.
pub proof fn lemma_field_name(s: Seq<u8>, lo: int, a: int, name: Seq<char>)
    requires
        is_identifier(name),
        0 <= lo <= a,
        forall|i: int| lo <= i < a ==> is_space(#[trigger] s[i]),
        stands_at(s, a, ascii_bytes(name)),
    ensures
        identifier(s, lo, a + name.len()) == Some(name),
{
    let n = ascii_bytes(name);
    let colon = a + n.len();
    lemma_identifier_bytes(name);
    lemma_byte_at(s, a, n, 0);
    lemma_byte_at(s, a, n, n.len() - 1);
    assert(is_word_byte(n[0]) && is_word_byte(n[n.len() - 1]));
    lemma_trim_lo_skips(s, lo, a, colon);
    assert(trim_hi(s, a, colon) == colon);
    lemma_word_end_at(s, a, colon, n);
    assert(s.subrange(a, colon) == n);
}

/// What the parser finds of a field that lies in a buffer behind nothing
/// but spaces: the comma behind it, if there is one, the colon behind its
/// name, and its name.
pub proof fn lemma_field_marks(s: Seq<u8>, lo: int, a: int, hi: int, name: Seq<char>, t: TypeView)
    requires
        is_identifier(name),
        nameable(t),
        0 <= lo <= a,
        forall|i: int| lo <= i < a ==> is_space(#[trigger] s[i]),
        stands_at(s, a, ascii_bytes(name) + (seq![0x3Au8, 0x20u8] + describe(t))),
        a + name.len() + 2 + describe(t).len() <= hi <= s.len(),
        a + name.len() + 2 + describe(t).len() == hi || s[a + name.len() + 2 + describe(t).len()] == 0x2C,
    ensures
        trim_lo(s, lo, hi) < hi,
        find_top(s, lo, lo, hi, 0x2C) == a + name.len() + 2 + describe(t).len(),
        find_top(s, lo, lo, a + name.len() + 2 + describe(t).len(), 0x3A) == a + name.len(),
        identifier(s, lo, a + name.len()) == Some(name),
        lies(s, a + name.len() + 1, a + name.len() + 2, a + name.len() + 2 + describe(t).len(), describe(t)),
{
    let n = ascii_bytes(name);
    let mid = seq![0x3Au8, 0x20u8];
    let x = describe(t);
    let colon = a + n.len();
    let comma = colon + 2 + x.len();
    lemma_identifier_bytes(name);
    lemma_parts(s, a, n, mid + x);
    lemma_parts(s, colon, mid, x);
    lemma_byte_at(s, colon, mid, 0);
    lemma_byte_at(s, colon, mid, 1);
    lemma_byte_at(s, a, n, 0);
    assert(is_word_byte(n[0]));
    lemma_trim_lo_skips(s, lo, a, hi);
    lemma_field_comma(s, lo, a, hi, name, t);
    lemma_field_colon(s, lo, a, comma, n);
    lemma_field_name(s, lo, a, name);
}

/// The fields of a struct are read from their list.
pub proof fn lemma_read_fields(s: Seq<u8>, lo: int, a: int, hi: int, fields: Seq<(Seq<char>, TypeView)>, k: nat)
    requires
        forall|i: int| 0 <= i < fields.len() ==> is_identifier((#[trigger] fields[i]).0) && nameable(fields[i].1),
        k <= fields.len(),
        lies(s, lo, a, hi, describe_fields(fields, k)),
        hi <= s.len(),
        k == fields.len() ==> lo == a,
    ensures
        parse_fields(s, lo, hi) == Ok::<Seq<(Seq<char>, TypeView)>, ParseError>(fields.skip(k as int)),
    decreases fields, fields.len() - k,
{
    if k >= fields.len() {
        assert(trim_lo(s, lo, hi) == lo);
        assert(fields.skip(k as int) =~= Seq::<(Seq<char>, TypeView)>::empty());
    } else {
        let f = fields[k as int];
        let x = describe(f.1);
        let head = ascii_bytes(f.0) + (seq![0x3Au8, 0x20u8] + x);
        let colon = a + f.0.len();
        let comma = colon + 2 + x.len();
        if k == fields.len() - 1 {
            lemma_field_marks(s, lo, a, hi, f.0, f.1);
            lemma_parse_describe(s, colon + 1, colon + 2, comma, f.1);
            assert(fields.skip(k as int) =~= seq![f]);
        } else {
            let rest = describe_fields(fields, k + 1);
            assert(describe_fields(fields, k) == head + seq![0x2Cu8] + (seq![0x20u8] + rest));
            lemma_parts(s, a, head + seq![0x2Cu8], seq![0x20u8] + rest);
            lemma_parts(s, a, head, seq![0x2Cu8]);
            lemma_parts(s, comma + 1, seq![0x20u8], rest);
            lemma_byte_at(s, comma, seq![0x2Cu8], 0);
            lemma_byte_at(s, comma + 1, seq![0x20u8], 0);
            lemma_field_marks(s, lo, a, hi, f.0, f.1);
            lemma_parse_describe(s, colon + 1, colon + 2, comma, f.1);
            lemma_read_fields(s, comma + 1, comma + 2, hi, fields, k + 1);
            assert(fields.skip(k as int) =~= seq![f] + fields.skip((k + 1) as int));
        }
    }
}

/// The members of a tuple are read from their list, with or without a
/// comma behind the last.
pub proof fn lemma_read_list(s: Seq<u8>, lo: int, hi: int, elems: Seq<TypeView>, k: nat, tail: bool)
    requires
        forall|i: int| 0 <= i < elems.len() ==> nameable(#[trigger] elems[i]),
        k <= elems.len(),
        tail ==> k + 1 == elems.len(),
        stands_at(
            s,
            lo,
            describe_list(elems, k) + (if tail {
                seq![0x2Cu8]
            } else {
                Seq::empty()
            }),
        ),
        hi == lo + describe_list(elems, k).len() + (if tail {
            1int
        } else {
            0int
        }),
        hi <= s.len(),
    ensures
        parse_list(s, lo, hi) == Ok::<Seq<TypeView>, ParseError>(elems.skip(k as int)),
    decreases elems, elems.len() - k,
{
    let none = Seq::<u8>::empty();
    if k >= elems.len() {
        assert(trim_lo(s, lo, hi) == lo);
        assert(elems.skip(k as int) =~= Seq::<TypeView>::empty());
    } else {
        let e = elems[k as int];
        let x = describe(e);
        let comma = lo + x.len();
        lemma_describe_shape(e);
        if k == elems.len() - 1 {
            if tail {
                lemma_parts(s, lo, x, seq![0x2Cu8]);
                lemma_byte_at(s, comma, seq![0x2Cu8], 0);
                assert(trim_lo(s, hi, hi) == hi);
            } else {
                assert(x + none =~= x);
            }
            lemma_list_first(s, lo, hi, x);
            lemma_parse_describe(s, lo, lo, comma, e);
            assert(elems.skip(k as int) =~= seq![e]);
            assert(seq![e] + Seq::<TypeView>::empty() =~= seq![e]);
        } else {
            let rest = describe_list(elems, k + 1);
            assert(describe_list(elems, k) + none =~= x + seq![0x2Cu8] + rest);
            lemma_parts(s, lo, x + seq![0x2Cu8], rest);
            lemma_parts(s, lo, x, seq![0x2Cu8]);
            lemma_byte_at(s, comma, seq![0x2Cu8], 0);
            lemma_list_first(s, lo, hi, x);
            lemma_parse_describe(s, lo, lo, comma, e);
            assert(rest + none =~= rest);
            lemma_read_list(s, comma + 1, hi, elems, k + 1, false);
            assert(elems.skip(k as int) =~= seq![e] + elems.skip((k + 1) as int));
        }
    }
}

/// A type is read from its descriptor: what the engine writes for a type
/// is parsed as that type, wherever in a text it lies, behind whatever
/// spaces.
pub proof fn lemma_parse_describe(s: Seq<u8>, lo: int, a: int, hi: int, t: TypeView)
    requires
        nameable(t),
        lies(s, lo, a, hi, describe(t)),
        hi <= s.len(),
    ensures
        parse_spec(s, lo, hi) == Ok::<TypeView, ParseError>(t),
    decreases t, 0nat,
{
    let d = describe(t);
    match t {
        TypeView::ByteSlice => {
            lemma_read_bytes(s, lo, a, hi);
        },
        TypeView::Array { elem, len } => {
            let x = describe(*elem);
            lemma_array_parts(s, a, x, digits(len));
            lemma_parse_describe(s, a + 1, a + 1, a + 1 + x.len(), *elem);
            lemma_read_array(s, lo, a, hi, t);
        },
        TypeView::Vec { elem } => {
            let word = encode_utf8("Vec"@);
            let x = describe(*elem);
            lemma_parts(s, a, word + seq![0x3Cu8] + x, seq![0x3Eu8]);
            lemma_parts(s, a, word + seq![0x3Cu8], x);
            lemma_parse_describe(s, a + word.len() + 1, a + word.len() + 1, hi - 1, *elem);
            lemma_read_wrapped(s, lo, a, hi, t);
        },
        TypeView::Option { inner } => {
            let word = encode_utf8("Option"@);
            let x = describe(*inner);
            lemma_parts(s, a, word + seq![0x3Cu8] + x, seq![0x3Eu8]);
            lemma_parts(s, a, word + seq![0x3Cu8], x);
            lemma_parse_describe(s, a + word.len() + 1, a + word.len() + 1, hi - 1, *inner);
            lemma_read_wrapped(s, lo, a, hi, t);
        },
        TypeView::Tuple { elems } => {
            let tail = elems.len() == 1;
            let inner = describe_list(elems, 0) + (if tail {
                seq![0x2Cu8]
            } else {
                Seq::empty()
            });
            lemma_parts(s, a, seq![0x28u8] + inner, seq![0x29u8]);
            lemma_parts(s, a, seq![0x28u8], inner);
            lemma_read_list(s, a + 1, hi - 1, elems, 0, tail);
            assert(elems.skip(0) =~= elems);
            lemma_read_tuple(s, lo, a, hi, t);
        },
        TypeView::Struct { name, fields } => {
            let n = ascii_bytes(name);
            let inner = describe_fields(fields, 0);
            lemma_parts(s, a, (n + seq![0x20u8]) + seq![0x7Bu8] + inner, seq![0x7Du8]);
            lemma_parts(s, a, (n + seq![0x20u8]) + seq![0x7Bu8], inner);
            lemma_read_fields(s, a + n.len() + 2, a + n.len() + 2, hi - 1, fields, 0);
            assert(fields.skip(0) =~= fields);
            lemma_read_struct(s, lo, a, hi, t);
        },
        _ => {
            lemma_read_atom(s, lo, a, hi, t);
        },
    }
}

/// The descriptor of a type describes the type: the parser reads a valid
/// type back from the name that the engine writes for it.
pub proof fn lemma_descriptor_of_description(t: TypeView)
    requires
        nameable(t),
        t.wf(),
    ensures
        descriptor_type(describe(t)) == Ok::<TypeView, ParseError>(t),
{
    let d = describe(t);
    assert(d.subrange(0, d.len() as int) =~= d);
    lemma_parse_describe(d, 0, 0, d.len() as int, t);
}

} // verus!
