//! The descriptor language: the text that names a type, and its parser.
//!
//! ```text
//! Type   := "bool" | "char" | Int | Float | "String" | "&str" | "&[u8]"
//!         | "[" Type ";" Num "]"
//!         | "Vec<" Type ">"
//!         | "Option<" Type ">"
//!         | "(" List(Type) ")"
//!         | Ident "{" List(Ident ":" Type) "}"
//! Int    := ("u" | "i") ("8" | "16" | "32" | "64" | "128")
//! Float  := "f32" | "f64"
//! List(X) := the Xs, with a comma between any two and, at will, one behind the last
//! ```
//!
//! Spaces may stand between any two tokens. A word that the language does
//! not have stands for a type that the library does not know; a caller may
//! treat such a type as opaque. Any other text outside the grammar is an
//! error of syntax.

use vstd::prelude::*;
use vstd::slice::slice_subrange;
use vstd::utf8::{
    encode_utf8, encode_utf8_decode_utf8, encode_utf8_valid_utf8, is_ascii_chars,
    is_ascii_chars_encode_utf8,
};
use crate::error::ParseError;
use crate::text::{bytes_eq, string_from_utf8};
use crate::tree::{measure, tree_view, FloatWidth, IntWidth, TypeTree, TypeView};

verus! {

/// Whether `c` is a space, a tab or a line break.
pub open spec fn is_space(c: u8) -> bool {
    c == 0x20 || c == 0x09 || c == 0x0A || c == 0x0D
}

/// Whether `c` is a decimal digit.
pub open spec fn is_digit(c: u8) -> bool {
    0x30 <= c <= 0x39
}

/// Whether `c` may stand in a word: a letter, a digit or an underscore.
pub open spec fn is_word_byte(c: u8) -> bool {
    is_digit(c) || 0x41 <= c <= 0x5A || 0x61 <= c <= 0x7A || c == 0x5F
}

/// The first index from `lo` on, below `hi`, that holds no space; `hi` where all do.
pub open spec fn trim_lo(s: Seq<u8>, lo: int, hi: int) -> int
    decreases hi - lo,
{
    if 0 <= lo < hi <= s.len() && is_space(s[lo]) {
        trim_lo(s, lo + 1, hi)
    } else {
        lo
    }
}

/// The end of the text from `lo` to `hi` without the spaces at its end.
pub open spec fn trim_hi(s: Seq<u8>, lo: int, hi: int) -> int
    decreases hi - lo,
{
    if 0 <= lo < hi <= s.len() && is_space(s[hi - 1]) {
        trim_hi(s, lo, hi - 1)
    } else {
        hi
    }
}

/// The end of the word that starts at `lo`.
pub open spec fn word_end(s: Seq<u8>, lo: int, hi: int) -> int
    decreases hi - lo,
{
    if 0 <= lo < hi <= s.len() && is_word_byte(s[lo]) {
        word_end(s, lo + 1, hi)
    } else {
        lo
    }
}

/// By how much the byte `c` changes the depth of nesting.
pub open spec fn nesting(c: u8) -> int {
    if c == 0x28 || c == 0x5B || c == 0x3C || c == 0x7B {
        1
    } else if c == 0x29 || c == 0x5D || c == 0x3E || c == 0x7D {
        -1
    } else {
        0
    }
}

/// The depth of nesting at index `i` of the text that starts at `lo`.
pub open spec fn depth(s: Seq<u8>, lo: int, i: int) -> int
    decreases i - lo,
{
    if i <= lo || i > s.len() || lo < 0 {
        0
    } else {
        depth(s, lo, i - 1) + nesting(s[i - 1])
    }
}

/// The first index from `from` on, below `hi`, that holds `sep` outside all
/// brackets of the text that starts at `lo`; `hi` where there is none.
pub open spec fn find_top(s: Seq<u8>, lo: int, from: int, hi: int, sep: u8) -> int
    decreases hi - from,
{
    if !(0 <= lo <= from < hi <= s.len()) {
        hi
    } else if s[from] == sep && depth(s, lo, from) == 0 {
        from
    } else {
        find_top(s, lo, from + 1, hi, sep)
    }
}

/// The number that the digits from `lo` to `hi` write.
pub open spec fn digits_value(s: Seq<u8>, lo: int, hi: int) -> nat
    decreases hi - lo,
{
    if !(0 <= lo < hi <= s.len()) {
        0
    } else {
        digits_value(s, lo, hi - 1) * 10 + (s[hi - 1] - 0x30) as nat
    }
}

/// Whether all bytes from `lo` to `hi` are digits.
pub open spec fn all_digits(s: Seq<u8>, lo: int, hi: int) -> bool {
    forall|i: int| lo <= i < hi ==> is_digit(#[trigger] s[i])
}

/// The number that the text from `lo` to `hi` writes, spaces around it
/// aside, where it is a number that a `usize` holds.
pub open spec fn number(s: Seq<u8>, lo: int, hi: int) -> Option<nat> {
    let a = trim_lo(s, lo, hi);
    let b = trim_hi(s, a, hi);
    if a < b && all_digits(s, a, b) && digits_value(s, a, b) <= usize::MAX {
        Some(digits_value(s, a, b))
    } else {
        None
    }
}

/// The characters that the ASCII bytes `bytes` stand for.
pub open spec fn ascii_text(bytes: Seq<u8>) -> Seq<char> {
    Seq::new(bytes.len(), |i: int| bytes[i] as char)
}

/// The identifier that the text from `lo` to `hi` is, spaces around it
/// aside: one word that does not begin with a digit.
pub open spec fn identifier(s: Seq<u8>, lo: int, hi: int) -> Option<Seq<char>> {
    let a = trim_lo(s, lo, hi);
    let b = trim_hi(s, a, hi);
    if a < b && word_end(s, a, b) == b && !is_digit(s[a]) {
        Some(ascii_text(s.subrange(a, b)))
    } else {
        None
    }
}

/// The type that the word `word` names by itself.
pub open spec fn atom(word: Seq<u8>) -> Option<TypeView> {
    if word == encode_utf8("bool"@) {
        Some(TypeView::Bool)
    } else if word == encode_utf8("char"@) {
        Some(TypeView::Char)
    } else if word == encode_utf8("String"@) {
        Some(TypeView::String)
    } else if word == encode_utf8("u8"@) {
        Some(TypeView::Int { signed: false, bytes: 1 })
    } else if word == encode_utf8("u16"@) {
        Some(TypeView::Int { signed: false, bytes: 2 })
    } else if word == encode_utf8("u32"@) {
        Some(TypeView::Int { signed: false, bytes: 4 })
    } else if word == encode_utf8("u64"@) {
        Some(TypeView::Int { signed: false, bytes: 8 })
    } else if word == encode_utf8("u128"@) {
        Some(TypeView::Int { signed: false, bytes: 16 })
    } else if word == encode_utf8("i8"@) {
        Some(TypeView::Int { signed: true, bytes: 1 })
    } else if word == encode_utf8("i16"@) {
        Some(TypeView::Int { signed: true, bytes: 2 })
    } else if word == encode_utf8("i32"@) {
        Some(TypeView::Int { signed: true, bytes: 4 })
    } else if word == encode_utf8("i64"@) {
        Some(TypeView::Int { signed: true, bytes: 8 })
    } else if word == encode_utf8("i128"@) {
        Some(TypeView::Int { signed: true, bytes: 16 })
    } else if word == encode_utf8("f32"@) {
        Some(TypeView::Float { bytes: 4 })
    } else if word == encode_utf8("f64"@) {
        Some(TypeView::Float { bytes: 8 })
    } else {
        None
    }
}

/// Whether `word` is a word of the language: the name of a type, or the
/// head of a composite one.
pub open spec fn known_word(word: Seq<u8>) -> bool {
    atom(word) is Some || word == encode_utf8("Vec"@) || word == encode_utf8("Option"@)
}

/// The type that the text behind an ampersand names.
pub open spec fn reference(text: Seq<u8>) -> Option<TypeView> {
    if text == encode_utf8("&[u8]"@) {
        Some(TypeView::ByteSlice)
    } else if text == encode_utf8("&str"@) {
        Some(TypeView::String)
    } else {
        None
    }
}

/// Spaces are skipped within the text, up to a byte that is none.
pub proof fn lemma_trim_lo_bounds(s: Seq<u8>, lo: int, hi: int)
    requires
        0 <= lo <= hi <= s.len(),
    ensures
        lo <= trim_lo(s, lo, hi) <= hi,
        trim_lo(s, lo, hi) < hi ==> !is_space(s[trim_lo(s, lo, hi)]),
    decreases hi - lo,
{
    if lo < hi && is_space(s[lo]) {
        lemma_trim_lo_bounds(s, lo + 1, hi);
    }
}

/// Spaces are dropped within the text, down to a byte that is none.
pub proof fn lemma_trim_hi_bounds(s: Seq<u8>, lo: int, hi: int)
    requires
        0 <= lo <= hi <= s.len(),
    ensures
        lo <= trim_hi(s, lo, hi) <= hi,
        lo < trim_hi(s, lo, hi) ==> !is_space(s[trim_hi(s, lo, hi) - 1]),
    decreases hi - lo,
{
    if lo < hi && is_space(s[hi - 1]) {
        lemma_trim_hi_bounds(s, lo, hi - 1);
    }
}

/// A word ends within the text, where the bytes of words end.
pub proof fn lemma_word_end_bounds(s: Seq<u8>, lo: int, hi: int)
    requires
        0 <= lo <= hi <= s.len(),
    ensures
        lo <= word_end(s, lo, hi) <= hi,
        forall|i: int| lo <= i < word_end(s, lo, hi) ==> is_word_byte(#[trigger] s[i]),
        word_end(s, lo, hi) < hi ==> !is_word_byte(s[word_end(s, lo, hi)]),
    decreases hi - lo,
{
    if lo < hi && is_word_byte(s[lo]) {
        lemma_word_end_bounds(s, lo + 1, hi);
    }
}

/// A separator is found within the text or not at all.
pub proof fn lemma_find_top_bounds(s: Seq<u8>, lo: int, from: int, hi: int, sep: u8)
    requires
        0 <= lo <= from <= hi <= s.len(),
    ensures
        from <= find_top(s, lo, from, hi, sep) <= hi,
    decreases hi - from,
{
    if from < hi && !(s[from] == sep && depth(s, lo, from) == 0) {
        lemma_find_top_bounds(s, lo, from + 1, hi, sep);
    }
}

/// The type that the text from `lo` to `hi` describes, or why it
/// describes none.
pub open spec fn parse_spec(s: Seq<u8>, lo: int, hi: int) -> Result<TypeView, ParseError>
    decreases hi - lo, 0nat,
{
    if !(0 <= lo <= hi <= s.len()) {
        Err(ParseError::Syntax)
    } else {
        let a = trim_lo(s, lo, hi);
        let b = trim_hi(s, a, hi);
        proof {
            lemma_trim_lo_bounds(s, lo, hi);
            lemma_trim_hi_bounds(s, a, hi);
        }
        if a >= b {
            Err(ParseError::Syntax)
        } else if s[a] == 0x28 {
            if b - a < 2 || s[b - 1] != 0x29 {
                Err(ParseError::Syntax)
            } else {
                match parse_list(s, a + 1, b - 1) {
                    Ok(elems) => Ok(TypeView::Tuple { elems }),
                    Err(e) => Err(e),
                }
            }
        } else if s[a] == 0x5B {
            if b - a < 2 || s[b - 1] != 0x5D {
                Err(ParseError::Syntax)
            } else {
                let semi = find_top(s, a + 1, a + 1, b - 1, 0x3B);
                proof {
                    lemma_find_top_bounds(s, a + 1, a + 1, b - 1, 0x3B);
                }
                if semi >= b - 1 {
                    Err(ParseError::Syntax)
                } else {
                    match parse_spec(s, a + 1, semi) {
                        Err(e) => Err(e),
                        Ok(elem) => match number(s, semi + 1, b - 1) {
                            Some(len) => Ok(TypeView::Array { elem: Box::new(elem), len }),
                            None => Err(ParseError::Syntax),
                        },
                    }
                }
            }
        } else if s[a] == 0x26 {
            match reference(s.subrange(a, b)) {
                Some(t) => Ok(t),
                None => Err(ParseError::UnknownType),
            }
        } else if is_word_byte(s[a]) {
            let e = word_end(s, a, b);
            proof {
                lemma_word_end_bounds(s, a, b);
            }
            let word = s.subrange(a, e);
            if e == b {
                match atom(word) {
                    Some(t) => Ok(t),
                    None => Err(ParseError::UnknownType),
                }
            } else if s[e] == 0x3C && (word == encode_utf8("Vec"@) || word == encode_utf8("Option"@)) {
                if s[b - 1] != 0x3E || b - e < 2 {
                    Err(ParseError::Syntax)
                } else {
                    match parse_spec(s, e + 1, b - 1) {
                        Err(err) => Err(err),
                        Ok(inner) => if word == encode_utf8("Vec"@) {
                            Ok(TypeView::Vec { elem: Box::new(inner) })
                        } else {
                            Ok(TypeView::Option { inner: Box::new(inner) })
                        },
                    }
                }
            } else {
                let c = trim_lo(s, e, b);
                proof {
                    lemma_trim_lo_bounds(s, e, b);
                }
                if c < b && s[c] == 0x7B {
                    if is_digit(s[a]) || s[b - 1] != 0x7D || b - c < 2 {
                        Err(ParseError::Syntax)
                    } else {
                        match parse_fields(s, c + 1, b - 1) {
                            Ok(fields) => Ok(TypeView::Struct { name: ascii_text(word), fields }),
                            Err(err) => Err(err),
                        }
                    }
                } else if known_word(word) {
                    Err(ParseError::Syntax)
                } else {
                    Err(ParseError::UnknownType)
                }
            }
        } else {
            Err(ParseError::Syntax)
        }
    }
}

/// The types that the list from `lo` to `hi` describes.
pub open spec fn parse_list(s: Seq<u8>, lo: int, hi: int) -> Result<Seq<TypeView>, ParseError>
    decreases hi - lo, 1nat,
{
    if !(0 <= lo <= hi <= s.len()) {
        Err(ParseError::Syntax)
    } else if trim_lo(s, lo, hi) >= hi {
        Ok(Seq::empty())
    } else {
        let comma = find_top(s, lo, lo, hi, 0x2C);
        proof {
            lemma_find_top_bounds(s, lo, lo, hi, 0x2C);
        }
        match parse_spec(s, lo, comma) {
            Err(e) => Err(e),
            Ok(first) => if comma >= hi {
                Ok(seq![first])
            } else {
                match parse_list(s, comma + 1, hi) {
                    Err(e) => Err(e),
                    Ok(rest) => Ok(seq![first] + rest),
                }
            },
        }
    }
}

/// The fields that the list from `lo` to `hi` describes.
pub open spec fn parse_fields(s: Seq<u8>, lo: int, hi: int) -> Result<Seq<(Seq<char>, TypeView)>, ParseError>
    decreases hi - lo, 1nat,
{
    if !(0 <= lo <= hi <= s.len()) {
        Err(ParseError::Syntax)
    } else if trim_lo(s, lo, hi) >= hi {
        Ok(Seq::empty())
    } else {
        let comma = find_top(s, lo, lo, hi, 0x2C);
        let colon = find_top(s, lo, lo, comma, 0x3A);
        proof {
            lemma_find_top_bounds(s, lo, lo, hi, 0x2C);
            lemma_find_top_bounds(s, lo, lo, comma, 0x3A);
        }
        if colon >= comma {
            Err(ParseError::Syntax)
        } else {
            match identifier(s, lo, colon) {
                None => Err(ParseError::Syntax),
                Some(name) => match parse_spec(s, colon + 1, comma) {
                    Err(e) => Err(e),
                    Ok(t) => if comma >= hi {
                        Ok(seq![(name, t)])
                    } else {
                        match parse_fields(s, comma + 1, hi) {
                            Err(e) => Err(e),
                            Ok(rest) => Ok(seq![(name, t)] + rest),
                        }
                    },
                },
            }
        }
    }
}

/// The type that the descriptor `text` describes: what its text says,
/// where that is a type whose widths a `usize` holds.
pub open spec fn descriptor_type(text: Seq<u8>) -> Result<TypeView, ParseError> {
    match parse_spec(text, 0, text.len() as int) {
        Ok(t) => if t.wf() {
            Ok(t)
        } else {
            Err(ParseError::Syntax)
        },
        Err(e) => Err(e),
    }
}

/// The mathematical values of the trees `trees`.
pub open spec fn tree_views(trees: Seq<TypeTree>) -> Seq<TypeView> {
    Seq::new(trees.len(), |i: int| tree_view(trees[i]))
}

/// The mathematical values of the fields `fields`.
pub open spec fn field_views(fields: Seq<(String, TypeTree)>) -> Seq<(Seq<char>, TypeView)> {
    Seq::new(fields.len(), |i: int| (fields[i].0@, tree_view(fields[i].1)))
}

fn is_space_byte(c: u8) -> (r: bool)
    ensures
        r == is_space(c),
{
    c == 0x20 || c == 0x09 || c == 0x0A || c == 0x0D
}

fn is_digit_byte(c: u8) -> (r: bool)
    ensures
        r == is_digit(c),
{
    0x30 <= c && c <= 0x39
}

fn is_word(c: u8) -> (r: bool)
    ensures
        r == is_word_byte(c),
{
    is_digit_byte(c) || (0x41 <= c && c <= 0x5A) || (0x61 <= c && c <= 0x7A) || c == 0x5F
}

fn skip_spaces(s: &[u8], lo: usize, hi: usize) -> (r: usize)
    requires
        lo <= hi <= s@.len(),
    ensures
        r == trim_lo(s@, lo as int, hi as int),
        lo <= r <= hi,
{
    let mut i = lo;
    while i < hi && is_space_byte(s[i])
        invariant
            lo <= i <= hi <= s@.len(),
            trim_lo(s@, lo as int, hi as int) == trim_lo(s@, i as int, hi as int),
        decreases hi - i,
    {
        i += 1;
    }
    i
}

fn drop_spaces(s: &[u8], lo: usize, hi: usize) -> (r: usize)
    requires
        lo <= hi <= s@.len(),
    ensures
        r == trim_hi(s@, lo as int, hi as int),
        lo <= r <= hi,
{
    let mut i = hi;
    while lo < i && is_space_byte(s[i - 1])
        invariant
            lo <= i <= hi <= s@.len(),
            trim_hi(s@, lo as int, hi as int) == trim_hi(s@, lo as int, i as int),
        decreases i - lo,
    {
        i -= 1;
    }
    i
}

fn end_of_word(s: &[u8], lo: usize, hi: usize) -> (r: usize)
    requires
        lo <= hi <= s@.len(),
    ensures
        r == word_end(s@, lo as int, hi as int),
        lo <= r <= hi,
        forall|i: int| lo <= i < r ==> is_word_byte(#[trigger] s@[i]),
{
    let mut i = lo;
    while i < hi && is_word(s[i])
        invariant
            lo <= i <= hi <= s@.len(),
            word_end(s@, lo as int, hi as int) == word_end(s@, i as int, hi as int),
            forall|j: int| lo <= j < i ==> is_word_byte(#[trigger] s@[j]),
        decreases hi - i,
    {
        i += 1;
    }
    i
}

fn find_separator(s: &[u8], lo: usize, hi: usize, sep: u8) -> (r: usize)
    requires
        lo <= hi <= s@.len(),
    ensures
        r == find_top(s@, lo as int, lo as int, hi as int, sep),
        lo <= r <= hi,
{
    let mut level: i128 = 0;
    let mut i = lo;
    while i < hi
        invariant
            lo <= i <= hi <= s@.len(),
            level == depth(s@, lo as int, i as int),
            -(i - lo) <= level <= i - lo,
            find_top(s@, lo as int, lo as int, hi as int, sep) == find_top(s@, lo as int, i as int, hi as int, sep),
        decreases hi - i,
    {
        let c = s[i];
        if c == sep && level == 0 {
            return i;
        }
        if c == 0x28 || c == 0x5B || c == 0x3C || c == 0x7B {
            level += 1;
        } else if c == 0x29 || c == 0x5D || c == 0x3E || c == 0x7D {
            level -= 1;
        }
        i += 1;
    }
    i
}

/// A longer run of digits writes no smaller number.
proof fn lemma_digits_value_grows(s: Seq<u8>, lo: int, mid: int, hi: int)
    requires
        0 <= lo <= mid <= hi <= s.len(),
        all_digits(s, lo, hi),
    ensures
        digits_value(s, lo, mid) <= digits_value(s, lo, hi),
    decreases hi - mid,
{
    if mid < hi {
        lemma_digits_value_grows(s, lo, mid, hi - 1);
        assert(is_digit(s[hi - 1]));
    }
}

fn read_number(s: &[u8], lo: usize, hi: usize) -> (r: Option<usize>)
    requires
        lo <= hi <= s@.len(),
    ensures
        match r {
            Some(n) => number(s@, lo as int, hi as int) == Some(n as nat),
            None => number(s@, lo as int, hi as int) is None,
        },
{
    let a = skip_spaces(s, lo, hi);
    let b = drop_spaces(s, a, hi);
    if a >= b {
        return None;
    }
    let mut acc: usize = 0;
    let mut i = a;
    while i < b
        invariant
            a <= i <= b <= s@.len(),
            a < b,
            a == trim_lo(s@, lo as int, hi as int),
            b == trim_hi(s@, a as int, hi as int),
            all_digits(s@, a as int, i as int),
            acc == digits_value(s@, a as int, i as int),
        decreases b - i,
    {
        let c = s[i];
        if !is_digit_byte(c) {
            return None;
        }
        let d = (c - 0x30) as usize;
        let next = match acc.checked_mul(10) {
            Some(m) => m.checked_add(d),
            None => None,
        };
        match next {
            Some(n) => {
                acc = n;
            },
            None => {
                proof {
                    if all_digits(s@, a as int, b as int) {
                        lemma_digits_value_grows(s@, a as int, i + 1, b as int);
                    }
                }
                return None;
            },
        }
        i += 1;
    }
    Some(acc)
}

/// The text of a word.
fn word_text(s: &[u8], a: usize, b: usize) -> (r: String)
    requires
        a <= b <= s@.len(),
        forall|i: int| a <= i < b ==> is_word_byte(#[trigger] s@[i]),
    ensures
        r@ == ascii_text(s@.subrange(a as int, b as int)),
{
    let bytes = slice_subrange(s, a, b);
    proof {
        let chars = ascii_text(bytes@);
        assert forall|i: int| 0 <= i < chars.len() implies '\0' <= #[trigger] chars[i] <= '\u{7f}' by {
            assert(is_word_byte(s@[a + i]));
        }
        is_ascii_chars_encode_utf8(chars);
        assert forall|i: int| 0 <= i < chars.len() implies encode_utf8(chars)[i] == bytes@[i] by {
            assert(is_word_byte(s@[a + i]));
            assert(chars[i] as u8 == encode_utf8(chars)[i]);
        }
        assert(encode_utf8(chars) =~= bytes@);
        encode_utf8_valid_utf8(chars);
        encode_utf8_decode_utf8(chars);
    }
    match string_from_utf8(bytes) {
        Some(text) => text,
        None => String::new(),
    }
}

fn atom_of(word: &[u8]) -> (r: Option<TypeTree>)
    ensures
        match r {
            Some(t) => atom(word@) == Some(t@),
            None => atom(word@) is None,
        },
{
    if bytes_eq(word, "bool".as_bytes()) {
        Some(TypeTree::Bool)
    } else if bytes_eq(word, "char".as_bytes()) {
        Some(TypeTree::Char)
    } else if bytes_eq(word, "String".as_bytes()) {
        Some(TypeTree::String)
    } else if bytes_eq(word, "u8".as_bytes()) {
        Some(TypeTree::Int { signed: false, width: IntWidth::W8 })
    } else if bytes_eq(word, "u16".as_bytes()) {
        Some(TypeTree::Int { signed: false, width: IntWidth::W16 })
    } else if bytes_eq(word, "u32".as_bytes()) {
        Some(TypeTree::Int { signed: false, width: IntWidth::W32 })
    } else if bytes_eq(word, "u64".as_bytes()) {
        Some(TypeTree::Int { signed: false, width: IntWidth::W64 })
    } else if bytes_eq(word, "u128".as_bytes()) {
        Some(TypeTree::Int { signed: false, width: IntWidth::W128 })
    } else if bytes_eq(word, "i8".as_bytes()) {
        Some(TypeTree::Int { signed: true, width: IntWidth::W8 })
    } else if bytes_eq(word, "i16".as_bytes()) {
        Some(TypeTree::Int { signed: true, width: IntWidth::W16 })
    } else if bytes_eq(word, "i32".as_bytes()) {
        Some(TypeTree::Int { signed: true, width: IntWidth::W32 })
    } else if bytes_eq(word, "i64".as_bytes()) {
        Some(TypeTree::Int { signed: true, width: IntWidth::W64 })
    } else if bytes_eq(word, "i128".as_bytes()) {
        Some(TypeTree::Int { signed: true, width: IntWidth::W128 })
    } else if bytes_eq(word, "f32".as_bytes()) {
        Some(TypeTree::Float { width: FloatWidth::W32 })
    } else if bytes_eq(word, "f64".as_bytes()) {
        Some(TypeTree::Float { width: FloatWidth::W64 })
    } else {
        None
    }
}

fn reference_of(text: &[u8]) -> (r: Option<TypeTree>)
    ensures
        match r {
            Some(t) => reference(text@) == Some(t@),
            None => reference(text@) is None,
        },
{
    if bytes_eq(text, "&[u8]".as_bytes()) {
        Some(TypeTree::ByteSlice)
    } else if bytes_eq(text, "&str".as_bytes()) {
        Some(TypeTree::String)
    } else {
        None
    }
}

fn read_identifier(s: &[u8], lo: usize, hi: usize) -> (r: Option<String>)
    requires
        lo <= hi <= s@.len(),
    ensures
        match r {
            Some(name) => identifier(s@, lo as int, hi as int) == Some(name@),
            None => identifier(s@, lo as int, hi as int) is None,
        },
{
    let a = skip_spaces(s, lo, hi);
    let b = drop_spaces(s, a, hi);
    if a >= b {
        return None;
    }
    if end_of_word(s, a, b) != b || is_digit_byte(s[a]) {
        return None;
    }
    Some(word_text(s, a, b))
}

/// The type that the text of `s` from `lo` to `hi` describes.
fn parse_range(s: &[u8], lo: usize, hi: usize) -> (r: Result<TypeTree, ParseError>)
    requires
        lo <= hi <= s@.len(),
    ensures
        match r {
            Ok(t) => parse_spec(s@, lo as int, hi as int) == Ok::<TypeView, ParseError>(t@),
            Err(e) => parse_spec(s@, lo as int, hi as int) == Err::<TypeView, ParseError>(e),
        },
    decreases hi - lo, 0nat,
{
    let a = skip_spaces(s, lo, hi);
    let b = drop_spaces(s, a, hi);
    if a >= b {
        return Err(ParseError::Syntax);
    }
    let first = s[a];
    if first == 0x28 {
        if b - a < 2 || s[b - 1] != 0x29 {
            return Err(ParseError::Syntax);
        }
        let elems = parse_list_range(s, a + 1, b - 1)?;
        let tree = TypeTree::Tuple { elems };
        assert(tree@->Tuple_elems =~= tree_views(tree->Tuple_elems@));
        Ok(tree)
    } else if first == 0x5B {
        if b - a < 2 || s[b - 1] != 0x5D {
            return Err(ParseError::Syntax);
        }
        let semi = find_separator(s, a + 1, b - 1, 0x3B);
        if semi >= b - 1 {
            return Err(ParseError::Syntax);
        }
        let elem = parse_range(s, a + 1, semi)?;
        match read_number(s, semi + 1, b - 1) {
            Some(len) => Ok(TypeTree::Array { elem: Box::new(elem), len }),
            None => Err(ParseError::Syntax),
        }
    } else if first == 0x26 {
        match reference_of(slice_subrange(s, a, b)) {
            Some(t) => Ok(t),
            None => Err(ParseError::UnknownType),
        }
    } else if is_word(first) {
        let e = end_of_word(s, a, b);
        let word = slice_subrange(s, a, e);
        if e == b {
            return match atom_of(word) {
                Some(t) => Ok(t),
                None => Err(ParseError::UnknownType),
            };
        }
        let is_vec = bytes_eq(word, "Vec".as_bytes());
        let is_option = bytes_eq(word, "Option".as_bytes());
        if s[e] == 0x3C && (is_vec || is_option) {
            if s[b - 1] != 0x3E || b - e < 2 {
                return Err(ParseError::Syntax);
            }
            let inner = parse_range(s, e + 1, b - 1)?;
            if is_vec {
                Ok(TypeTree::Vec { elem: Box::new(inner) })
            } else {
                Ok(TypeTree::Option { inner: Box::new(inner) })
            }
        } else {
            let c = skip_spaces(s, e, b);
            if c < b && s[c] == 0x7B {
                if is_digit_byte(first) || s[b - 1] != 0x7D || b - c < 2 {
                    return Err(ParseError::Syntax);
                }
                let fields = parse_fields_range(s, c + 1, b - 1)?;
                let name = word_text(s, a, e);
                let tree = TypeTree::Struct { name, fields };
                assert(tree@->Struct_fields =~= field_views(tree->Struct_fields@));
                Ok(tree)
            } else if is_vec || is_option || atom_of(word).is_some() {
                Err(ParseError::Syntax)
            } else {
                Err(ParseError::UnknownType)
            }
        }
    } else {
        Err(ParseError::Syntax)
    }
}

/// The types that the list in `s` from `lo` to `hi` describes.
fn parse_list_range(s: &[u8], lo: usize, hi: usize) -> (r: Result<Vec<TypeTree>, ParseError>)
    requires
        lo <= hi <= s@.len(),
    ensures
        match r {
            Ok(ts) => parse_list(s@, lo as int, hi as int) == Ok::<Seq<TypeView>, ParseError>(tree_views(ts@)),
            Err(e) => parse_list(s@, lo as int, hi as int) == Err::<Seq<TypeView>, ParseError>(e),
        },
    decreases hi - lo, 1nat,
{
    if skip_spaces(s, lo, hi) >= hi {
        let none: Vec<TypeTree> = Vec::new();
        assert(tree_views(none@) =~= Seq::<TypeView>::empty());
        return Ok(none);
    }
    let comma = find_separator(s, lo, hi, 0x2C);
    let first = parse_range(s, lo, comma)?;
    let ghost head = first@;
    if comma >= hi {
        let mut one: Vec<TypeTree> = Vec::new();
        one.push(first);
        assert(tree_views(one@) =~= seq![head]);
        Ok(one)
    } else {
        let mut all = parse_list_range(s, comma + 1, hi)?;
        let ghost rest = tree_views(all@);
        all.insert(0, first);
        assert(tree_views(all@) =~= seq![head] + rest);
        Ok(all)
    }
}

/// The fields that the list in `s` from `lo` to `hi` describes.
fn parse_fields_range(s: &[u8], lo: usize, hi: usize) -> (r: Result<Vec<(String, TypeTree)>, ParseError>)
    requires
        lo <= hi <= s@.len(),
    ensures
        match r {
            Ok(fs) => parse_fields(s@, lo as int, hi as int) == Ok::<Seq<(Seq<char>, TypeView)>, ParseError>(
                field_views(fs@),
            ),
            Err(e) => parse_fields(s@, lo as int, hi as int) == Err::<Seq<(Seq<char>, TypeView)>, ParseError>(
                e,
            ),
        },
    decreases hi - lo, 1nat,
{
    if skip_spaces(s, lo, hi) >= hi {
        let none: Vec<(String, TypeTree)> = Vec::new();
        assert(field_views(none@) =~= Seq::<(Seq<char>, TypeView)>::empty());
        return Ok(none);
    }
    let comma = find_separator(s, lo, hi, 0x2C);
    let colon = find_separator(s, lo, comma, 0x3A);
    if colon >= comma {
        return Err(ParseError::Syntax);
    }
    let name = match read_identifier(s, lo, colon) {
        Some(name) => name,
        None => {
            return Err(ParseError::Syntax);
        },
    };
    let tree = parse_range(s, colon + 1, comma)?;
    let ghost head = (name@, tree@);
    if comma >= hi {
        let mut one: Vec<(String, TypeTree)> = Vec::new();
        one.push((name, tree));
        assert(field_views(one@) =~= seq![head]);
        Ok(one)
    } else {
        let mut all = parse_fields_range(s, comma + 1, hi)?;
        let ghost rest = field_views(all@);
        all.insert(0, (name, tree));
        assert(field_views(all@) =~= seq![head] + rest);
        Ok(all)
    }
}

/// The parser of the descriptor language.
pub struct Grammar;

impl Grammar {
    /// The type that `text` describes. A type that the library does not
    /// know is told apart from other errors, so that a caller may treat it
    /// as opaque.
    pub fn parse(text: &str) -> (r: Result<TypeTree, ParseError>)
        ensures
            match r {
                Ok(t) => descriptor_type(encode_utf8(text@)) == Ok::<TypeView, ParseError>(t@) && t@.wf(),
                Err(e) => descriptor_type(encode_utf8(text@)) == Err::<TypeView, ParseError>(e),
            },
    {
        let bytes = text.as_bytes();
        let tree = parse_range(bytes, 0, bytes.len())?;
        match measure(&tree) {
            Ok(_) => Ok(tree),
            Err(_) => Err(ParseError::Syntax),
        }
    }
}

/// The type that the descriptor `ty` describes.
pub fn parse_tree(ty: &str) -> (r: Result<TypeTree, ParseError>)
    ensures
        match r {
            Ok(t) => descriptor_type(encode_utf8(ty@)) == Ok::<TypeView, ParseError>(t@) && t@.wf(),
            Err(e) => descriptor_type(encode_utf8(ty@)) == Err::<TypeView, ParseError>(e),
        },
{
    Grammar::parse(ty)
}

} // verus!
