//! The canonical value: what a decoded key or value is, whatever its type.

use vstd::prelude::*;
use crate::text::str_eq;

verus! {

/// A number: an integer between `i128::MIN` and `u128::MAX`, or the bit
/// pattern of an IEEE 754 float. The library moves floats and does no
/// arithmetic on them.
#[derive(Clone, Copy, Debug, PartialEq, Eq)]
pub enum Number {
    /// An integer that is not negative.
    PosInt(u128),
    /// A negative integer.
    NegInt(i128),
    /// The bits of a single-precision float.
    Float32(u32),
    /// The bits of a double-precision float.
    Float64(u64),
}

/// A value of any type: what the codec reads and writes.
#[derive(Debug, PartialEq)]
pub enum Value {
    Null,
    Bool(bool),
    Number(Number),
    String(String),
    Sequence(Vec<Value>),
    /// A record, as its entries. Where a name occurs twice the later entry
    /// counts.
    Record(Vec<(String, Value)>),
}

/// The mathematical value of a [`Value`].
pub ghost enum ValueView {
    Null,
    Bool(bool),
    Int(int),
    /// A float of `bytes` bytes with the bit pattern `pattern`.
    Float { bytes: nat, pattern: nat },
    String(Seq<char>),
    Sequence(Seq<ValueView>),
    Record(Map<Seq<char>, ValueView>),
}

/// The map that the entries `pairs` make, a later entry replacing an
/// earlier one of the same name.
pub open spec fn map_of(pairs: Seq<(Seq<char>, ValueView)>) -> Map<Seq<char>, ValueView>
    decreases pairs.len(),
{
    if pairs.len() == 0 {
        Map::empty()
    } else {
        map_of(pairs.drop_last()).insert(pairs.last().0, pairs.last().1)
    }
}

impl View for Number {
    type V = ValueView;

    open spec fn view(&self) -> ValueView {
        match self {
            Number::PosInt(n) => ValueView::Int(*n as int),
            Number::NegInt(n) => ValueView::Int(*n as int),
            Number::Float32(p) => ValueView::Float { bytes: 4, pattern: *p as nat },
            Number::Float64(p) => ValueView::Float { bytes: 8, pattern: *p as nat },
        }
    }
}

/// The mathematical value of `v`.
pub open spec fn value_view(v: Value) -> ValueView
    decreases v, 0nat,
{
    match v {
        Value::Null => ValueView::Null,
        Value::Bool(b) => ValueView::Bool(b),
        Value::Number(n) => n@,
        Value::String(s) => ValueView::String(s@),
        Value::Sequence(items) => ValueView::Sequence(items_view(items@)),
        Value::Record(entries) => ValueView::Record(map_of(entries_view(entries@))),
    }
}

/// The mathematical values of the items of a sequence.
pub open spec fn items_view(items: Seq<Value>) -> Seq<ValueView>
    decreases items, 1nat,
{
    Seq::new(
        items.len(),
        |i: int|
            if 0 <= i < items.len() {
                value_view(items[i])
            } else {
                ValueView::Null
            },
    )
}

/// The entries of a record, each as its name and mathematical value.
pub open spec fn entries_view(entries: Seq<(String, Value)>) -> Seq<(Seq<char>, ValueView)>
    decreases entries, 1nat,
{
    Seq::new(
        entries.len(),
        |i: int|
            if 0 <= i < entries.len() {
                (entries[i].0@, value_view(entries[i].1))
            } else {
                (Seq::empty(), ValueView::Null)
            },
    )
}

impl View for Value {
    type V = ValueView;

    open spec fn view(&self) -> ValueView {
        value_view(*self)
    }
}

impl Number {
    /// The number `n`.
    pub fn from_u128(n: u128) -> (r: Number)
        ensures
            r@ == ValueView::Int(n as int),
    {
        Number::PosInt(n)
    }

    /// The number `n`.
    pub fn from_i128(n: i128) -> (r: Number)
        ensures
            r@ == ValueView::Int(n as int),
    {
        if n < 0 {
            Number::NegInt(n)
        } else {
            Number::PosInt(n as u128)
        }
    }

    /// The number as a `u128`, where it is an integer that a `u128` holds.
    pub fn as_u128(&self) -> (r: Option<u128>)
        ensures
            match r {
                Some(n) => self@ == ValueView::Int(n as int),
                None => !(self@ matches ValueView::Int(i) && 0 <= i <= u128::MAX),
            },
    {
        match self {
            Number::PosInt(n) => Some(*n),
            Number::NegInt(n) => if *n >= 0 {
                Some(*n as u128)
            } else {
                None
            },
            _ => None,
        }
    }

    /// The number as an `i128`, where it is an integer that an `i128` holds.
    pub fn as_i128(&self) -> (r: Option<i128>)
        ensures
            match r {
                Some(n) => self@ == ValueView::Int(n as int),
                None => !(self@ matches ValueView::Int(i) && i128::MIN <= i <= i128::MAX),
            },
    {
        match self {
            Number::PosInt(n) => if *n <= i128::MAX as u128 {
                Some(*n as i128)
            } else {
                None
            },
            Number::NegInt(n) => Some(*n),
            _ => None,
        }
    }
}

/// Every entry's name is in the map, and the last entry's value is there
/// under its name.
pub proof fn lemma_map_of_contains(pairs: Seq<(Seq<char>, ValueView)>, i: int)
    requires
        0 <= i < pairs.len(),
    ensures
        map_of(pairs).contains_key(pairs[i].0),
        (forall|j: int| i < j < pairs.len() ==> pairs[j].0 != pairs[i].0) ==> map_of(pairs)[pairs[i].0]
            == pairs[i].1,
    decreases pairs.len(),
{
    if i < pairs.len() - 1 {
        lemma_map_of_contains(pairs.drop_last(), i);
    }
}

/// A name in the map is the name of an entry.
pub proof fn lemma_map_of_domain(pairs: Seq<(Seq<char>, ValueView)>, name: Seq<char>)
    requires
        map_of(pairs).contains_key(name),
    ensures
        exists|i: int| 0 <= i < pairs.len() && pairs[i].0 == name,
    decreases pairs.len(),
{
    if pairs.len() > 0 {
        if pairs.last().0 == name {
            assert(pairs[pairs.len() - 1].0 == name);
        } else {
            lemma_map_of_domain(pairs.drop_last(), name);
            let i = choose|i: int| 0 <= i < pairs.drop_last().len() && pairs.drop_last()[i].0 == name;
            assert(pairs[i].0 == name);
        }
    }
}

/// The index of the entry of `entries` that counts for `name`: the last one
/// of that name.
pub fn find_entry(entries: &Vec<(String, Value)>, name: &str) -> (r: Option<usize>)
    ensures
        match r {
            Some(i) => i < entries.len() && entries[i as int].0@ == name@ && map_of(
                entries_view(entries@),
            ).contains_key(name@) && map_of(entries_view(entries@))[name@] == entries[i as int].1@,
            None => !map_of(entries_view(entries@)).contains_key(name@),
        },
{
    let ghost pairs = entries_view(entries@);
    let mut i: usize = entries.len();
    while i > 0
        invariant
            0 <= i <= entries.len(),
            pairs == entries_view(entries@),
            forall|j: int| i <= j < entries.len() ==> pairs[j].0 != name@,
        decreases i,
    {
        i -= 1;
        if str_eq(entries[i].0.as_str(), name) {
            proof {
                lemma_map_of_contains(pairs, i as int);
            }
            return Some(i);
        }
    }
    proof {
        if map_of(pairs).contains_key(name@) {
            lemma_map_of_domain(pairs, name@);
        }
    }
    None
}

impl Clone for Value {
    /// A copy of the value.
    fn clone(&self) -> (r: Value)
        ensures
            r@ == self@,
        decreases self,
    {
        match self {
            Value::Null => Value::Null,
            Value::Bool(b) => Value::Bool(*b),
            Value::Number(n) => Value::Number(*n),
            Value::String(s) => Value::String(s.clone()),
            Value::Sequence(items) => {
                let mut out: Vec<Value> = Vec::new();
                let mut i: usize = 0;
                while i < items.len()
                    invariant
                        0 <= i <= items.len(),
                        out@.len() == i,
                        forall|j: int| 0 <= j < i ==> (#[trigger] out@[j])@ == items@[j]@,
                        forall|j: int| 0 <= j < items.len() ==> decreases_to!(self => items[j]),
                    decreases items.len() - i,
                {
                    out.push(items[i].clone());
                    i += 1;
                }
                assert(items_view(out@) =~= items_view(items@));
                Value::Sequence(out)
            },
            Value::Record(entries) => {
                let mut out: Vec<(String, Value)> = Vec::new();
                let mut i: usize = 0;
                while i < entries.len()
                    invariant
                        0 <= i <= entries.len(),
                        out@.len() == i,
                        forall|j: int|
                            0 <= j < i ==> (#[trigger] out@[j]).0@ == entries@[j].0@ && out@[j].1@
                                == entries@[j].1@,
                        forall|j: int| 0 <= j < entries.len() ==> decreases_to!(self => entries[j].1),
                    decreases entries.len() - i,
                {
                    out.push((entries[i].0.clone(), entries[i].1.clone()));
                    i += 1;
                }
                assert(entries_view(out@) =~= entries_view(entries@));
                Value::Record(out)
            },
        }
    }
}

} // verus!
