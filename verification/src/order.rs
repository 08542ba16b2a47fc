//! The order of canonical values: the order in which the engine keeps the
//! keys that they are decoded from.

use std::cmp::Ordering;
use vstd::prelude::*;
use vstd::utf8::{encode_utf8, encode_utf8_decode_utf8};
use crate::value::{items_view, Number, Value, ValueView};

verus! {

/// How one value stands to another.
#[derive(Clone, Copy, Debug, PartialEq, Eq)]
pub enum Order {
    Less,
    Equal,
    Greater,
}

/// The order of the integers `a` and `b`.
pub open spec fn int_order(a: int, b: int) -> Order {
    if a < b {
        Order::Less
    } else if a > b {
        Order::Greater
    } else {
        Order::Equal
    }
}

/// The lexicographic order of the byte strings `a` and `b` from index `i`
/// on, all bytes before `i` being equal.
pub open spec fn lex_from(a: Seq<u8>, b: Seq<u8>, i: int) -> Order
    decreases a.len() - i,
{
    if i < 0 || i >= a.len() || i >= b.len() {
        int_order(a.len() as int, b.len() as int)
    } else if a[i] < b[i] {
        Order::Less
    } else if a[i] > b[i] {
        Order::Greater
    } else {
        lex_from(a, b, i + 1)
    }
}

/// The lexicographic order of the byte strings `a` and `b`.
pub open spec fn lex_order(a: Seq<u8>, b: Seq<u8>) -> Order {
    lex_from(a, b, 0)
}

/// The order of two values, or `None` where they have none: `Null` comes
/// before all else, `false` before `true`, text is ordered by its UTF-8
/// bytes, integers as numbers where an `i128` holds both or a `u128` holds
/// both, and sequences member by member, the shorter first where one
/// begins the other. Floats, records and values of different kinds have
/// no order.
pub open spec fn order_spec(l: ValueView, r: ValueView) -> Option<Order>
    decreases l, 0int,
{
    match (l, r) {
        (ValueView::Null, ValueView::Null) => Some(Order::Equal),
        (ValueView::Null, _) => Some(Order::Less),
        (_, ValueView::Null) => Some(Order::Greater),
        (ValueView::Bool(a), ValueView::Bool(b)) => Some(
            if a == b {
                Order::Equal
            } else if b {
                Order::Less
            } else {
                Order::Greater
            },
        ),
        (ValueView::String(a), ValueView::String(b)) => Some(lex_order(encode_utf8(a), encode_utf8(b))),
        (ValueView::Int(a), ValueView::Int(b)) => if i128::MIN <= a <= i128::MAX && i128::MIN <= b <= i128::MAX {
            Some(int_order(a, b))
        } else if 0 <= a <= u128::MAX && 0 <= b <= u128::MAX {
            Some(int_order(a, b))
        } else {
            None
        },
        (ValueView::Sequence(a), ValueView::Sequence(b)) => order_from(a, b, 0),
        _ => None,
    }
}

/// The order of the sequences `a` and `b` from index `i` on, all members
/// before `i` being equal.
pub open spec fn order_from(a: Seq<ValueView>, b: Seq<ValueView>, i: int) -> Option<Order>
    decreases a, a.len() - i,
{
    if i < 0 || i >= a.len() || i >= b.len() {
        Some(int_order(a.len() as int, b.len() as int))
    } else {
        match order_spec(a[i], b[i]) {
            None => None,
            Some(Order::Equal) => order_from(a, b, i + 1),
            Some(o) => Some(o),
        }
    }
}

/// The lexicographic order of the byte slices `a` and `b`.
pub fn lex_bytes(a: &[u8], b: &[u8]) -> (r: Order)
    ensures
        r == lex_order(a@, b@),
{
    let mut i: usize = 0;
    while i < a.len() && i < b.len()
        invariant
            0 <= i <= a.len(),
            i <= b.len(),
            lex_order(a@, b@) == lex_from(a@, b@, i as int),
        decreases a.len() - i,
    {
        if a[i] < b[i] {
            return Order::Less;
        }
        if a[i] > b[i] {
            return Order::Greater;
        }
        i += 1;
    }
    if a.len() < b.len() {
        Order::Less
    } else if a.len() > b.len() {
        Order::Greater
    } else {
        Order::Equal
    }
}

/// The order of the numbers `l` and `r`.
fn order_numbers(l: &Number, r: &Number) -> (o: Option<Order>)
    ensures
        o == order_spec(l@, r@),
{
    match (l.as_i128(), r.as_i128()) {
        (Some(a), Some(b)) => {
            return Some(
                if a < b {
                    Order::Less
                } else if a > b {
                    Order::Greater
                } else {
                    Order::Equal
                },
            );
        },
        _ => {},
    }
    match (l.as_u128(), r.as_u128()) {
        (Some(a), Some(b)) => Some(
            if a < b {
                Order::Less
            } else if a > b {
                Order::Greater
            } else {
                Order::Equal
            },
        ),
        _ => None,
    }
}

/// The order of the values `l` and `r`, or `None` where they have none.
pub fn order_values(l: &Value, r: &Value) -> (o: Option<Order>)
    ensures
        o == order_spec(l@, r@),
    decreases l,
{
    match l {
        Value::Null => match r {
            Value::Null => Some(Order::Equal),
            _ => Some(Order::Less),
        },
        Value::Bool(a) => match r {
            Value::Null => Some(Order::Greater),
            Value::Bool(b) => Some(
                if *a == *b {
                    Order::Equal
                } else if *b {
                    Order::Less
                } else {
                    Order::Greater
                },
            ),
            _ => None,
        },
        Value::Number(a) => match r {
            Value::Null => Some(Order::Greater),
            Value::Number(b) => order_numbers(a, b),
            _ => None,
        },
        Value::String(a) => match r {
            Value::Null => Some(Order::Greater),
            Value::String(b) => Some(lex_bytes(a.as_str().as_bytes(), b.as_str().as_bytes())),
            _ => None,
        },
        Value::Sequence(a) => match r {
            Value::Null => Some(Order::Greater),
            Value::Sequence(b) => {
                let ghost av = items_view(a@);
                let ghost bv = items_view(b@);
                let mut i: usize = 0;
                while i < a.len() && i < b.len()
                    invariant
                        0 <= i <= a.len(),
                        i <= b.len(),
                        av == items_view(a@),
                        bv == items_view(b@),
                        l@ == ValueView::Sequence(av),
                        r@ == ValueView::Sequence(bv),
                        order_from(av, bv, 0) == order_from(av, bv, i as int),
                        forall|j: int| 0 <= j < a.len() ==> decreases_to!(l => a[j]),
                    decreases a.len() - i,
                {
                    assert(av[i as int] == a[i as int]@);
                    assert(bv[i as int] == b[i as int]@);
                    match order_values(&a[i], &b[i]) {
                        None => {
                            return None;
                        },
                        Some(Order::Equal) => {},
                        Some(o) => {
                            return Some(o);
                        },
                    }
                    i += 1;
                }
                Some(
                    if a.len() < b.len() {
                        Order::Less
                    } else if a.len() > b.len() {
                        Order::Greater
                    } else {
                        Order::Equal
                    },
                )
            },
            _ => None,
        },
        Value::Record(_) => match r {
            Value::Null => Some(Order::Greater),
            _ => None,
        },
    }
}

/// The order `o` in the words of the standard library.
pub open spec fn std_order(o: Option<Order>) -> Option<Ordering> {
    match o {
        Some(Order::Less) => Some(Ordering::Less),
        Some(Order::Equal) => Some(Ordering::Equal),
        Some(Order::Greater) => Some(Ordering::Greater),
        None => None,
    }
}

/// The order of the values `l` and `r`, or `None` where they have none.
pub fn ordering(l: &Value, r: &Value) -> (o: Option<Ordering>)
    ensures
        o == std_order(order_spec(l@, r@)),
{
    match order_values(l, r) {
        Some(Order::Less) => Some(Ordering::Less),
        Some(Order::Equal) => Some(Ordering::Equal),
        Some(Order::Greater) => Some(Ordering::Greater),
        None => None,
    }
}

impl Order {
    /// The order the other way round.
    pub open spec fn reversed(self) -> Order {
        match self {
            Order::Less => Order::Greater,
            Order::Equal => Order::Equal,
            Order::Greater => Order::Less,
        }
    }

    /// The order of the first to the third of three things, of which the
    /// first stands to the second as `self` and the second to the third as
    /// `next`, neither being `Greater`.
    pub open spec fn followed_by(self, next: Order) -> Order {
        if self is Equal {
            next
        } else {
            self
        }
    }
}

/// Byte strings the other way round are in the reversed order.
pub proof fn lemma_lex_converse(a: Seq<u8>, b: Seq<u8>, i: int)
    requires
        0 <= i,
    ensures
        lex_from(b, a, i) == lex_from(a, b, i).reversed(),
    decreases a.len() - i,
{
    if i < a.len() && i < b.len() && a[i] == b[i] {
        lemma_lex_converse(a, b, i + 1);
    }
}

/// Byte strings in the order `Equal` from `i` on are equal from `i` on.
pub proof fn lemma_lex_equal(a: Seq<u8>, b: Seq<u8>, i: int)
    requires
        0 <= i,
        lex_from(a, b, i) is Equal,
    ensures
        a.len() == b.len(),
        forall|j: int| i <= j < a.len() ==> a[j] == b[j],
    decreases a.len() - i,
{
    if i < a.len() && i < b.len() {
        lemma_lex_equal(a, b, i + 1);
    }
}

/// The lexicographic order is transitive.
pub proof fn lemma_lex_transitive(a: Seq<u8>, b: Seq<u8>, c: Seq<u8>, i: int)
    requires
        0 <= i,
        !(lex_from(a, b, i) is Greater),
        !(lex_from(b, c, i) is Greater),
    ensures
        lex_from(a, c, i) == lex_from(a, b, i).followed_by(lex_from(b, c, i)),
    decreases a.len() - i,
{
    if i < a.len() && i < b.len() && i < c.len() && a[i] == b[i] && b[i] == c[i] {
        lemma_lex_transitive(a, b, c, i + 1);
    }
}

/// Two values the other way round are in the reversed order, and have
/// none where they had none.
pub proof fn lemma_order_converse(l: ValueView, r: ValueView)
    ensures
        order_spec(r, l) == match order_spec(l, r) {
            Some(o) => Some(o.reversed()),
            None => None,
        },
    decreases l, 0int,
{
    match (l, r) {
        (ValueView::String(a), ValueView::String(b)) => {
            lemma_lex_converse(encode_utf8(a), encode_utf8(b), 0);
        },
        (ValueView::Sequence(a), ValueView::Sequence(b)) => {
            lemma_order_from_converse(a, b, 0);
        },
        _ => {},
    }
}

/// Two sequences the other way round are in the reversed order from `i`
/// on.
pub proof fn lemma_order_from_converse(a: Seq<ValueView>, b: Seq<ValueView>, i: int)
    requires
        0 <= i,
    ensures
        order_from(b, a, i) == match order_from(a, b, i) {
            Some(o) => Some(o.reversed()),
            None => None,
        },
    decreases a, a.len() - i,
{
    if i < a.len() && i < b.len() {
        lemma_order_converse(a[i], b[i]);
        lemma_order_from_converse(a, b, i + 1);
    }
}

/// Values in the order `Equal` are equal.
pub proof fn lemma_order_equal(l: ValueView, r: ValueView)
    requires
        order_spec(l, r) == Some(Order::Equal),
    ensures
        l == r,
    decreases l, 0int,
{
    match (l, r) {
        (ValueView::String(a), ValueView::String(b)) => {
            lemma_lex_equal(encode_utf8(a), encode_utf8(b), 0);
            assert(encode_utf8(a) =~= encode_utf8(b));
            encode_utf8_decode_utf8(a);
            encode_utf8_decode_utf8(b);
        },
        (ValueView::Sequence(a), ValueView::Sequence(b)) => {
            lemma_order_from_equal(a, b, 0);
            assert(a =~= b);
        },
        _ => {},
    }
}

/// Sequences in the order `Equal` from `i` on are equal from `i` on.
pub proof fn lemma_order_from_equal(a: Seq<ValueView>, b: Seq<ValueView>, i: int)
    requires
        0 <= i,
        order_from(a, b, i) == Some(Order::Equal),
    ensures
        a.len() == b.len(),
        forall|j: int| i <= j < a.len() ==> a[j] == b[j],
    decreases a, a.len() - i,
{
    if i < a.len() && i < b.len() {
        lemma_order_equal(a[i], b[i]);
        lemma_order_from_equal(a, b, i + 1);
    }
}

/// A value that has an order to itself is equal to itself in it.
pub proof fn lemma_order_reflexive(v: ValueView)
    requires
        order_spec(v, v) is Some,
    ensures
        order_spec(v, v) == Some(Order::Equal),
{
    lemma_order_converse(v, v);
}

/// The order is transitive on values of which any two have an order:
/// where the first is not after the second and the second not after the
/// third, the first is not after the third, and before it where it is
/// before the second or the second before the third.
pub proof fn lemma_order_transitive(a: ValueView, b: ValueView, c: ValueView)
    requires
        order_spec(a, b) matches Some(x) && !(x is Greater),
        order_spec(b, c) matches Some(y) && !(y is Greater),
        order_spec(a, c) is Some,
    ensures
        order_spec(a, c) == Some(order_spec(a, b)->0.followed_by(order_spec(b, c)->0)),
    decreases a, 0int,
{
    match (a, b, c) {
        (ValueView::String(x), ValueView::String(y), ValueView::String(z)) => {
            lemma_lex_transitive(encode_utf8(x), encode_utf8(y), encode_utf8(z), 0);
        },
        (ValueView::Sequence(x), ValueView::Sequence(y), ValueView::Sequence(z)) => {
            lemma_order_from_transitive(x, y, z, 0);
        },
        _ => {},
    }
}

/// The order of sequences is transitive from `i` on.
pub proof fn lemma_order_from_transitive(a: Seq<ValueView>, b: Seq<ValueView>, c: Seq<ValueView>, i: int)
    requires
        0 <= i,
        order_from(a, b, i) matches Some(x) && !(x is Greater),
        order_from(b, c, i) matches Some(y) && !(y is Greater),
        order_from(a, c, i) is Some,
    ensures
        order_from(a, c, i) == Some(order_from(a, b, i)->0.followed_by(order_from(b, c, i)->0)),
    decreases a, a.len() - i,
{
    if i < a.len() && i < b.len() && i < c.len() {
        lemma_order_transitive(a[i], b[i], c[i]);
        if order_spec(a[i], b[i]) == Some(Order::Equal) && order_spec(b[i], c[i]) == Some(Order::Equal) {
            lemma_order_from_transitive(a, b, c, i + 1);
        }
    }
}

} // verus!
