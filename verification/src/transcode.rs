//! The adapters through which the engine sees the keys and values of one
//! table, whatever their types.

use std::cmp::Ordering;
use vstd::prelude::*;
use vstd::utf8::encode_utf8;
use crate::codec::decode::decode_value;
use crate::codec::encode::encode_value;
use crate::codec::laws::lemma_decoded_comparable;
use crate::codec::model::{decode_spec, encode_spec};
use crate::descriptor::{descriptor_type, parse_tree};
use crate::error::{DecodeError, EncodeError};
use crate::order::{lex_bytes, lex_order, order_spec, order_values, std_order, Order};
use crate::text::{lossy_text, string_from_utf8_lossy};
use crate::tree::{can_order, TypeTree, TypeView};
use crate::value::{Value, ValueView};

verus! {

/// What one table's schema is: the types of its keys and values, and
/// whether a key may have several values.
pub struct KVType<T> {
    pub k_ty: T,
    pub v_ty: T,
    pub is_multi: bool,
}

/// How the keys or the values of a table are decoded, encoded and ordered:
/// under a type tree, or raw. Raw bytes are read as text, lossily; text is
/// written as its bytes; and the order is that of the bytes.
pub struct EncDe {
    tree: Option<TypeTree>,
}

impl EncDe {
    #[verifier::type_invariant]
    spec fn inv(self) -> bool {
        match self.tree {
            Some(t) => t@.wf(),
            None => true,
        }
    }

    /// The type under which this codec works, or `None` where it is raw.
    pub closed spec fn tree(self) -> Option<TypeView> {
        match self.tree {
            Some(t) => Some(t@),
            None => None,
        }
    }

    /// What the codec decodes `b` to.
    pub open spec fn decoded(self, b: Seq<u8>) -> Result<ValueView, DecodeError> {
        match self.tree() {
            None => Ok(ValueView::String(lossy_text(b))),
            Some(t) => match decode_spec(t, b) {
                Ok((v, _)) => Ok(v),
                Err(e) => Err(e),
            },
        }
    }

    /// What the codec encodes `v` to.
    pub open spec fn encoded(self, v: ValueView) -> Result<Seq<u8>, EncodeError> {
        match self.tree() {
            None => match v {
                ValueView::String(s) => Ok(encode_utf8(s)),
                _ => Err(EncodeError::TypeError),
            },
            Some(t) => encode_spec(t, v),
        }
    }

    /// How the codec orders `l` and `r`: raw, as bytes; under a type, as
    /// the values that they decode to, where both decode and the values
    /// have an order.
    pub open spec fn ordered(self, l: Seq<u8>, r: Seq<u8>) -> Option<Order> {
        match self.tree() {
            None => Some(lex_order(l, r)),
            Some(t) => match (decode_spec(t, l), decode_spec(t, r)) {
                (Ok((a, _)), Ok((b, _))) => order_spec(a, b),
                _ => None,
            },
        }
    }

    /// The raw codec.
    pub fn new_for_slices() -> (r: EncDe)
        ensures
            r.tree() is None,
    {
        EncDe { tree: None }
    }

    /// The codec of the type `tree`.
    pub fn new_for_tree(tree: TypeTree) -> (r: EncDe)
        requires
            tree@.wf(),
        ensures
            r.tree() == Some(tree@),
    {
        EncDe { tree: Some(tree) }
    }

    /// The type under which the codec works, or `None` where it is raw.
    pub fn type_tree(&self) -> (r: Option<&TypeTree>)
        ensures
            match r {
                Some(t) => self.tree() == Some(t@) && t@.wf(),
                None => self.tree() is None,
            },
    {
        proof {
            use_type_invariant(self);
        }
        self.tree.as_ref()
    }

    /// Whether the codec is the raw one.
    pub fn is_raw(&self) -> (r: bool)
        ensures
            r == self.tree() is None,
    {
        self.tree.is_none()
    }

    /// Whether the values of this codec may bear the sort order of a table.
    pub fn can_order(&self) -> (r: bool)
        ensures
            r == match self.tree() {
                Some(t) => t.orderable(),
                None => true,
            },
    {
        match &self.tree {
            Some(t) => can_order(t),
            None => true,
        }
    }

    /// The value that `data` holds.
    pub fn de(&self, data: &[u8]) -> (r: Result<Value, DecodeError>)
        ensures
            match r {
                Ok(v) => self.decoded(data@) == Ok::<ValueView, DecodeError>(v@),
                Err(e) => self.decoded(data@) == Err::<ValueView, DecodeError>(e),
            },
    {
        proof {
            use_type_invariant(self);
        }
        match &self.tree {
            None => Ok(Value::String(string_from_utf8_lossy(data))),
            Some(t) => match decode_value(t, data) {
                Ok((v, _)) => Ok(v),
                Err(e) => Err(e),
            },
        }
    }

    /// The bytes of `value`.
    pub fn enc(&self, value: &Value) -> (r: Result<Vec<u8>, EncodeError>)
        ensures
            match r {
                Ok(b) => self.encoded(value@) == Ok::<Seq<u8>, EncodeError>(b@),
                Err(e) => self.encoded(value@) == Err::<Seq<u8>, EncodeError>(e),
            },
    {
        proof {
            use_type_invariant(self);
        }
        match &self.tree {
            None => match value {
                Value::String(s) => {
                    let mut out: Vec<u8> = Vec::new();
                    out.extend_from_slice(s.as_str().as_bytes());
                    assert(out@ =~= encode_utf8(s@));
                    Ok(out)
                },
                _ => Err(EncodeError::TypeError),
            },
            Some(t) => encode_value(t, value),
        }
    }

    /// The order of the encoded values `l` and `r`, never that of their
    /// bytes unless the codec is raw.
    pub fn ord(&self, l: &[u8], r: &[u8]) -> (o: Option<Ordering>)
        ensures
            o == std_order(self.ordered(l@, r@)),
            self.tree() matches Some(t) && t.orderable() && decode_spec(t, l@) is Ok && decode_spec(t, r@) is Ok
                ==> o is Some,
    {
        proof {
            use_type_invariant(self);
        }
        let order = match &self.tree {
            None => Some(lex_bytes(l, r)),
            Some(t) => match decode_value(t, l) {
                Err(_) => None,
                Ok((a, _)) => match decode_value(t, r) {
                    Err(_) => None,
                    Ok((b, _)) => {
                        proof {
                            if t@.orderable() {
                                lemma_decoded_comparable(t@, l@, r@);
                            }
                        }
                        order_values(&a, &b)
                    },
                },
            },
        };
        match order {
            Some(Order::Less) => Some(Ordering::Less),
            Some(Order::Equal) => Some(Ordering::Equal),
            Some(Order::Greater) => Some(Ordering::Greater),
            None => None,
        }
    }
}

/// The codec for the type that the engine names `name`: the raw codec for
/// text, which is taken as it stands; the codec of the type for any other
/// type that the descriptor describes; none for a name that describes no
/// type.
pub fn enc_de(name: &str) -> (r: Option<EncDe>)
    ensures
        match descriptor_type(encode_utf8(name@)) {
            Ok(t) => r matches Some(codec) && codec.tree() == (if t is String {
                None
            } else {
                Some(t)
            }),
            Err(_) => r is None,
        },
{
    match parse_tree(name) {
        Ok(TypeTree::String) => Some(EncDe::new_for_slices()),
        Ok(tree) => Some(EncDe::new_for_tree(tree)),
        Err(_) => None,
    }
}

/// Why a type cannot be the type of a sort key.
#[derive(Clone, Copy, Debug, PartialEq, Eq)]
pub enum KeyError {
    /// The values of the type have no order that the engine could rely on.
    Unorderable,
}

/// The adapter for the keys of a table: the name and width that the
/// engine knows the key type by, and a codec whose values have an order.
pub struct K {
    name: String,
    width: Option<usize>,
    codec: EncDe,
}

/// The adapter for the values of a table.
pub struct V {
    name: String,
    width: Option<usize>,
    codec: EncDe,
}

impl K {
    #[verifier::type_invariant]
    spec fn inv(self) -> bool {
        match self.codec.tree() {
            Some(t) => t.orderable(),
            None => true,
        }
    }

    /// The name that the engine knows the key type by.
    pub closed spec fn name(self) -> Seq<char> {
        self.name@
    }

    /// The width that the engine knows the key type by.
    pub closed spec fn width(self) -> Option<usize> {
        self.width
    }

    /// The codec of the keys.
    pub closed spec fn codec(self) -> EncDe {
        self.codec
    }

    /// The adapter for keys that the engine names `name` and gives the
    /// width `width`. A codec whose type is not orderable is refused before
    /// any key is compared.
    pub fn new(name: String, width: Option<usize>, codec: EncDe) -> (r: Result<K, KeyError>)
        ensures
            match r {
                Ok(k) => k.name() == name@ && k.width() == width && k.codec() == codec && (codec.tree() matches Some(
                    t,
                ) ==> t.orderable()),
                Err(e) => codec.tree() matches Some(t) && !t.orderable(),
            },
    {
        if codec.can_order() {
            Ok(K { name, width, codec })
        } else {
            Err(KeyError::Unorderable)
        }
    }

    /// The order of the encoded keys `data1` and `data2`: that of the keys,
    /// not of their bytes. Two keys that decode have an order.
    pub fn compare(&self, data1: &[u8], data2: &[u8]) -> (o: Option<Ordering>)
        ensures
            o == std_order(self.codec().ordered(data1@, data2@)),
            self.codec().decoded(data1@) is Ok && self.codec().decoded(data2@) is Ok ==> o is Some,
    {
        proof {
            use_type_invariant(self);
        }
        self.codec.ord(data1, data2)
    }

    /// The bytes of the key `value`.
    pub fn as_bytes(&self, value: &Value) -> (r: Result<Vec<u8>, EncodeError>)
        ensures
            match r {
                Ok(b) => self.codec().encoded(value@) == Ok::<Seq<u8>, EncodeError>(b@),
                Err(e) => self.codec().encoded(value@) == Err::<Seq<u8>, EncodeError>(e),
            },
    {
        self.codec.enc(value)
    }

    /// The key that `data` holds.
    pub fn from_bytes(&self, data: &[u8]) -> (r: Result<Value, DecodeError>)
        ensures
            match r {
                Ok(v) => self.codec().decoded(data@) == Ok::<ValueView, DecodeError>(v@),
                Err(e) => self.codec().decoded(data@) == Err::<ValueView, DecodeError>(e),
            },
    {
        self.codec.de(data)
    }

    /// The width that the engine knows the key type by.
    pub fn fixed_width(&self) -> (r: Option<usize>)
        ensures
            r == self.width(),
    {
        self.width
    }

    /// The name that the engine knows the key type by.
    pub fn descriptor(&self) -> (r: &String)
        ensures
            r@ == self.name(),
    {
        &self.name
    }

    /// The codec of the keys.
    pub fn encde(&self) -> (r: &EncDe)
        ensures
            *r == self.codec(),
    {
        &self.codec
    }
}

impl V {
    /// The name that the engine knows the value type by.
    pub closed spec fn name(self) -> Seq<char> {
        self.name@
    }

    /// The width that the engine knows the value type by.
    pub closed spec fn width(self) -> Option<usize> {
        self.width
    }

    /// The codec of the values.
    pub closed spec fn codec(self) -> EncDe {
        self.codec
    }

    /// The adapter for values that the engine names `name` and gives the
    /// width `width`.
    pub fn new(name: String, width: Option<usize>, codec: EncDe) -> (r: V)
        ensures
            r.name() == name@,
            r.width() == width,
            r.codec() == codec,
    {
        V { name, width, codec }
    }

    /// The bytes of the value `value`.
    pub fn as_bytes(&self, value: &Value) -> (r: Result<Vec<u8>, EncodeError>)
        ensures
            match r {
                Ok(b) => self.codec().encoded(value@) == Ok::<Seq<u8>, EncodeError>(b@),
                Err(e) => self.codec().encoded(value@) == Err::<Seq<u8>, EncodeError>(e),
            },
    {
        self.codec.enc(value)
    }

    /// The value that `data` holds.
    pub fn from_bytes(&self, data: &[u8]) -> (r: Result<Value, DecodeError>)
        ensures
            match r {
                Ok(v) => self.codec().decoded(data@) == Ok::<ValueView, DecodeError>(v@),
                Err(e) => self.codec().decoded(data@) == Err::<ValueView, DecodeError>(e),
            },
    {
        self.codec.de(data)
    }

    /// The width that the engine knows the value type by.
    pub fn fixed_width(&self) -> (r: Option<usize>)
        ensures
            r == self.width(),
    {
        self.width
    }

    /// The name that the engine knows the value type by.
    pub fn descriptor(&self) -> (r: &String)
        ensures
            r@ == self.name(),
    {
        &self.name
    }

    /// The codec of the values.
    pub fn encde(&self) -> (r: &EncDe)
        ensures
            *r == self.codec(),
    {
        &self.codec
    }
}

} // verus!
