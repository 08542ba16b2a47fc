//! The type tree: what a descriptor such as `Vec<(u32,String)>` denotes.

use vstd::prelude::*;
use crate::engine::{char_fixed_width, char_width};

verus! {

/// The width of an integer type.
#[derive(Clone, Copy, Debug, PartialEq, Eq)]
pub enum IntWidth {
    W8,
    W16,
    W32,
    W64,
    W128,
}

impl IntWidth {
    /// The number of bytes of an integer of this width.
    pub open spec fn spec_bytes(self) -> nat {
        match self {
            IntWidth::W8 => 1,
            IntWidth::W16 => 2,
            IntWidth::W32 => 4,
            IntWidth::W64 => 8,
            IntWidth::W128 => 16,
        }
    }

    /// The number of bytes of an integer of this width.
    pub fn bytes(self) -> (n: usize)
        ensures
            n == self.spec_bytes(),
    {
        match self {
            IntWidth::W8 => 1,
            IntWidth::W16 => 2,
            IntWidth::W32 => 4,
            IntWidth::W64 => 8,
            IntWidth::W128 => 16,
        }
    }
}

/// The width of a floating-point type.
#[derive(Clone, Copy, Debug, PartialEq, Eq)]
pub enum FloatWidth {
    W32,
    W64,
}

impl FloatWidth {
    /// The number of bytes of a float of this width.
    pub open spec fn spec_bytes(self) -> nat {
        match self {
            FloatWidth::W32 => 4,
            FloatWidth::W64 => 8,
        }
    }

    /// The number of bytes of a float of this width.
    pub fn bytes(self) -> (n: usize)
        ensures
            n == self.spec_bytes(),
    {
        match self {
            FloatWidth::W32 => 4,
            FloatWidth::W64 => 8,
        }
    }
}

/// A type, as a tree. It is immutable once built, and the codec, the width
/// and the orderability of a type are functions of its tree alone.
#[allow(inconsistent_fields)]
#[derive(Debug, PartialEq, Eq)]
pub enum TypeTree {
    Bool,
    Char,
    Int { signed: bool, width: IntWidth },
    Float { width: FloatWidth },
    String,
    ByteSlice,
    /// A fixed number of elements of one type.
    Array { elem: Box<TypeTree>, len: usize },
    /// Any number of elements of one type.
    Vec { elem: Box<TypeTree> },
    Option { inner: Box<TypeTree> },
    Tuple { elems: Vec<TypeTree> },
    /// A named record: its fields in declaration order.
    Struct { name: String, fields: Vec<(String, TypeTree)> },
}

/// The mathematical value of a [`TypeTree`].
#[allow(inconsistent_fields)]
pub ghost enum TypeView {
    Bool,
    Char,
    Int { signed: bool, bytes: nat },
    Float { bytes: nat },
    String,
    ByteSlice,
    Array { elem: Box<TypeView>, len: nat },
    Vec { elem: Box<TypeView> },
    Option { inner: Box<TypeView> },
    Tuple { elems: Seq<TypeView> },
    Struct { name: Seq<char>, fields: Seq<(Seq<char>, TypeView)> },
}

/// The mathematical value of `t`.
pub open spec fn tree_view(t: TypeTree) -> TypeView
    decreases t,
{
    match t {
        TypeTree::Bool => TypeView::Bool,
        TypeTree::Char => TypeView::Char,
        TypeTree::Int { signed, width } => TypeView::Int { signed, bytes: width.spec_bytes() },
        TypeTree::Float { width } => TypeView::Float { bytes: width.spec_bytes() },
        TypeTree::String => TypeView::String,
        TypeTree::ByteSlice => TypeView::ByteSlice,
        TypeTree::Array { elem, len } => TypeView::Array {
            elem: Box::new(tree_view(*elem)),
            len: len as nat,
        },
        TypeTree::Vec { elem } => TypeView::Vec { elem: Box::new(tree_view(*elem)) },
        TypeTree::Option { inner } => TypeView::Option { inner: Box::new(tree_view(*inner)) },
        TypeTree::Tuple { elems } => TypeView::Tuple {
            elems: Seq::new(
                elems@.len(),
                |i: int|
                    if 0 <= i < elems@.len() {
                        tree_view(elems@[i])
                    } else {
                        arbitrary()
                    },
            ),
        },
        TypeTree::Struct { name, fields } => TypeView::Struct {
            name: name@,
            fields: Seq::new(
                fields@.len(),
                |i: int|
                    if 0 <= i < fields@.len() {
                        (fields@[i].0@, tree_view(fields@[i].1))
                    } else {
                        arbitrary()
                    },
            ),
        },
    }
}

impl View for TypeTree {
    type V = TypeView;

    open spec fn view(&self) -> TypeView {
        tree_view(*self)
    }
}

/// The sum of `ws`, or `None` where one of them is.
pub open spec fn sum_widths(ws: Seq<Option<nat>>) -> Option<nat>
    decreases ws.len(),
{
    if ws.len() == 0 {
        Some(0)
    } else {
        match (sum_widths(ws.drop_last()), ws.last()) {
            (Some(a), Some(b)) => Some(a + b),
            _ => None,
        }
    }
}

/// The widths of the members of a tuple.
pub open spec fn tuple_widths(elems: Seq<TypeView>) -> Seq<Option<nat>>
    decreases elems, 1nat,
{
    Seq::new(
        elems.len(),
        |i: int|
            if 0 <= i < elems.len() {
                elems[i].width()
            } else {
                None
            },
    )
}

/// The widths of the fields of a struct.
pub open spec fn field_widths(fields: Seq<(Seq<char>, TypeView)>) -> Seq<Option<nat>>
    decreases fields, 1nat,
{
    Seq::new(
        fields.len(),
        |i: int|
            if 0 <= i < fields.len() {
                fields[i].1.width()
            } else {
                None
            },
    )
}

impl TypeView {
    /// The number of bytes that every value of this type takes, or `None`
    /// where that depends on the value.
    pub open spec fn width(self) -> Option<nat>
        decreases self, 0nat,
    {
        match self {
            TypeView::Bool => Some(1),
            TypeView::Char => Some(char_width()),
            TypeView::Int { bytes, .. } => Some(bytes),
            TypeView::Float { bytes } => Some(bytes),
            TypeView::String => None,
            TypeView::ByteSlice => None,
            TypeView::Array { elem, len } => match elem.width() {
                Some(w) => Some(w * len),
                None => None,
            },
            TypeView::Vec { .. } => None,
            TypeView::Option { inner } => match inner.width() {
                Some(w) => Some(w + 1),
                None => None,
            },
            TypeView::Tuple { elems } => sum_widths(tuple_widths(elems)),
            TypeView::Struct { fields, .. } => sum_widths(field_widths(fields)),
        }
    }

    /// Whether the type is one that a tree can stand for: an integer has 1,
    /// 2, 4, 8 or 16 bytes and a float 4 or 8, and the fixed width of the
    /// type and of every type in it can be held in a `usize`.
    pub open spec fn wf(self) -> bool
        decreases self,
    {
        &&& match self.width() {
            Some(w) => w <= usize::MAX,
            None => true,
        }
        &&& match self {
            TypeView::Array { elem, .. } => elem.wf(),
            TypeView::Vec { elem } => elem.wf(),
            TypeView::Option { inner } => inner.wf(),
            TypeView::Tuple { elems } => forall|i: int| 0 <= i < elems.len() ==> (#[trigger] elems[i]).wf(),
            TypeView::Struct { fields, .. } => forall|i: int|
                0 <= i < fields.len() ==> (#[trigger] fields[i]).1.wf(),
            TypeView::Int { bytes, .. } => bytes == 1 || bytes == 2 || bytes == 4 || bytes == 8 || bytes == 16,
            TypeView::Float { bytes } => bytes == 4 || bytes == 8,
            _ => true,
        }
    }

    /// Whether the order of the values of this type is the order of the
    /// engine's keys. A float has no total order, and a record's fields have
    /// no order of their own.
    pub open spec fn orderable(self) -> bool
        decreases self,
    {
        match self {
            TypeView::Bool | TypeView::Char | TypeView::Int { .. } | TypeView::String | TypeView::ByteSlice => true,
            TypeView::Float { .. } => false,
            TypeView::Array { elem, .. } => elem.orderable(),
            TypeView::Vec { elem } => elem.orderable(),
            TypeView::Option { inner } => inner.orderable(),
            TypeView::Tuple { elems } => forall|i: int| 0 <= i < elems.len() ==> (#[trigger] elems[i]).orderable(),
            TypeView::Struct { .. } => false,
        }
    }
}

/// The outcome of adding up the widths `ws[0..k]` in a `usize`: `Err` at the
/// first member without a width, else the sum, or `None` once it overflows.
spec fn running_sum(ws: Seq<Option<nat>>, k: int) -> Result<Option<usize>, ()> {
    match sum_widths(ws.take(k)) {
        None => Err(()),
        Some(s) => if s <= usize::MAX {
            Ok(Some(s as usize))
        } else {
            Ok(None)
        },
    }
}

/// Adds the width `w` of member `k` to the running sum `acc`.
fn add_width(acc: Option<usize>, w: usize, Ghost(ws): Ghost<Seq<Option<nat>>>, Ghost(k): Ghost<int>) -> (r: Option<usize>)
    requires
        0 <= k < ws.len(),
        ws[k] == Some(w as nat),
        running_sum(ws, k) == Ok::<Option<usize>, ()>(acc),
    ensures
        running_sum(ws, k + 1) == Ok::<Option<usize>, ()>(r),
{
    proof {
        assert(ws.take(k + 1).drop_last() =~= ws.take(k));
    }
    match acc {
        Some(a) => a.checked_add(w),
        None => None,
    }
}

/// The width of `tree` where it and all that it holds fit a `usize`
/// (`Ok`), and `Err` where one does not.
pub fn measure(tree: &TypeTree) -> (r: Result<Option<usize>, ()>)
    ensures
        match r {
            Ok(w) => tree@.wf() && match w {
                Some(n) => tree@.width() == Some(n as nat),
                None => tree@.width() is None,
            },
            Err(_) => !tree@.wf(),
        },
    decreases tree,
{
    match tree {
        TypeTree::Bool => Ok(Some(1)),
        TypeTree::Char => Ok(char_fixed_width()),
        TypeTree::Int { width, .. } => Ok(Some(width.bytes())),
        TypeTree::Float { width } => Ok(Some(width.bytes())),
        TypeTree::String => Ok(None),
        TypeTree::ByteSlice => Ok(None),
        TypeTree::Array { elem, len } => match measure(elem) {
            Err(e) => Err(e),
            Ok(None) => Ok(None),
            Ok(Some(w)) => match w.checked_mul(*len) {
                Some(n) => Ok(Some(n)),
                None => Err(()),
            },
        },
        TypeTree::Vec { elem } => match measure(elem) {
            Err(e) => Err(e),
            Ok(_) => Ok(None),
        },
        TypeTree::Option { inner } => match measure(inner) {
            Err(e) => Err(e),
            Ok(None) => Ok(None),
            Ok(Some(w)) => match w.checked_add(1) {
                Some(n) => Ok(Some(n)),
                None => Err(()),
            },
        },
        TypeTree::Tuple { elems } => {
            let ghost ws = tuple_widths(tree@->Tuple_elems);
            let mut acc: Option<usize> = Some(0);
            let mut fixed = true;
            let mut i: usize = 0;
            while i < elems.len()
                invariant
                    0 <= i <= elems.len(),
                    tree@ == (TypeView::Tuple { elems: tree@->Tuple_elems }),
                    tree@->Tuple_elems.len() == elems.len(),
                    forall|j: int| 0 <= j < elems.len() ==> tree@->Tuple_elems[j] == (#[trigger] elems[j])@,
                    ws == tuple_widths(tree@->Tuple_elems),
                    forall|j: int| 0 <= j < i ==> (#[trigger] tree@->Tuple_elems[j]).wf(),
                    fixed ==> running_sum(ws, i as int) == Ok::<Option<usize>, ()>(acc),
                    !fixed ==> sum_widths(ws.take(i as int)) is None,
                    forall|j: int| 0 <= j < elems.len() ==> decreases_to!(tree => elems[j]),
                decreases elems.len() - i,
            {
                proof {
                    assert(ws.take(i + 1).drop_last() =~= ws.take(i as int));
                }
                match measure(&elems[i]) {
                    Err(e) => {
                        return Err(e);
                    },
                    Ok(None) => {
                        fixed = false;
                    },
                    Ok(Some(w)) => {
                        if fixed {
                            acc = add_width(acc, w, Ghost(ws), Ghost(i as int));
                        }
                    },
                }
                i += 1;
            }
            proof {
                assert(ws.take(i as int) =~= ws);
            }
            if !fixed {
                Ok(None)
            } else {
                match acc {
                    Some(n) => Ok(Some(n)),
                    None => Err(()),
                }
            }
        },
        TypeTree::Struct { fields, .. } => {
            let ghost ws = field_widths(tree@->Struct_fields);
            let mut acc: Option<usize> = Some(0);
            let mut fixed = true;
            let mut i: usize = 0;
            while i < fields.len()
                invariant
                    0 <= i <= fields.len(),
                    tree@ == (TypeView::Struct { name: tree@->Struct_name, fields: tree@->Struct_fields }),
                    tree@->Struct_fields.len() == fields.len(),
                    forall|j: int| 0 <= j < fields.len() ==> tree@->Struct_fields[j].1 == (#[trigger] fields[j]).1@,
                    ws == field_widths(tree@->Struct_fields),
                    forall|j: int| 0 <= j < i ==> (#[trigger] tree@->Struct_fields[j]).1.wf(),
                    fixed ==> running_sum(ws, i as int) == Ok::<Option<usize>, ()>(acc),
                    !fixed ==> sum_widths(ws.take(i as int)) is None,
                    forall|j: int| 0 <= j < fields.len() ==> decreases_to!(tree => fields[j].1),
                decreases fields.len() - i,
            {
                proof {
                    assert(ws.take(i + 1).drop_last() =~= ws.take(i as int));
                }
                match measure(&fields[i].1) {
                    Err(e) => {
                        return Err(e);
                    },
                    Ok(None) => {
                        fixed = false;
                    },
                    Ok(Some(w)) => {
                        if fixed {
                            acc = add_width(acc, w, Ghost(ws), Ghost(i as int));
                        }
                    },
                }
                i += 1;
            }
            proof {
                assert(ws.take(i as int) =~= ws);
            }
            if !fixed {
                Ok(None)
            } else {
                match acc {
                    Some(n) => Ok(Some(n)),
                    None => Err(()),
                }
            }
        },
    }
}

/// The number of bytes that every value of the type takes, or `None` where
/// that depends on the value.
pub fn parse_size(p: &TypeTree) -> (r: Option<usize>)
    requires
        p@.wf(),
    ensures
        match r {
            Some(n) => p@.width() == Some(n as nat),
            None => p@.width() is None,
        },
{
    match measure(p) {
        Ok(w) => w,
        Err(_) => None,
    }
}

/// Whether the type may bear the sort order of a table.
pub fn can_order(p: &TypeTree) -> (r: bool)
    ensures
        r == p@.orderable(),
    decreases p,
{
    match p {
        TypeTree::Bool | TypeTree::Char | TypeTree::Int { .. } | TypeTree::String | TypeTree::ByteSlice => true,
        TypeTree::Float { .. } => false,
        TypeTree::Array { elem, .. } => can_order(elem),
        TypeTree::Vec { elem } => can_order(elem),
        TypeTree::Option { inner } => can_order(inner),
        TypeTree::Tuple { elems } => {
            let mut i: usize = 0;
            while i < elems.len()
                invariant
                    0 <= i <= elems.len(),
                    tree_view(*p) == (TypeView::Tuple { elems: p@->Tuple_elems }),
                    p@->Tuple_elems.len() == elems.len(),
                    forall|j: int| 0 <= j < elems.len() ==> p@->Tuple_elems[j] == (#[trigger] elems[j])@,
                    forall|j: int| 0 <= j < i ==> (#[trigger] p@->Tuple_elems[j]).orderable(),
                    forall|j: int| 0 <= j < elems.len() ==> decreases_to!(p => elems[j]),
                decreases elems.len() - i,
            {
                if !can_order(&elems[i]) {
                    return false;
                }
                i += 1;
            }
            true
        },
        TypeTree::Struct { .. } => false,
    }
}

impl Clone for TypeTree {
    /// A copy of the tree.
    fn clone(&self) -> (r: TypeTree)
        ensures
            r@ == self@,
        decreases self,
    {
        match self {
            TypeTree::Bool => TypeTree::Bool,
            TypeTree::Char => TypeTree::Char,
            TypeTree::Int { signed, width } => TypeTree::Int { signed: *signed, width: *width },
            TypeTree::Float { width } => TypeTree::Float { width: *width },
            TypeTree::String => TypeTree::String,
            TypeTree::ByteSlice => TypeTree::ByteSlice,
            TypeTree::Array { elem, len } => TypeTree::Array { elem: Box::new((&**elem).clone()), len: *len },
            TypeTree::Vec { elem } => TypeTree::Vec { elem: Box::new((&**elem).clone()) },
            TypeTree::Option { inner } => TypeTree::Option { inner: Box::new((&**inner).clone()) },
            TypeTree::Tuple { elems } => {
                let mut out: Vec<TypeTree> = Vec::new();
                let mut i: usize = 0;
                while i < elems.len()
                    invariant
                        0 <= i <= elems.len(),
                        out@.len() == i,
                        forall|j: int| 0 <= j < i ==> (#[trigger] out@[j])@ == elems@[j]@,
                        forall|j: int| 0 <= j < elems.len() ==> decreases_to!(self => elems[j]),
                    decreases elems.len() - i,
                {
                    out.push(elems[i].clone());
                    i += 1;
                }
                let tree = TypeTree::Tuple { elems: out };
                assert(tree@->Tuple_elems =~= self@->Tuple_elems);
                tree
            },
            TypeTree::Struct { name, fields } => {
                let mut out: Vec<(String, TypeTree)> = Vec::new();
                let mut i: usize = 0;
                while i < fields.len()
                    invariant
                        0 <= i <= fields.len(),
                        out@.len() == i,
                        forall|j: int|
                            0 <= j < i ==> (#[trigger] out@[j]).0@ == fields@[j].0@ && out@[j].1@
                                == fields@[j].1@,
                        forall|j: int| 0 <= j < fields.len() ==> decreases_to!(self => fields[j].1),
                    decreases fields.len() - i,
                {
                    out.push((fields[i].0.clone(), fields[i].1.clone()));
                    i += 1;
                }
                let tree = TypeTree::Struct { name: name.clone(), fields: out };
                assert(tree@->Struct_fields =~= self@->Struct_fields);
                tree
            },
        }
    }
}

} // verus!
