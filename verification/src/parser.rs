//! The codec as a caller sees it: values read from and written to byte
//! buffers under a type tree or a descriptor.

pub use crate::descriptor::{parse_tree, Grammar};
pub use crate::order::ordering;
pub use crate::tree::{can_order, parse_size};
pub use crate::wire::{
    put_varint, take, take_all, take_n, take_u32_len, take_u8, take_varint, TakeError, TakeResult,
};

use vstd::prelude::*;
use vstd::slice::slice_subrange;
use vstd::utf8::encode_utf8;
use crate::codec::decode::decode_value;
use crate::codec::encode::encode_value;
use crate::codec::laws::lemma_width_agreement;
use crate::codec::model::{decode_spec, encode_spec};
use crate::descriptor::descriptor_type;
use crate::error::{CodecError, DecodeError, EncodeError, ParseError};
use crate::tree::{TypeTree, TypeView};
use crate::value::{Value, ValueView};

verus! {

/// Appends the bytes of the value `val` of type `p` to `buf`: as many as
/// the width of the type, where it has one. Where the value has no bytes,
/// `buf` stays as it is.
pub fn encode(p: &TypeTree, val: &Value, buf: &mut Vec<u8>) -> (r: Result<(), EncodeError>)
    requires
        p@.wf(),
    ensures
        match r {
            Ok(_) => encode_spec(p@, val@) is Ok && final(buf)@ == old(buf)@ + encode_spec(p@, val@)->Ok_0,
            Err(e) => encode_spec(p@, val@) == Err::<Seq<u8>, EncodeError>(e) && final(buf)@ == old(buf)@,
        },
        r is Ok ==> match p@.width() {
            Some(w) => final(buf)@.len() == old(buf)@.len() + w,
            None => true,
        },
{
    let bytes = encode_value(p, val)?;
    proof {
        if p@.width() is Some {
            lemma_width_agreement(p@, val@);
        }
    }
    buf.extend_from_slice(bytes.as_slice());
    Ok(())
}

/// Takes the value of type `p` off the front of `data`. Where there is
/// none, `data` stays as it is.
pub fn parse(p: &TypeTree, data: &mut &[u8]) -> (r: Result<Value, DecodeError>)
    requires
        p@.wf(),
    ensures
        match r {
            Ok(v) => decode_spec(p@, old(data)@) matches Ok((value, used)) && v@ == value && used
                <= old(data)@.len() && final(data)@ == old(data)@.subrange(
                used as int,
                old(data)@.len() as int,
            ),
            Err(e) => decode_spec(p@, old(data)@) == Err::<(ValueView, nat), DecodeError>(e)
                && final(data)@ == old(data)@,
        },
{
    let whole: &[u8] = *data;
    let (v, used) = decode_value(p, whole)?;
    *data = slice_subrange(whole, used, whole.len());
    Ok(v)
}

/// The value of type `p` at the front of `data`. What follows the value
/// is not looked at.
pub fn parse_from_tree(p: &TypeTree, data: &[u8]) -> (r: Result<Value, DecodeError>)
    requires
        p@.wf(),
    ensures
        match r {
            Ok(v) => decode_spec(p@, data@) matches Ok((value, _)) && v@ == value,
            Err(e) => decode_spec(p@, data@) == Err::<(ValueView, nat), DecodeError>(e),
        },
{
    let (v, _) = decode_value(p, data)?;
    Ok(v)
}

/// The value at the front of `data`, of the type that `ty` describes.
pub fn parse_type(ty: &str, data: &[u8]) -> (r: Result<Value, CodecError>)
    ensures
        match r {
            Ok(v) => descriptor_type(encode_utf8(ty@)) matches Ok(t) && decode_spec(t, data@) matches Ok(
                (value, _),
            ) && v@ == value,
            Err(CodecError::Parse(e)) => descriptor_type(encode_utf8(ty@)) == Err::<TypeView, ParseError>(e),
            Err(CodecError::Decode(e)) => descriptor_type(encode_utf8(ty@)) matches Ok(t) && decode_spec(
                t,
                data@,
            ) == Err::<(ValueView, nat), DecodeError>(e),
            Err(CodecError::Encode(_)) => false,
        },
{
    let tree = match parse_tree(ty) {
        Ok(tree) => tree,
        Err(e) => {
            return Err(CodecError::Parse(e));
        },
    };
    match parse_from_tree(&tree, data) {
        Ok(v) => Ok(v),
        Err(e) => Err(CodecError::Decode(e)),
    }
}

/// Appends to `buf` the bytes of the value `val`, of the type that `ty`
/// describes. Where there are none, `buf` stays as it is.
pub fn encode_type(ty: &str, val: &Value, buf: &mut Vec<u8>) -> (r: Result<(), CodecError>)
    ensures
        match r {
            Ok(_) => descriptor_type(encode_utf8(ty@)) matches Ok(t) && encode_spec(t, val@) is Ok
                && final(buf)@ == old(buf)@ + encode_spec(t, val@)->Ok_0,
            Err(CodecError::Parse(e)) => descriptor_type(encode_utf8(ty@)) == Err::<TypeView, ParseError>(e)
                && final(buf)@ == old(buf)@,
            Err(CodecError::Encode(e)) => descriptor_type(encode_utf8(ty@)) matches Ok(t) && encode_spec(
                t,
                val@,
            ) == Err::<Seq<u8>, EncodeError>(e) && final(buf)@ == old(buf)@,
            Err(CodecError::Decode(_)) => false,
        },
{
    let tree = match parse_tree(ty) {
        Ok(tree) => tree,
        Err(e) => {
            return Err(CodecError::Parse(e));
        },
    };
    match encode(&tree, val, buf) {
        Ok(_) => Ok(()),
        Err(e) => Err(CodecError::Encode(e)),
    }
}

} // verus!
