//! Reading from the front of a byte slice, and the lengths that frame the
//! members of a composite value.

use vstd::prelude::*;
use vstd::slice::slice_subrange;
use crate::le::{
    get_le, le_bytes, le_value, lemma_le_bytes_len, lemma_le_value_bound, lemma_le_value_of_bytes,
    lemma_pow256_values, put_le,
};

verus! {

/// Why a read from a buffer failed.
#[derive(Clone, Copy, Debug, PartialEq, Eq)]
pub enum TakeError {
    /// The read asked for more bytes than are left.
    OffBuffer,
}

impl TakeError {
    /// What the error says.
    pub fn message(&self) -> (r: String)
        ensures
            r@ == "Off the data buffer"@,
    {
        "Off the data buffer".to_string()
    }
}

pub type TakeResult<T> = Result<T, TakeError>;

/// The length `n` as a variable-length integer: one byte below 254, else
/// the marker 254 and two bytes, or the marker 255 and four.
pub open spec fn varint(n: nat) -> Seq<u8> {
    if n < 254 {
        seq![n as u8]
    } else if n <= 0xFFFF {
        seq![254u8] + le_bytes(n, 2)
    } else {
        seq![255u8] + le_bytes(n, 4)
    }
}

/// The number of bytes of the variable-length integer that starts with `first`.
pub open spec fn varint_len(first: u8) -> nat {
    if first < 254 {
        1
    } else if first == 254 {
        3
    } else {
        5
    }
}

/// The length at the front of `b` and the number of bytes it takes, or
/// `None` where `b` ends before the length does.
pub open spec fn read_varint(b: Seq<u8>) -> Option<(nat, nat)> {
    if b.len() == 0 || b.len() < varint_len(b[0]) {
        None
    } else if b[0] < 254 {
        Some((b[0] as nat, 1))
    } else {
        Some((le_value(b.subrange(1, varint_len(b[0]) as int)), varint_len(b[0])))
    }
}

/// The four-byte length at the front of `b`, or `None` where `b` is shorter.
pub open spec fn read_u32(b: Seq<u8>) -> Option<nat> {
    if b.len() < 4 {
        None
    } else {
        Some(le_value(b.subrange(0, 4)))
    }
}

/// A length that was written is the length that is read, whatever follows.
pub proof fn lemma_read_varint_of_varint(n: nat, rest: Seq<u8>)
    requires
        n <= u32::MAX,
    ensures
        read_varint(varint(n) + rest) == Some((n, varint(n).len())),
        1 <= varint(n).len() <= 5,
{
    let b = varint(n) + rest;
    lemma_pow256_values();
    if n < 254 {
    } else if n <= 0xFFFF {
        lemma_le_bytes_len(n, 2);
        lemma_le_value_of_bytes(n, 2);
        assert(b.subrange(1, 3) =~= le_bytes(n, 2));
    } else {
        lemma_le_bytes_len(n, 4);
        lemma_le_value_of_bytes(n, 4);
        assert(b.subrange(1, 5) =~= le_bytes(n, 4));
    }
}

/// A four-byte length that was written is the length that is read.
pub proof fn lemma_read_u32_of_bytes(n: nat, rest: Seq<u8>)
    requires
        n <= u32::MAX,
    ensures
        read_u32(le_bytes(n, 4) + rest) == Some(n),
{
    lemma_pow256_values();
    lemma_le_bytes_len(n, 4);
    lemma_le_value_of_bytes(n, 4);
    assert((le_bytes(n, 4) + rest).subrange(0, 4) =~= le_bytes(n, 4));
}

/// Takes the first `len` bytes off `data`. Where `data` is shorter it stays
/// as it is.
pub fn take_n<'a>(data: &mut &'a [u8], len: usize) -> (r: TakeResult<&'a [u8]>)
    ensures
        match r {
            Ok(head) => len <= old(data)@.len() && head@ == old(data)@.subrange(0, len as int)
                && final(data)@ == old(data)@.subrange(len as int, old(data)@.len() as int),
            Err(e) => len > old(data)@.len() && final(data)@ == old(data)@ && e == TakeError::OffBuffer,
        },
{
    let whole: &'a [u8] = *data;
    if len > whole.len() {
        return Err(TakeError::OffBuffer);
    }
    let head = slice_subrange(whole, 0, len);
    *data = slice_subrange(whole, len, whole.len());
    Ok(head)
}

/// Takes all of `data`.
pub fn take_all<'a>(data: &mut &'a [u8]) -> (r: &'a [u8])
    ensures
        r@ == old(data)@,
        final(data)@ == Seq::<u8>::empty(),
{
    let whole: &'a [u8] = *data;
    *data = slice_subrange(whole, whole.len(), whole.len());
    assert(data@ =~= Seq::<u8>::empty());
    whole
}

/// Converts a slice to an array through `TryFrom`: the array holds the
/// slice's bytes where the lengths agree, and there is none otherwise.
#[verifier::external_body]
fn array_of<const N: usize>(bytes: &[u8]) -> (r: Option<[u8; N]>)
    ensures
        match r {
            Some(a) => bytes@.len() == N && a@ == bytes@,
            None => bytes@.len() != N,
        },
{
    <[u8; N]>::try_from(bytes).ok()
}

/// Takes the first `N` bytes off `data`, as an array.
pub fn take<const N: usize>(data: &mut &[u8]) -> (r: TakeResult<[u8; N]>)
    ensures
        match r {
            Ok(a) => N <= old(data)@.len() && a@ == old(data)@.subrange(0, N as int) && final(data)@
                == old(data)@.subrange(N as int, old(data)@.len() as int),
            Err(e) => N > old(data)@.len() && final(data)@ == old(data)@ && e == TakeError::OffBuffer,
        },
{
    let mut rest: &[u8] = *data;
    let head = take_n(&mut rest, N)?;
    match array_of::<N>(head) {
        Some(a) => {
            *data = rest;
            Ok(a)
        },
        None => Err(TakeError::OffBuffer),
    }
}

/// Takes the first byte off `data`.
pub fn take_u8(data: &mut &[u8]) -> (r: TakeResult<u8>)
    ensures
        match r {
            Ok(b) => 1 <= old(data)@.len() && b == old(data)@[0] && final(data)@
                == old(data)@.subrange(1, old(data)@.len() as int),
            Err(e) => old(data)@.len() == 0 && final(data)@ == old(data)@ && e == TakeError::OffBuffer,
        },
{
    let head = take_n(data, 1)?;
    Ok(head[0])
}

/// Takes a four-byte little-endian length off `data`.
pub fn take_u32_len(data: &mut &[u8]) -> (r: TakeResult<usize>)
    ensures
        match r {
            Ok(n) => read_u32(old(data)@) == Some(n as nat) && final(data)@ == old(data)@.subrange(
                4,
                old(data)@.len() as int,
            ),
            Err(e) => read_u32(old(data)@) is None && final(data)@ == old(data)@ && e
                == TakeError::OffBuffer,
        },
{
    let head = take_n(data, 4)?;
    let n = get_le(head, 0);
    proof {
        assert(head@.subrange(0, 4) =~= head@);
        lemma_le_value_bound(head@);
        lemma_pow256_values();
    }
    Ok(n as usize)
}

/// Takes a variable-length integer off `data`. Where `data` ends before the
/// integer does it stays as it is.
pub fn take_varint(data: &mut &[u8]) -> (r: TakeResult<usize>)
    ensures
        match r {
            Ok(n) => read_varint(old(data)@) matches Some((v, used)) && v == n && final(data)@
                == old(data)@.subrange(used as int, old(data)@.len() as int),
            Err(e) => read_varint(old(data)@) is None && final(data)@ == old(data)@ && e
                == TakeError::OffBuffer,
        },
{
    let mut rest: &[u8] = *data;
    let first = take_u8(&mut rest)?;
    let n = if first < 254 {
        first as usize
    } else {
        let width: usize = if first == 254 {
            2
        } else {
            4
        };
        let head = take_n(&mut rest, width)?;
        let n = get_le(head, 0);
        proof {
            assert(head@.subrange(0, width as int) =~= head@);
            assert(head@ =~= old(data)@.subrange(1, 1 + width));
            assert(rest@ =~= old(data)@.subrange(1 + width, old(data)@.len() as int));
            lemma_le_value_bound(head@);
            lemma_pow256_values();
        }
        n as usize
    };
    *data = rest;
    Ok(n)
}

/// Appends the length `len` to `buf` as a variable-length integer.
pub fn put_varint(len: usize, buf: &mut Vec<u8>)
    requires
        len <= u32::MAX,
    ensures
        final(buf)@ == old(buf)@ + varint(len as nat),
{
    if len < 254 {
        buf.push(len as u8);
        assert(buf@ =~= old(buf)@ + varint(len as nat));
    } else if len <= 0xFFFF {
        buf.push(254);
        put_le(len as u128, 2, buf);
        assert(buf@ =~= old(buf)@ + varint(len as nat));
    } else {
        buf.push(255);
        put_le(len as u128, 4, buf);
        assert(buf@ =~= old(buf)@ + varint(len as nat));
    }
}

} // verus!
