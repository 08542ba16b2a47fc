//! Little-endian numbers: the base-256 digits of a natural number, least
//! significant first, and two's complement on top of them.

use vstd::prelude::*;

verus! {

/// `256` to the power `n`.
pub open spec fn pow256(n: nat) -> nat
    decreases n,
{
    if n == 0 {
        1
    } else {
        256 * pow256((n - 1) as nat)
    }
}

/// The `width` low-order base-256 digits of `n`, least significant first.
pub open spec fn le_bytes(n: nat, width: nat) -> Seq<u8>
    decreases width,
{
    if width == 0 {
        Seq::empty()
    } else {
        seq![(n % 256) as u8] + le_bytes(n / 256, (width - 1) as nat)
    }
}

/// The number whose base-256 digits, least significant first, are `bytes`.
pub open spec fn le_value(bytes: Seq<u8>) -> nat
    decreases bytes.len(),
{
    if bytes.len() == 0 {
        0
    } else {
        bytes[0] as nat + 256 * le_value(bytes.drop_first())
    }
}

/// Whether the integer `n` fits an integer type of `width` bytes.
pub open spec fn int_fits(n: int, signed: bool, width: nat) -> bool {
    if signed {
        -(pow256(width) / 2) <= n < pow256(width) / 2
    } else {
        0 <= n < pow256(width)
    }
}

/// The unsigned number that stands for `n` in two's complement of `width` bytes.
pub open spec fn twos_complement(n: int, width: nat) -> nat {
    if n < 0 {
        (n + pow256(width)) as nat
    } else {
        n as nat
    }
}

/// The integer that the unsigned number `rep` stands for in a type of `width` bytes.
pub open spec fn int_of_rep(rep: nat, signed: bool, width: nat) -> int {
    if signed && rep >= pow256(width) / 2 {
        rep - pow256(width)
    } else {
        rep as int
    }
}

/// The powers of 256 that the widths of numbers come to.
pub proof fn lemma_pow256_values()
    ensures
        pow256(0) == 1,
        pow256(1) == 0x100,
        pow256(2) == 0x1_0000,
        pow256(3) == 0x100_0000,
        pow256(4) == 0x1_0000_0000,
        pow256(8) == 0x1_0000_0000_0000_0000,
        pow256(15) == 0x100_0000_0000_0000_0000_0000_0000_0000,
        pow256(16) == 0x1_0000_0000_0000_0000_0000_0000_0000_0000,
{
    reveal_with_fuel(pow256, 17);
}

/// A power of 256 is at least one.
pub proof fn lemma_pow256_positive(n: nat)
    ensures
        pow256(n) >= 1,
    decreases n,
{
    if n > 0 {
        lemma_pow256_positive((n - 1) as nat);
    }
}

/// A higher power of 256 is no smaller.
pub proof fn lemma_pow256_monotonic(a: nat, b: nat)
    requires
        a <= b,
    ensures
        pow256(a) <= pow256(b),
    decreases b,
{
    if a < b {
        lemma_pow256_monotonic(a, (b - 1) as nat);
        lemma_pow256_positive((b - 1) as nat);
    }
}

/// A number is written in as many bytes as asked for.
pub proof fn lemma_le_bytes_len(n: nat, width: nat)
    ensures
        le_bytes(n, width).len() == width,
    decreases width,
{
    if width > 0 {
        lemma_le_bytes_len(n / 256, (width - 1) as nat);
    }
}

/// What is read from `n` bytes is below `256^n`.
pub proof fn lemma_le_value_bound(bytes: Seq<u8>)
    ensures
        le_value(bytes) < pow256(bytes.len()),
    decreases bytes.len(),
{
    if bytes.len() > 0 {
        lemma_le_value_bound(bytes.drop_first());
    }
}

/// Reading back the digits of a number that fits gives the number.
pub proof fn lemma_le_value_of_bytes(n: nat, width: nat)
    requires
        n < pow256(width),
    ensures
        le_value(le_bytes(n, width)) == n,
    decreases width,
{
    if width > 0 {
        let rest = le_bytes(n / 256, (width - 1) as nat);
        lemma_le_value_of_bytes(n / 256, (width - 1) as nat);
        assert(le_bytes(n, width).drop_first() =~= rest);
    }
}

/// Writing the digits of what was read gives the bytes back.
pub proof fn lemma_le_bytes_of_value(bytes: Seq<u8>)
    ensures
        le_bytes(le_value(bytes), bytes.len()) == bytes,
    decreases bytes.len(),
{
    if bytes.len() > 0 {
        lemma_le_bytes_of_value(bytes.drop_first());
        let rest = le_value(bytes.drop_first());
        assert(le_value(bytes) / 256 == rest);
        assert(le_value(bytes) % 256 == bytes[0]);
        assert(le_bytes(le_value(bytes), bytes.len()) =~= bytes);
    }
}

/// Two's complement loses nothing on the integers that fit.
pub proof fn lemma_twos_complement_inverse(n: int, signed: bool, width: nat)
    requires
        int_fits(n, signed, width),
        width >= 1,
    ensures
        twos_complement(n, width) < pow256(width),
        int_of_rep(twos_complement(n, width), signed, width) == n,
{
    lemma_pow256_positive((width - 1) as nat);
}

/// Every number below `256^width` stands for an integer that fits.
pub proof fn lemma_int_of_rep_inverse(rep: nat, signed: bool, width: nat)
    requires
        rep < pow256(width),
        width >= 1,
    ensures
        int_fits(int_of_rep(rep, signed, width), signed, width),
        twos_complement(int_of_rep(rep, signed, width), width) == rep,
{
    lemma_pow256_positive((width - 1) as nat);
}

/// Appends the `width` low-order bytes of `n` to `buf`, least significant first.
pub fn put_le(n: u128, width: usize, buf: &mut Vec<u8>)
    ensures
        final(buf)@ == old(buf)@ + le_bytes(n as nat, width as nat),
    decreases width,
{
    if width > 0 {
        buf.push((n % 256) as u8);
        put_le(n / 256, width - 1, buf);
        assert(final(buf)@ =~= old(buf)@ + le_bytes(n as nat, width as nat));
    } else {
        assert(buf@ =~= old(buf)@ + le_bytes(n as nat, width as nat));
    }
}

/// Reads the bytes of `bytes` from `start` on as one little-endian number.
pub fn get_le(bytes: &[u8], start: usize) -> (n: u128)
    requires
        start <= bytes@.len(),
        bytes@.len() - start <= 16,
    ensures
        n == le_value(bytes@.subrange(start as int, bytes@.len() as int)),
    decreases bytes@.len() - start,
{
    let ghost tail = bytes@.subrange(start as int, bytes@.len() as int);
    if start == bytes.len() {
        0
    } else {
        let rest = get_le(bytes, start + 1);
        proof {
            assert(tail.drop_first() =~= bytes@.subrange(start + 1, bytes@.len() as int));
            lemma_le_value_bound(tail.drop_first());
            lemma_pow256_monotonic(tail.drop_first().len(), 15);
            lemma_pow256_values();
        }
        bytes[start] as u128 + 256 * rest
    }
}

} // verus!
