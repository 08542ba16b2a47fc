//! Framing: how the encodings of the members of a composite value are
//! joined into one buffer, and how the buffer is cut into them again.

use vstd::prelude::*;
use crate::le::{le_bytes, lemma_le_bytes_len};
use crate::tree::sum_widths;
use crate::wire::{
    lemma_read_u32_of_bytes, lemma_read_varint_of_varint, read_u32, read_varint, varint,
};

verus! {

/// The first error among `rs`, or `None` where all are `Ok`.
pub open spec fn first_err<T, E>(rs: Seq<Result<T, E>>) -> Option<E>
    decreases rs.len(),
{
    if rs.len() == 0 {
        None
    } else {
        match first_err(rs.drop_last()) {
            Some(e) => Some(e),
            None => match rs.last() {
                Err(e) => Some(e),
                Ok(_) => None,
            },
        }
    }
}

/// What `rs` hold, where all are `Ok`.
pub open spec fn oks<T, E>(rs: Seq<Result<T, E>>) -> Seq<T> {
    Seq::new(rs.len(), |i: int| rs[i]->Ok_0)
}

/// The byte strings `parts`, one after the other.
pub open spec fn concat(parts: Seq<Seq<u8>>) -> Seq<u8>
    decreases parts.len(),
{
    if parts.len() == 0 {
        Seq::empty()
    } else {
        concat(parts.drop_last()) + parts.last()
    }
}

/// How the length of a member is written in front of it.
pub enum Prefix {
    /// Not at all: the member's width is known, or it runs to the end.
    Absent,
    /// As four bytes, little-endian.
    Fixed32,
    /// As a variable-length integer.
    Varint,
}

impl Prefix {
    /// The bytes that announce a member of `len` bytes.
    pub open spec fn bytes(self, len: nat) -> Seq<u8> {
        match self {
            Prefix::Absent => Seq::empty(),
            Prefix::Fixed32 => le_bytes(len, 4),
            Prefix::Varint => varint(len),
        }
    }

    /// The length that is announced at the front of `b` and the number of
    /// bytes that announce it, or `None` where `b` ends too soon.
    pub open spec fn read(self, b: Seq<u8>) -> Option<(nat, nat)> {
        match self {
            Prefix::Absent => None,
            Prefix::Fixed32 => match read_u32(b) {
                Some(n) => Some((n, 4)),
                None => None,
            },
            Prefix::Varint => read_varint(b),
        }
    }
}

/// The prefix of the elements of an array whose element type has the width `w`.
pub open spec fn array_prefix(w: Option<nat>) -> Prefix {
    if w is Some {
        Prefix::Absent
    } else {
        Prefix::Fixed32
    }
}

/// The prefix of the elements of a vector whose element type has the width `w`.
pub open spec fn list_prefix(w: Option<nat>) -> Prefix {
    if w is Some {
        Prefix::Absent
    } else {
        Prefix::Varint
    }
}

/// The prefix of member `i` of a tuple or struct whose members have the
/// widths `ws`: the last member has none.
pub open spec fn member_prefix(ws: Seq<Option<nat>>, i: int) -> Prefix {
    if ws[i] is Some || i == ws.len() - 1 {
        Prefix::Absent
    } else {
        Prefix::Varint
    }
}

/// The kinds of prefix of the `n` elements of an array.
pub open spec fn array_prefixes(w: Option<nat>, n: nat) -> Seq<Prefix> {
    Seq::new(n, |i: int| array_prefix(w))
}

/// The kinds of prefix of the `n` elements of a vector.
pub open spec fn list_prefixes(w: Option<nat>, n: nat) -> Seq<Prefix> {
    Seq::new(n, |i: int| list_prefix(w))
}

/// The kinds of prefix of the members of a tuple or struct.
pub open spec fn member_prefixes(ws: Seq<Option<nat>>) -> Seq<Prefix> {
    Seq::new(ws.len(), |i: int| member_prefix(ws, i))
}

/// The encoding `part` of a member, refused where its length has to be
/// announced and does not fit in 32 bits.
pub open spec fn sized<E>(p: Prefix, part: Result<Seq<u8>, E>, too_long: E) -> Result<Seq<u8>, E> {
    match part {
        Ok(b) => if !(p is Absent) && b.len() > u32::MAX {
            Err(too_long)
        } else {
            Ok(b)
        },
        Err(e) => Err(e),
    }
}

/// The encodings `parts` of the members, each held to [`sized`].
pub open spec fn sized_all<E>(ps: Seq<Prefix>, parts: Seq<Result<Seq<u8>, E>>, too_long: E) -> Seq<
    Result<Seq<u8>, E>,
> {
    Seq::new(parts.len(), |i: int| sized(ps[i], parts[i], too_long))
}

/// The announcement of each of `bodies`.
pub open spec fn announce(ps: Seq<Prefix>, bodies: Seq<Seq<u8>>) -> Seq<Seq<u8>> {
    Seq::new(bodies.len(), |i: int| ps[i].bytes(bodies[i].len()))
}

/// Each of `bodies` behind its announcement.
pub open spec fn announced(ps: Seq<Prefix>, bodies: Seq<Seq<u8>>) -> Seq<Seq<u8>> {
    Seq::new(bodies.len(), |i: int| ps[i].bytes(bodies[i].len()) + bodies[i])
}

/// The layout of an array or vector: each element behind its announcement.
pub open spec fn join_elements<E>(ps: Seq<Prefix>, parts: Seq<Result<Seq<u8>, E>>, too_long: E) -> Result<
    Seq<u8>,
    E,
> {
    match first_err(sized_all(ps, parts, too_long)) {
        Some(e) => Err(e),
        None => Ok(concat(announced(ps, oks(parts)))),
    }
}

/// The layout of a tuple or struct: all announcements, then all members.
pub open spec fn join_members<E>(ps: Seq<Prefix>, parts: Seq<Result<Seq<u8>, E>>, too_long: E) -> Result<
    Seq<u8>,
    E,
> {
    match first_err(sized_all(ps, parts, too_long)) {
        Some(e) => Err(e),
        None => Ok(concat(announce(ps, oks(parts))) + concat(oks(parts))),
    }
}

/// The `len` bytes of `b` from `off` on and the offset behind them, or
/// `None` where `b` ends before that.
pub open spec fn take_at(b: Seq<u8>, off: nat, len: nat) -> Option<(Seq<u8>, nat)> {
    if off + len <= b.len() {
        Some((b.subrange(off as int, (off + len) as int), off + len))
    } else {
        None
    }
}

/// The first `k` members of known lengths `lens` that lie in `b` from
/// `start` on, and the offset behind them. A length of `None` stands for all
/// that is left.
pub open spec fn cut(lens: Seq<Option<nat>>, b: Seq<u8>, start: nat, k: nat) -> Option<
    (Seq<Seq<u8>>, nat),
>
    decreases k,
{
    if k == 0 {
        Some((Seq::empty(), start))
    } else {
        match cut(lens, b, start, (k - 1) as nat) {
            None => None,
            Some((ss, off)) => {
                let len = match lens[k - 1] {
                    Some(n) => n,
                    None => (b.len() - off) as nat,
                };
                match take_at(b, off, len) {
                    None => None,
                    Some((s, end)) => Some((ss.push(s), end)),
                }
            },
        }
    }
}

/// The first `k` members of `len` bytes each that lie in `b` from `start`
/// on, and the offset behind them.
pub open spec fn cut_even(len: nat, b: Seq<u8>, start: nat, k: nat) -> Option<(Seq<Seq<u8>>, nat)>
    decreases k,
{
    if k == 0 {
        Some((Seq::empty(), start))
    } else {
        match cut_even(len, b, start, (k - 1) as nat) {
            None => None,
            Some((ss, off)) => match take_at(b, off, len) {
                None => None,
                Some((s, end)) => Some((ss.push(s), end)),
            },
        }
    }
}

/// The first `k` members that lie in `b` from `start` on, each behind an
/// announcement of kind `p`, and the offset behind them.
pub open spec fn split_announced(p: Prefix, b: Seq<u8>, start: nat, k: nat) -> Option<
    (Seq<Seq<u8>>, nat),
>
    decreases k,
{
    if k == 0 {
        Some((Seq::empty(), start))
    } else {
        match split_announced(p, b, start, (k - 1) as nat) {
            None => None,
            Some((ss, off)) => if off > b.len() {
                None
            } else {
                match p.read(b.subrange(off as int, b.len() as int)) {
                    None => None,
                    Some((len, used)) => match take_at(b, off + used, len) {
                        None => None,
                        Some((s, end)) => Some((ss.push(s), end)),
                    },
                }
            },
        }
    }
}

/// The lengths that the header of a tuple or struct announces for its
/// first `k` members (zero for one that has no announcement), and the
/// offset behind them.
pub open spec fn read_lens(ps: Seq<Prefix>, b: Seq<u8>, k: nat) -> Option<(Seq<nat>, nat)>
    decreases k,
{
    if k == 0 {
        Some((Seq::empty(), 0))
    } else {
        match read_lens(ps, b, (k - 1) as nat) {
            None => None,
            Some((lens, off)) => if ps[k - 1] is Absent {
                Some((lens.push(0), off))
            } else if off > b.len() {
                None
            } else {
                match ps[k - 1].read(b.subrange(off as int, b.len() as int)) {
                    None => None,
                    Some((len, used)) => Some((lens.push(len), off + used)),
                }
            },
        }
    }
}

/// The lengths of the members of a tuple or struct: the width of a member
/// that has one, the announced length of one that has an announcement, and
/// `None`, for all that is left, otherwise.
pub open spec fn member_lens(ws: Seq<Option<nat>>, announced: Seq<nat>) -> Seq<Option<nat>> {
    Seq::new(
        ws.len(),
        |i: int|
            if member_prefix(ws, i) is Absent {
                ws[i]
            } else {
                Some(announced[i])
            },
    )
}

/// Member `i` of what a split gave, or `None` where the split failed.
pub open spec fn piece(split: Option<(Seq<Seq<u8>>, nat)>, i: int) -> Option<Seq<u8>> {
    match split {
        Some((ss, _)) => Some(ss[i]),
        None => None,
    }
}

/// The bytes of each of the `n` elements of an array or vector that lies
/// in `b` from `start` on, or `None` for an element that `b` ends before.
pub open spec fn element_slices(w: Option<nat>, p: Prefix, b: Seq<u8>, start: nat, n: nat) -> Seq<
    Option<Seq<u8>>,
> {
    Seq::new(n, |i: int| piece(split_elements(w, p, b, start, (i + 1) as nat), i))
}

/// The first `k` elements of an array or vector that lies in `b` from
/// `start` on: cut by the width `w` where there is one, by announcements
/// of kind `p` otherwise.
pub open spec fn split_elements(w: Option<nat>, p: Prefix, b: Seq<u8>, start: nat, k: nat) -> Option<
    (Seq<Seq<u8>>, nat),
> {
    match w {
        Some(n) => cut_even(n, b, start, k),
        None => split_announced(p, b, start, k),
    }
}

/// The first `k` members of a tuple or struct that lies in `b`, and the
/// offset behind them.
pub open spec fn split_members(ws: Seq<Option<nat>>, b: Seq<u8>, k: nat) -> Option<(Seq<Seq<u8>>, nat)> {
    match read_lens(member_prefixes(ws), b, ws.len()) {
        None => None,
        Some((lens, off)) => cut(member_lens(ws, lens), b, off, k),
    }
}

/// The bytes of each member of a tuple or struct that lies in `b`, or
/// `None` for a member that `b` ends before.
pub open spec fn member_slices(ws: Seq<Option<nat>>, b: Seq<u8>) -> Seq<Option<Seq<u8>>> {
    Seq::new(ws.len(), |i: int| piece(split_members(ws, b, (i + 1) as nat), i))
}

/// Where all of `rs` are `Ok` there is no first error.
pub proof fn lemma_first_err_none<T, E>(rs: Seq<Result<T, E>>)
    requires
        forall|i: int| 0 <= i < rs.len() ==> (#[trigger] rs[i]) is Ok,
    ensures
        first_err(rs) is None,
    decreases rs.len(),
{
    if rs.len() > 0 {
        lemma_first_err_none(rs.drop_last());
    }
}

/// The first error is the error at `i` where all before `i` are `Ok`.
pub proof fn lemma_first_err_at<T, E>(rs: Seq<Result<T, E>>, i: int)
    requires
        0 <= i < rs.len(),
        rs[i] is Err,
        forall|j: int| 0 <= j < i ==> (#[trigger] rs[j]) is Ok,
    ensures
        first_err(rs) == Some(rs[i]->Err_0),
    decreases rs.len(),
{
    if i == rs.len() - 1 {
        lemma_first_err_none(rs.drop_last());
    } else {
        lemma_first_err_at(rs.drop_last(), i);
    }
}

/// Where there is no first error all of `rs` are `Ok`.
pub proof fn lemma_first_err_all_ok<T, E>(rs: Seq<Result<T, E>>)
    requires
        first_err(rs) is None,
    ensures
        forall|i: int| 0 <= i < rs.len() ==> (#[trigger] rs[i]) is Ok,
    decreases rs.len(),
{
    if rs.len() > 0 {
        lemma_first_err_all_ok(rs.drop_last());
        assert forall|i: int| 0 <= i < rs.len() implies (#[trigger] rs[i]) is Ok by {
            if i < rs.len() - 1 {
                assert(rs.drop_last()[i] is Ok);
            }
        }
    }
}

/// One more part adds its bytes at the end.
pub proof fn lemma_concat_step(parts: Seq<Seq<u8>>, i: int)
    requires
        0 <= i < parts.len(),
    ensures
        concat(parts.take(i + 1)) == concat(parts.take(i)) + parts[i],
{
    assert(parts.take(i + 1).drop_last() =~= parts.take(i));
}

/// A header that ends too soon for its first `k` announcements ends too
/// soon for more.
pub proof fn lemma_read_lens_none(ps: Seq<Prefix>, b: Seq<u8>, k: nat, n: nat)
    requires
        k <= n,
        read_lens(ps, b, k) is None,
    ensures
        read_lens(ps, b, n) is None,
    decreases n,
{
    if k < n {
        lemma_read_lens_none(ps, b, k, (n - 1) as nat);
    }
}

/// A buffer that ends before its first `k` members ends before more.
pub proof fn lemma_cut_none(lens: Seq<Option<nat>>, b: Seq<u8>, start: nat, k: nat, n: nat)
    requires
        k <= n,
        cut(lens, b, start, k) is None,
    ensures
        cut(lens, b, start, n) is None,
    decreases n,
{
    if k < n {
        lemma_cut_none(lens, b, start, k, (n - 1) as nat);
    }
}

/// Parts of the lengths `ws` are as long together as the sum of `ws`.
pub proof fn lemma_concat_len(parts: Seq<Seq<u8>>, ws: Seq<Option<nat>>)
    requires
        parts.len() == ws.len(),
        forall|i: int| 0 <= i < parts.len() ==> ws[i] == Some((#[trigger] parts[i]).len()),
    ensures
        sum_widths(ws) == Some(concat(parts).len()),
    decreases parts.len(),
{
    if parts.len() > 0 {
        assert forall|i: int| 0 <= i < parts.drop_last().len() implies ws.drop_last()[i] == Some(
            (#[trigger] parts.drop_last()[i]).len(),
        ) by {
            assert(ws[i] == Some(parts[i].len()));
        }
        lemma_concat_len(parts.drop_last(), ws.drop_last());
        assert(ws.last() == Some(parts[parts.len() - 1].len()));
    }
}

/// Empty parts make an empty whole.
pub proof fn lemma_concat_empty(parts: Seq<Seq<u8>>)
    requires
        forall|i: int| 0 <= i < parts.len() ==> (#[trigger] parts[i]).len() == 0,
    ensures
        concat(parts).len() == 0,
    decreases parts.len(),
{
    if parts.len() > 0 {
        assert forall|i: int| 0 <= i < parts.drop_last().len() implies (#[trigger] parts.drop_last()[i]).len()
            == 0 by {
            assert(parts[i].len() == 0);
        }
        lemma_concat_empty(parts.drop_last());
        assert(parts[parts.len() - 1].len() == 0);
    }
}

/// `n` widths of `w` add up to `w * n`.
pub proof fn lemma_sum_widths_even(w: nat, n: nat)
    ensures
        sum_widths(Seq::new(n, |i: int| Some(w))) == Some(w * n),
    decreases n,
{
    let ws = Seq::new(n, |i: int| Some(w));
    if n > 0 {
        lemma_sum_widths_even(w, (n - 1) as nat);
        assert(ws.drop_last() =~= Seq::new((n - 1) as nat, |i: int| Some(w)));
        assert(w * n == w * (n - 1) + w) by (nonlinear_arith);
    } else {
        assert(w * n == 0) by (nonlinear_arith)
            requires
                n == 0,
        ;
    }
}

/// Widths that have a sum are all there.
pub proof fn lemma_sum_widths_all(ws: Seq<Option<nat>>)
    requires
        sum_widths(ws) is Some,
    ensures
        forall|i: int| 0 <= i < ws.len() ==> (#[trigger] ws[i]) is Some,
    decreases ws.len(),
{
    if ws.len() > 0 {
        lemma_sum_widths_all(ws.drop_last());
        assert forall|i: int| 0 <= i < ws.len() implies (#[trigger] ws[i]) is Some by {
            if i < ws.len() - 1 {
                assert(ws.drop_last()[i] is Some);
            }
        }
    }
}

/// The whole is its first `k` parts and then the others.
pub proof fn lemma_concat_split(parts: Seq<Seq<u8>>, k: int)
    requires
        0 <= k <= parts.len(),
    ensures
        concat(parts) == concat(parts.take(k)) + concat(parts.skip(k)),
    decreases parts.len(),
{
    if k == parts.len() {
        assert(parts.take(k) =~= parts);
        assert(parts.skip(k) =~= Seq::<Seq<u8>>::empty());
        assert(concat(parts) =~= concat(parts) + concat(parts.skip(k)));
    } else {
        lemma_concat_split(parts.drop_last(), k);
        assert(parts.drop_last().take(k) =~= parts.take(k));
        assert(parts.drop_last().skip(k) =~= parts.skip(k).drop_last());
        assert(parts.skip(k).last() == parts.last());
        assert(concat(parts) =~= concat(parts.take(k)) + concat(parts.skip(k)));
    }
}

/// The whole is part `k` between the parts before it and those behind it.
pub proof fn lemma_concat_around(parts: Seq<Seq<u8>>, k: int)
    requires
        0 <= k < parts.len(),
    ensures
        concat(parts) == concat(parts.take(k)) + parts[k] + concat(parts.skip(k + 1)),
        concat(parts.take(k + 1)) == concat(parts.take(k)) + parts[k],
{
    lemma_concat_split(parts, k + 1);
    lemma_concat_step(parts, k);
}

/// What one announcement says is read back, whatever follows it.
pub proof fn lemma_read_of_bytes(p: Prefix, len: nat, rest: Seq<u8>)
    requires
        !(p is Absent),
        len <= u32::MAX,
    ensures
        p.read(p.bytes(len) + rest) == Some((len, p.bytes(len).len())),
{
    match p {
        Prefix::Absent => {},
        Prefix::Fixed32 => {
            lemma_read_u32_of_bytes(len, rest);
            lemma_le_bytes_len(len, 4);
        },
        Prefix::Varint => {
            lemma_read_varint_of_varint(len, rest);
        },
    }
}

/// Cutting up the layout of an array or vector gives its elements back:
/// the first `k` of them lie behind `pre` as they were joined.
pub proof fn lemma_split_of_join(w: Option<nat>, p: Prefix, pre: Seq<u8>, bodies: Seq<Seq<u8>>, k: nat)
    requires
        k <= bodies.len(),
        w is Some <==> p is Absent,
        forall|i: int|
            0 <= i < bodies.len() ==> match w {
                Some(n) => (#[trigger] bodies[i]).len() == n,
                None => bodies[i].len() <= u32::MAX,
            },
    ensures
        split_elements(
            w,
            p,
            pre + concat(announced(Seq::new(bodies.len(), |i: int| p), bodies)),
            pre.len(),
            k,
        ) == Some(
            (
                bodies.take(k as int),
                pre.len() + concat(announced(Seq::new(bodies.len(), |i: int| p), bodies).take(k as int)).len(),
            ),
        ),
    decreases k,
{
    let ps = Seq::new(bodies.len(), |i: int| p);
    let framed = announced(ps, bodies);
    let b = pre + concat(framed);
    if k == 0 {
        assert(bodies.take(0) =~= Seq::<Seq<u8>>::empty());
        assert(framed.take(0) =~= Seq::<Seq<u8>>::empty());
    } else {
        let j = (k - 1) as int;
        lemma_split_of_join(w, p, pre, bodies, j as nat);
        lemma_concat_around(framed, j);
        let off = pre.len() + concat(framed.take(j)).len();
        let body = bodies[j];
        let tail = concat(framed.skip(j + 1));
        let len = body.len();
        assert(framed[j] == p.bytes(len) + body);
        assert(b.subrange(off as int, b.len() as int) =~= p.bytes(len) + (body + tail));
        match w {
            Some(n) => {
                assert(p.bytes(len) =~= Seq::<u8>::empty());
                assert(b.subrange(off as int, (off + len) as int) =~= body);
            },
            None => {
                lemma_read_of_bytes(p, len, body + tail);
                let used = p.bytes(len).len();
                assert(b.subrange((off + used) as int, (off + used + len) as int) =~= body);
            },
        }
        assert(bodies.take(j).push(body) =~= bodies.take(k as int));
    }
}

/// The announced length of each of the first `k` members, as a header says it.
pub open spec fn announced_lens(ps: Seq<Prefix>, bodies: Seq<Seq<u8>>, k: nat) -> Seq<nat> {
    Seq::new(
        k,
        |i: int|
            if ps[i] is Absent {
                0
            } else {
                bodies[i].len()
            },
    )
}

/// Reading the header of a tuple or struct gives the lengths that were
/// announced, whatever follows the header.
pub proof fn lemma_read_lens_of_header(ps: Seq<Prefix>, bodies: Seq<Seq<u8>>, rest: Seq<u8>, k: nat)
    requires
        k <= bodies.len(),
        ps.len() == bodies.len(),
        forall|i: int| 0 <= i < bodies.len() && !(ps[i] is Absent) ==> (#[trigger] bodies[i]).len() <= u32::MAX,
    ensures
        read_lens(ps, concat(announce(ps, bodies)) + rest, k) == Some(
            (announced_lens(ps, bodies, k), concat(announce(ps, bodies).take(k as int)).len()),
        ),
    decreases k,
{
    let heads = announce(ps, bodies);
    let b = concat(heads) + rest;
    if k == 0 {
        assert(heads.take(0) =~= Seq::<Seq<u8>>::empty());
        assert(announced_lens(ps, bodies, 0) =~= Seq::<nat>::empty());
    } else {
        let j = (k - 1) as int;
        lemma_read_lens_of_header(ps, bodies, rest, j as nat);
        lemma_concat_around(heads, j);
        let off = concat(heads.take(j)).len();
        let len = bodies[j].len();
        let tail = concat(heads.skip(j + 1)) + rest;
        assert(heads[j] == ps[j].bytes(len));
        if ps[j] is Absent {
            assert(heads[j] =~= Seq::<u8>::empty());
            assert(announced_lens(ps, bodies, j as nat).push(0) =~= announced_lens(ps, bodies, k));
        } else {
            assert(b.subrange(off as int, b.len() as int) =~= ps[j].bytes(len) + tail);
            lemma_read_of_bytes(ps[j], len, tail);
            assert(announced_lens(ps, bodies, j as nat).push(len) =~= announced_lens(ps, bodies, k));
        }
    }
}

/// Cutting members of known lengths off a buffer that holds just them
/// behind `pre` gives the members back.
pub proof fn lemma_cut_of_bodies(lens: Seq<Option<nat>>, pre: Seq<u8>, bodies: Seq<Seq<u8>>, k: nat)
    requires
        k <= bodies.len(),
        lens.len() == bodies.len(),
        forall|i: int|
            0 <= i < bodies.len() ==> match #[trigger] lens[i] {
                Some(n) => bodies[i].len() == n,
                None => i == bodies.len() - 1,
            },
    ensures
        cut(lens, pre + concat(bodies), pre.len(), k) == Some(
            (bodies.take(k as int), pre.len() + concat(bodies.take(k as int)).len()),
        ),
    decreases k,
{
    let b = pre + concat(bodies);
    if k == 0 {
        assert(bodies.take(0) =~= Seq::<Seq<u8>>::empty());
    } else {
        let j = (k - 1) as int;
        lemma_cut_of_bodies(lens, pre, bodies, j as nat);
        lemma_concat_around(bodies, j);
        let off = pre.len() + concat(bodies.take(j)).len();
        let body = bodies[j];
        match lens[j] {
            Some(n) => {},
            None => {
                assert(bodies.skip(j + 1) =~= Seq::<Seq<u8>>::empty());
            },
        }
        assert(b.subrange(off as int, (off + body.len()) as int) =~= body);
        assert(bodies.take(j).push(body) =~= bodies.take(k as int));
    }
}

/// Cutting up the layout of a tuple or struct gives its members back, and
/// nothing is left over.
pub proof fn lemma_split_members_of_join(ws: Seq<Option<nat>>, bodies: Seq<Seq<u8>>)
    requires
        ws.len() == bodies.len(),
        forall|i: int|
            0 <= i < bodies.len() ==> match #[trigger] ws[i] {
                Some(n) => bodies[i].len() == n,
                None => i == bodies.len() - 1 || bodies[i].len() <= u32::MAX,
            },
    ensures
        ({
            let ps = member_prefixes(ws);
            let b = concat(announce(ps, bodies)) + concat(bodies);
            &&& forall|i: int| 0 <= i < bodies.len() ==> (#[trigger] member_slices(ws, b)[i]) == Some(bodies[i])
            &&& end_of_split(split_members(ws, b, ws.len())) == Some(b.len())
        }),
{
    let ps = member_prefixes(ws);
    let n = bodies.len();
    let heads = announce(ps, bodies);
    let header = concat(heads);
    let b = header + concat(bodies);
    lemma_read_lens_of_header(ps, bodies, concat(bodies), n);
    assert(heads.take(n as int) =~= heads);
    let lens = announced_lens(ps, bodies, n);
    let ms = member_lens(ws, lens);
    assert forall|k: nat| k <= n implies cut(ms, b, header.len(), k) == Some(
        (bodies.take(k as int), header.len() + concat(bodies.take(k as int)).len()),
    ) by {
        lemma_cut_of_bodies(ms, header, bodies, k);
    }
    assert forall|i: int| 0 <= i < bodies.len() implies (#[trigger] member_slices(ws, b)[i]) == Some(
        bodies[i],
    ) by {
        let k = (i + 1) as nat;
        assert(cut(ms, b, header.len(), k) is Some);
        assert(bodies.take(k as int)[i] == bodies[i]);
    }
    assert(cut(ms, b, header.len(), n) is Some);
    assert(bodies.take(n as int) =~= bodies);
}

/// The offset behind what a split gave, where it gave something.
pub open spec fn end_of_split(split: Option<(Seq<Seq<u8>>, nat)>) -> Option<nat> {
    match split {
        Some((_, end)) => Some(end),
        None => None,
    }
}

} // verus!
