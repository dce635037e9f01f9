//! Base-128 variable-length integers, the number format of the wire.
//!
//! An integer is cut into groups of seven bits, least significant group
//! first. Every byte but the last has its top bit set. A `u64` takes at most
//! ten bytes, and the tenth byte then holds the one remaining bit.

use vstd::prelude::*;
use crate::error::DecodeError;

verus! {

/// The encoding of `v`.
pub open spec fn varint_bytes(v: nat) -> Seq<u8>
    decreases v,
{
    if v < 128 {
        seq![v as u8]
    } else {
        seq![(v % 128 + 128) as u8] + varint_bytes(v / 128)
    }
}

/// How many bytes at the front of `b` have the continuation bit set.
pub open spec fn continued(b: Seq<u8>) -> nat
    decreases b.len(),
{
    if b.len() > 0 && b[0] >= 128 {
        1 + continued(b.skip(1))
    } else {
        0
    }
}

/// The number whose seven-bit groups are the low bits of the bytes of `b`,
/// least significant group first.
pub open spec fn groups_value(b: Seq<u8>) -> nat
    decreases b.len(),
{
    if b.len() == 0 {
        0
    } else {
        (b[0] % 128) as nat + 128 * groups_value(b.skip(1))
    }
}

/// Whether `b` starts with an integer that fits in 64 bits: a byte without
/// the continuation bit occurs among the first ten, and if it is the tenth it
/// is 0 or 1.
pub open spec fn varint_accepted(b: Seq<u8>) -> bool {
    let n = continued(b);
    n < b.len() && n < 10 && (n == 9 ==> b[9] < 2)
}

/// The integer at the front of `b` and the number of bytes it takes.
///
/// Ten continuation bytes, or a tenth byte above 1, are `Malformed`; input
/// that ends before the last byte of the integer is `Truncated`.
pub open spec fn read_varint(b: Seq<u8>) -> Result<(u64, nat), DecodeError> {
    let n = continued(b);
    if n >= 10 {
        Err(DecodeError::Malformed)
    } else if n == b.len() {
        Err(DecodeError::Truncated)
    } else if n == 9 && b[9] >= 2 {
        Err(DecodeError::Malformed)
    } else {
        Ok((groups_value(b.take(n + 1 as int)) as u64, n + 1))
    }
}

/// Appends the encoding of `v` to `buf`.
///
/// Calls `prost::encoding::encode_varint`, which is taken to write exactly
/// the bytes of [`varint_bytes`] behind what the buffer holds.
#[verifier::external_body]
pub(crate) fn put_varint(v: u64, buf: &mut Vec<u8>)
    ensures
        final(buf)@ == old(buf)@ + varint_bytes(v as nat),
{
    prost::encoding::encode_varint(v, buf);
}

/// Reads one integer from the front of `bytes` and returns it with the bytes
/// behind it.
///
/// Calls `prost::encoding::decode_varint`, which is taken to succeed exactly
/// on input that [`varint_accepted`] describes, to return the sum of the
/// seven-bit groups up to and including the first byte without continuation
/// bit, and to consume exactly those bytes.
#[verifier::external_body]
pub(crate) fn take_varint<'a>(bytes: &'a [u8]) -> (r: Option<(u64, &'a [u8])>)
    ensures
        match r {
            Some((v, rest)) => {
                &&& varint_accepted(bytes@)
                &&& v == groups_value(bytes@.take(continued(bytes@) + 1 as int))
                &&& rest@ == bytes@.skip(continued(bytes@) + 1 as int)
            },
            None => !varint_accepted(bytes@),
        },
{
    let mut rest = bytes;
    match prost::encoding::decode_varint(&mut rest) {
        Ok(v) => Some((v, rest)),
        Err(_) => None,
    }
}

/// Reads one integer from the front of `bytes`.
pub fn decode_varint<'a>(bytes: &'a [u8]) -> (r: Result<(u64, &'a [u8]), DecodeError>)
    ensures
        match r {
            Ok((v, rest)) => {
                &&& read_varint(bytes@) matches Ok((w, n))
                &&& v == w
                &&& n <= bytes@.len()
                &&& rest@ == bytes@.skip(n as int)
            },
            Err(e) => read_varint(bytes@) == Err::<(u64, nat), DecodeError>(e),
        },
{
    match take_varint(bytes) {
        Some((v, rest)) => Ok((v, rest)),
        None => {
            if bytes.len() < 10 {
                proof {
                    lemma_continued_bound(bytes@);
                }
                Err(DecodeError::Truncated)
            } else {
                Err(DecodeError::Malformed)
            }
        },
    }
}

/// The continuation bytes at the front of `b` are no more than `b` has.
pub proof fn lemma_continued_bound(b: Seq<u8>)
    ensures
        continued(b) <= b.len(),
    decreases b.len(),
{
    if b.len() > 0 && b[0] >= 128 {
        lemma_continued_bound(b.skip(1));
    }
}

/// The number of bytes of the encoding of `v`.
pub open spec fn varint_len(v: nat) -> nat
    decreases v,
{
    if v < 128 {
        1
    } else {
        1 + varint_len(v / 128)
    }
}

/// Twice the `k`-th power of 128: the first number whose encoding needs more
/// than one bit in byte `k`.
pub open spec fn group_limit(k: nat) -> nat
    decreases k,
{
    if k == 0 {
        2
    } else {
        128 * group_limit((k - 1) as nat)
    }
}

/// The shape of an encoding: its length, its continuation bits, and the
/// number that its groups add up to.
pub proof fn lemma_varint_shape(v: nat, rest: Seq<u8>)
    ensures
        varint_bytes(v).len() == varint_len(v),
        forall|i: int| 0 <= i < varint_len(v) - 1 ==> varint_bytes(v)[i] >= 128,
        varint_bytes(v).last() < 128,
        continued(varint_bytes(v) + rest) == varint_len(v) - 1,
        groups_value(varint_bytes(v)) == v,
    decreases v,
{
    let s = varint_bytes(v);
    if v < 128 {
        assert((s + rest)[0] == s[0]);
        assert(s.skip(1) =~= Seq::<u8>::empty());
        assert(groups_value(s.skip(1)) == 0);
        assert(s[0] % 128 == v);
    } else {
        let t = varint_bytes(v / 128);
        lemma_varint_shape(v / 128, rest);
        assert(s.skip(1) =~= t);
        assert((s + rest).skip(1) =~= t + rest);
        assert((s + rest)[0] == s[0]);
        assert(s.last() == t.last());
        assert(s[0] == v % 128 + 128);
        assert(s[0] % 128 == v % 128);
        assert(groups_value(s) == (s[0] % 128) as nat + 128 * groups_value(s.skip(1)));
        assert forall|i: int| 0 <= i < varint_len(v) - 1 implies s[i] >= 128 by {
            if i > 0 {
                assert(s[i] == t[i - 1]);
            }
        }
    }
}

/// A number below `group_limit(k)` takes at most `k + 1` bytes, and where it
/// takes that many the last byte is 0 or 1.
pub proof fn lemma_varint_limit(v: nat, k: nat)
    requires
        v < group_limit(k),
    ensures
        varint_len(v) <= k + 1,
        varint_len(v) == k + 1 ==> varint_bytes(v).last() < 2,
    decreases k,
{
    if k > 0 && v >= 128 {
        let t = varint_bytes(v / 128);
        lemma_varint_limit(v / 128, (k - 1) as nat);
        lemma_varint_shape(v / 128, Seq::empty());
        assert(varint_bytes(v).last() == t.last());
    }
}

/// Bytes that all have the continuation bit set are all counted.
pub proof fn lemma_continued_all(b: Seq<u8>)
    requires
        forall|i: int| 0 <= i < b.len() ==> b[i] >= 128,
    ensures
        continued(b) == b.len(),
    decreases b.len(),
{
    if b.len() > 0 {
        lemma_continued_all(b.skip(1));
    }
}

/// Reading an encoding gives the number back and stops behind it, whatever
/// follows.
pub proof fn lemma_read_varint_bytes(v: u64, rest: Seq<u8>)
    ensures
        1 <= varint_bytes(v as nat).len() <= 10,
        read_varint(varint_bytes(v as nat) + rest) == Ok::<(u64, nat), DecodeError>(
            (v, varint_bytes(v as nat).len()),
        ),
{
    let s = varint_bytes(v as nat);
    lemma_varint_shape(v as nat, rest);
    assert(group_limit(9) == 0x1_0000_0000_0000_0000) by {
        reveal_with_fuel(group_limit, 10);
    }
    lemma_varint_limit(v as nat, 9);
    assert((s + rest).take(s.len() as int) =~= s);
    if s.len() == 10 {
        assert((s + rest)[9] == s.last());
    }
}

/// An encoding that is cut short reads as truncated.
pub proof fn lemma_read_varint_cut(v: u64, k: int)
    requires
        0 <= k < varint_bytes(v as nat).len(),
    ensures
        read_varint(varint_bytes(v as nat).take(k)) == Err::<(u64, nat), DecodeError>(
            DecodeError::Truncated,
        ),
{
    let s = varint_bytes(v as nat);
    lemma_read_varint_bytes(v, Seq::empty());
    lemma_varint_shape(v as nat, Seq::empty());
    lemma_continued_all(s.take(k));
}

} // verus!
