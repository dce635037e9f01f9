//! Fields: the units that every message is made of.
//!
//! A field is a key followed by a value. The key is a varint that holds the
//! field number in its upper bits and the shape of the value in its lowest
//! three. A message is its fields one after the other, with nothing between
//! them and nothing around them.
//!
//! Reading goes in two moves, here and wherever a message is decoded: the
//! input is first cut into fields, which fails where it ends inside a field
//! or holds a shape that does not exist; only then is any field looked at.

use vstd::prelude::*;
use vstd::slice::slice_subrange;
use crate::error::DecodeError;
use crate::varint::{
    decode_varint, lemma_continued_bound, lemma_read_varint_bytes, lemma_read_varint_cut,
    put_varint, read_varint, varint_bytes,
};

verus! {

/// The largest field number that a key can hold: a key is a 64-bit integer
/// whose lowest three bits name the shape of the value.
pub const MAX_TAG: u64 = 0x1fff_ffff_ffff_ffff;

/// The value of a field in one of the four shapes of the wire.
pub ghost enum WireValue {
    /// A variable-length integer.
    Varint(u64),
    /// Eight bytes.
    Fixed64(Seq<u8>),
    /// A length, then that many bytes.
    Bytes(Seq<u8>),
    /// Four bytes.
    Fixed32(Seq<u8>),
}

/// A field number with the value that stands under it.
pub ghost struct Field {
    pub tag: u64,
    pub value: WireValue,
}

/// The value of a field, borrowed from the input it was read from.
#[derive(Clone, Copy, Debug, PartialEq, Eq)]
pub enum RawValue<'a> {
    Varint(u64),
    Fixed64(&'a [u8]),
    Bytes(&'a [u8]),
    Fixed32(&'a [u8]),
}

/// A field as read from the input.
#[derive(Clone, Copy, Debug, PartialEq, Eq)]
pub struct RawField<'a> {
    pub tag: u64,
    pub value: RawValue<'a>,
}

impl<'a> View for RawValue<'a> {
    type V = WireValue;

    open spec fn view(&self) -> WireValue {
        match self {
            RawValue::Varint(v) => WireValue::Varint(*v),
            RawValue::Fixed64(b) => WireValue::Fixed64(b@),
            RawValue::Bytes(b) => WireValue::Bytes(b@),
            RawValue::Fixed32(b) => WireValue::Fixed32(b@),
        }
    }
}

impl<'a> View for RawField<'a> {
    type V = Field;

    open spec fn view(&self) -> Field {
        Field { tag: self.tag, value: self.value@ }
    }
}

/// The fields that a vector of raw fields stands for.
pub open spec fn field_views(fields: Seq<RawField>) -> Seq<Field> {
    fields.map_values(|f: RawField| f@)
}

/// The three bits that name the shape of a value.
pub open spec fn wire_type(v: WireValue) -> nat {
    match v {
        WireValue::Varint(_) => 0,
        WireValue::Fixed64(_) => 1,
        WireValue::Bytes(_) => 2,
        WireValue::Fixed32(_) => 5,
    }
}

/// The bytes of a value behind its key.
pub open spec fn value_bytes(v: WireValue) -> Seq<u8> {
    match v {
        WireValue::Varint(n) => varint_bytes(n as nat),
        WireValue::Fixed64(b) => b,
        WireValue::Bytes(b) => varint_bytes(b.len()) + b,
        WireValue::Fixed32(b) => b,
    }
}

/// The bytes of a field: key, then value.
pub open spec fn field_bytes(f: Field) -> Seq<u8> {
    varint_bytes(f.tag as nat * 8 + wire_type(f.value)) + value_bytes(f.value)
}

/// The bytes of a message made of the fields `fs`, in their order.
pub open spec fn fields_bytes(fs: Seq<Field>) -> Seq<u8>
    decreases fs.len(),
{
    if fs.len() == 0 {
        Seq::empty()
    } else {
        field_bytes(fs[0]) + fields_bytes(fs.drop_first())
    }
}

/// What can stand on the wire: a field number up to [`MAX_TAG`], fixed
/// values of their size, and a byte string whose length fits in 64 bits.
pub open spec fn field_ok(f: Field) -> bool {
    &&& f.tag <= MAX_TAG
    &&& match f.value {
        WireValue::Varint(_) => true,
        WireValue::Fixed64(b) => b.len() == 8,
        WireValue::Bytes(b) => b.len() <= u64::MAX,
        WireValue::Fixed32(b) => b.len() == 4,
    }
}

/// Whether every field of `fs` can stand on the wire.
pub open spec fn fields_ok(fs: Seq<Field>) -> bool {
    forall|i: int| 0 <= i < fs.len() ==> field_ok(#[trigger] fs[i])
}

/// The value of shape `wt` at the front of `b`, and the bytes it takes.
///
/// Input that ends inside the value is `Truncated`; a shape other than the
/// four of [`WireValue`] is `Malformed`.
pub open spec fn read_value(wt: u64, b: Seq<u8>) -> Result<(WireValue, nat), DecodeError> {
    if wt == 0 {
        match read_varint(b) {
            Ok((v, n)) => Ok((WireValue::Varint(v), n)),
            Err(e) => Err(e),
        }
    } else if wt == 1 {
        if b.len() < 8 {
            Err(DecodeError::Truncated)
        } else {
            Ok((WireValue::Fixed64(b.take(8)), 8))
        }
    } else if wt == 2 {
        match read_varint(b) {
            Ok((len, n)) => {
                if b.len() - n < len {
                    Err(DecodeError::Truncated)
                } else {
                    Ok((WireValue::Bytes(b.subrange(n as int, n + len)), (n + len) as nat))
                }
            },
            Err(e) => Err(e),
        }
    } else if wt == 5 {
        if b.len() < 4 {
            Err(DecodeError::Truncated)
        } else {
            Ok((WireValue::Fixed32(b.take(4)), 4))
        }
    } else {
        Err(DecodeError::Malformed)
    }
}

/// The field at the front of `b`, and the bytes it takes: a key, whose
/// lowest three bits name the shape of the value and whose other bits are
/// the field number, then the value. Every field number is read, 0 too:
/// which numbers mean something is for the message to say.
pub open spec fn read_field(b: Seq<u8>) -> Result<(Field, nat), DecodeError> {
    match read_varint(b) {
        Ok((key, n)) => match read_value(key % 8, b.skip(n as int)) {
            Ok((v, m)) => Ok((Field { tag: key / 8, value: v }, n + m)),
            Err(e) => Err(e),
        },
        Err(e) => Err(e),
    }
}

/// The fields that `b` is made of, or the error of the first field that
/// cannot be read.
pub open spec fn parse_fields(b: Seq<u8>) -> Result<Seq<Field>, DecodeError>
    decreases b.len(),
    via parse_fields_decreases
{
    if b.len() == 0 {
        Ok(Seq::empty())
    } else {
        match read_field(b) {
            Ok((f, n)) => match parse_fields(b.skip(n as int)) {
                Ok(fs) => Ok(seq![f] + fs),
                Err(e) => Err(e),
            },
            Err(e) => Err(e),
        }
    }
}

#[via_fn]
proof fn parse_fields_decreases(b: Seq<u8>) {
    lemma_read_field_span(b);
}

/// A field that was read takes at least one byte and no more than there are,
/// and can stand on the wire.
pub proof fn lemma_read_field_span(b: Seq<u8>)
    ensures
        read_field(b) matches Ok((f, n)) ==> 1 <= n <= b.len() && field_ok(f),
{
    lemma_continued_bound(b);
    if let Ok((key, n)) = read_varint(b) {
        lemma_continued_bound(b.skip(n as int));
    }
}

/// `fs` in front of what `r` holds, or the error of `r`.
pub open spec fn prepend(fs: Seq<Field>, r: Result<Seq<Field>, DecodeError>) -> Result<
    Seq<Field>,
    DecodeError,
> {
    match r {
        Ok(t) => Ok(fs + t),
        Err(e) => Err(e),
    }
}

/// Reads the field at the front of `bytes` and returns it with the bytes
/// behind it.
pub fn next_field<'a>(bytes: &'a [u8]) -> (r: Result<(RawField<'a>, &'a [u8]), DecodeError>)
    ensures
        match r {
            Ok((f, rest)) => {
                &&& read_field(bytes@) matches Ok((g, n))
                &&& f@ == g
                &&& n <= bytes@.len()
                &&& rest@ == bytes@.skip(n as int)
            },
            Err(e) => read_field(bytes@) == Err::<(Field, nat), DecodeError>(e),
        },
{
    let (key, after_key) = match decode_varint(bytes) {
        Ok(p) => p,
        Err(e) => {
            return Err(e);
        },
    };
    let tag: u64 = key / 8;
    let wt: u64 = key % 8;
    let ghost n = bytes@.len() - after_key@.len();
    if wt == 0 {
        match decode_varint(after_key) {
            Ok((v, rest)) => {
                assert(rest@ == bytes@.skip(n + (after_key@.len() - rest@.len())));
                Ok((RawField { tag, value: RawValue::Varint(v) }, rest))
            },
            Err(e) => Err(e),
        }
    } else if wt == 1 {
        if after_key.len() < 8 {
            Err(DecodeError::Truncated)
        } else {
            let payload = slice_subrange(after_key, 0, 8);
            let rest = slice_subrange(after_key, 8, after_key.len());
            assert(payload@ == after_key@.take(8));
            assert(rest@ == bytes@.skip(n + 8));
            Ok((RawField { tag, value: RawValue::Fixed64(payload) }, rest))
        }
    } else if wt == 2 {
        match decode_varint(after_key) {
            Ok((len, after_len)) => {
                if len > after_len.len() as u64 {
                    Err(DecodeError::Truncated)
                } else {
                    let m: usize = len as usize;
                    let ghost k = after_key@.len() - after_len@.len();
                    let payload = slice_subrange(after_len, 0, m);
                    let rest = slice_subrange(after_len, m, after_len.len());
                    assert(payload@ == after_key@.subrange(k, k + m));
                    assert(rest@ == bytes@.skip(n + k + m));
                    Ok((RawField { tag, value: RawValue::Bytes(payload) }, rest))
                }
            },
            Err(e) => Err(e),
        }
    } else if wt == 5 {
        if after_key.len() < 4 {
            Err(DecodeError::Truncated)
        } else {
            let payload = slice_subrange(after_key, 0, 4);
            let rest = slice_subrange(after_key, 4, after_key.len());
            assert(payload@ == after_key@.take(4));
            assert(rest@ == bytes@.skip(n + 4));
            Ok((RawField { tag, value: RawValue::Fixed32(payload) }, rest))
        }
    } else {
        Err(DecodeError::Malformed)
    }
}

/// Cuts `bytes` into its fields.
pub fn split_fields<'a>(bytes: &'a [u8]) -> (r: Result<Vec<RawField<'a>>, DecodeError>)
    ensures
        match r {
            Ok(fields) => parse_fields(bytes@) == Ok::<Seq<Field>, DecodeError>(
                field_views(fields@),
            ),
            Err(e) => parse_fields(bytes@) == Err::<Seq<Field>, DecodeError>(e),
        },
{
    let mut out: Vec<RawField<'a>> = Vec::new();
    let mut rest = bytes;
    assert(field_views(out@) + Seq::<Field>::empty() =~= field_views(out@));
    while rest.len() > 0
        invariant
            parse_fields(bytes@) == prepend(field_views(out@), parse_fields(rest@)),
        decreases rest@.len(),
    {
        match next_field(rest) {
            Ok((f, after)) => {
                proof {
                    lemma_read_field_span(rest@);
                    let before = field_views(out@);
                    assert(field_views(out@.push(f)) =~= before.push(f@));
                    if let Ok(t) = parse_fields(after@) {
                        assert(before + (seq![f@] + t) =~= before.push(f@) + t);
                    }
                }
                out.push(f);
                rest = after;
            },
            Err(e) => {
                return Err(e);
            },
        }
    }
    proof {
        assert(field_views(out@) + Seq::<Field>::empty() =~= field_views(out@));
    }
    Ok(out)
}

/// Appends `bytes` to `buf`.
pub fn put_bytes(bytes: &[u8], buf: &mut Vec<u8>)
    ensures
        final(buf)@ == old(buf)@ + bytes@,
{
    let mut i: usize = 0;
    while i < bytes.len()
        invariant
            i <= bytes@.len(),
            buf@ == old(buf)@ + bytes@.take(i as int),
        decreases bytes@.len() - i,
    {
        buf.push(bytes[i]);
        i += 1;
        assert(buf@ =~= old(buf)@ + bytes@.take(i as int));
    }
    assert(bytes@.take(i as int) =~= bytes@);
}

/// Appends a field that holds the integer `v`.
pub fn put_varint_field(tag: u64, v: u64, buf: &mut Vec<u8>)
    requires
        tag <= MAX_TAG,
    ensures
        final(buf)@ == old(buf)@ + field_bytes(Field { tag, value: WireValue::Varint(v) }),
        field_ok(Field { tag, value: WireValue::Varint(v) }),
{
    put_varint(tag * 8, buf);
    put_varint(v, buf);
    assert(buf@ =~= old(buf)@ + field_bytes(Field { tag, value: WireValue::Varint(v) }));
}

/// Appends a field that holds the byte string `payload`.
pub fn put_bytes_field(tag: u64, payload: &[u8], buf: &mut Vec<u8>)
    requires
        tag <= MAX_TAG,
    ensures
        final(buf)@ == old(buf)@ + field_bytes(Field { tag, value: WireValue::Bytes(payload@) }),
        field_ok(Field { tag, value: WireValue::Bytes(payload@) }),
{
    put_varint(tag * 8 + 2, buf);
    put_varint(payload.len() as u64, buf);
    put_bytes(payload, buf);
    assert(buf@ =~= old(buf)@ + field_bytes(
        Field { tag, value: WireValue::Bytes(payload@) },
    ));
}

/// The bytes of two runs of fields are the bytes of the first run, then
/// those of the second.
pub proof fn lemma_fields_bytes_concat(a: Seq<Field>, b: Seq<Field>)
    ensures
        fields_bytes(a + b) == fields_bytes(a) + fields_bytes(b),
    decreases a.len(),
{
    if a.len() == 0 {
        assert(a + b =~= b);
        assert(fields_bytes(a) + fields_bytes(b) =~= fields_bytes(b));
    } else {
        lemma_fields_bytes_concat(a.drop_first(), b);
        assert((a + b).drop_first() =~= a.drop_first() + b);
        assert(fields_bytes(a + b) =~= fields_bytes(a) + fields_bytes(b));
    }
}

/// The bytes of a single field, as a message.
pub proof fn lemma_fields_bytes_one(f: Field)
    ensures
        fields_bytes(seq![f]) == field_bytes(f),
{
    assert(seq![f].drop_first() =~= Seq::<Field>::empty());
    assert(fields_bytes(seq![f].drop_first()) =~= Seq::<u8>::empty());
    assert(fields_bytes(seq![f]) =~= field_bytes(f));
}

/// Reading the bytes of a field gives the field back and stops behind it,
/// whatever follows.
pub proof fn lemma_read_field_bytes(f: Field, rest: Seq<u8>)
    requires
        field_ok(f),
    ensures
        field_bytes(f).len() >= 1,
        read_field(field_bytes(f) + rest) == Ok::<(Field, nat), DecodeError>(
            (f, field_bytes(f).len()),
        ),
{
    let key: u64 = (f.tag as nat * 8 + wire_type(f.value)) as u64;
    let kb = varint_bytes(key as nat);
    let vb = value_bytes(f.value);
    let all = field_bytes(f) + rest;
    assert(all =~= kb + (vb + rest));
    lemma_read_varint_bytes(key, vb + rest);
    assert(all.skip(kb.len() as int) =~= vb + rest);
    assert(key / 8 == f.tag && key % 8 == wire_type(f.value));
    match f.value {
        WireValue::Varint(v) => {
            lemma_read_varint_bytes(v, rest);
        },
        WireValue::Fixed64(b) => {
            assert((vb + rest).take(8) =~= b);
        },
        WireValue::Bytes(b) => {
            let len: u64 = b.len() as u64;
            let lb = varint_bytes(len as nat);
            assert(vb + rest =~= lb + (b + rest));
            lemma_read_varint_bytes(len, b + rest);
            assert((vb + rest).subrange(lb.len() as int, lb.len() + len) =~= b);
        },
        WireValue::Fixed32(b) => {
            assert((vb + rest).take(4) =~= b);
        },
    }
}

/// Cutting the bytes of a message into fields gives its fields back.
pub proof fn lemma_parse_fields_bytes(fs: Seq<Field>)
    requires
        fields_ok(fs),
    ensures
        parse_fields(fields_bytes(fs)) == Ok::<Seq<Field>, DecodeError>(fs),
    decreases fs.len(),
{
    if fs.len() == 0 {
        assert(fs =~= Seq::<Field>::empty());
    } else {
        let tail = fs.drop_first();
        let bytes = fields_bytes(fs);
        lemma_read_field_bytes(fs[0], fields_bytes(tail));
        lemma_parse_fields_bytes(tail);
        assert(bytes == field_bytes(fs[0]) + fields_bytes(tail));
        assert(bytes.skip(field_bytes(fs[0]).len() as int) =~= fields_bytes(tail));
        assert(seq![fs[0]] + tail =~= fs);
    }
}

/// Whether the bytes of `fs` can be cut at `k` without cutting a field: `k`
/// is the length of the first so many fields.
pub open spec fn is_boundary(fs: Seq<Field>, k: int) -> bool {
    exists|i: int| 0 <= i <= fs.len() && k == fields_bytes(#[trigger] fs.take(i)).len()
}

/// A field whose bytes are cut short reads as truncated.
pub proof fn lemma_read_field_cut(f: Field, k: int)
    requires
        field_ok(f),
        0 <= k < field_bytes(f).len(),
    ensures
        read_field(field_bytes(f).take(k)) == Err::<(Field, nat), DecodeError>(
            DecodeError::Truncated,
        ),
{
    let key: u64 = (f.tag as nat * 8 + wire_type(f.value)) as u64;
    let kb = varint_bytes(key as nat);
    let vb = value_bytes(f.value);
    let cut = field_bytes(f).take(k);
    if k < kb.len() {
        assert(cut =~= kb.take(k));
        lemma_read_varint_cut(key, k);
    } else {
        let j = k - kb.len();
        assert(cut =~= kb + vb.take(j));
        lemma_read_varint_bytes(key, vb.take(j));
        assert(cut.skip(kb.len() as int) =~= vb.take(j));
        assert(key / 8 == f.tag && key % 8 == wire_type(f.value));
        match f.value {
            WireValue::Varint(v) => {
                lemma_read_varint_cut(v, j);
            },
            WireValue::Fixed64(b) => {},
            WireValue::Bytes(b) => {
                let len: u64 = b.len() as u64;
                let lb = varint_bytes(len as nat);
                if j < lb.len() {
                    assert(vb.take(j) =~= lb.take(j));
                    lemma_read_varint_cut(len, j);
                } else {
                    assert(vb.take(j) =~= lb + b.take(j - lb.len()));
                    lemma_read_varint_bytes(len, b.take(j - lb.len()));
                }
            },
            WireValue::Fixed32(b) => {},
        }
    }
}

/// The bytes of the first `i` fields are the front of the bytes of all of
/// them, and cut into those `i` fields.
pub proof fn lemma_parse_fields_boundary(fs: Seq<Field>, i: int)
    requires
        fields_ok(fs),
        0 <= i <= fs.len(),
    ensures
        fields_bytes(fs.take(i)).len() <= fields_bytes(fs).len(),
        fields_bytes(fs).take(fields_bytes(fs.take(i)).len() as int) == fields_bytes(fs.take(i)),
        parse_fields(fields_bytes(fs.take(i))) == Ok::<Seq<Field>, DecodeError>(fs.take(i)),
{
    assert(fs =~= fs.take(i) + fs.skip(i));
    lemma_fields_bytes_concat(fs.take(i), fs.skip(i));
    let front = fields_bytes(fs.take(i));
    assert((front + fields_bytes(fs.skip(i))).take(front.len() as int) =~= front);
    lemma_parse_fields_bytes(fs.take(i));
}

/// A message that is cut inside one of its fields does not cut into fields:
/// it reads as truncated.
pub proof fn lemma_parse_fields_cut(fs: Seq<Field>, k: int)
    requires
        fields_ok(fs),
        0 <= k < fields_bytes(fs).len(),
        !is_boundary(fs, k),
    ensures
        parse_fields(fields_bytes(fs).take(k)) == Err::<Seq<Field>, DecodeError>(
            DecodeError::Truncated,
        ),
    decreases fs.len(),
{
    let f = fs[0];
    let tail = fs.drop_first();
    let fb = field_bytes(f);
    let all = fields_bytes(fs);
    assert(all == fb + fields_bytes(tail));
    assert(fs.take(0) =~= Seq::<Field>::empty());
    assert(k != 0);
    assert(fs.take(1) =~= seq![f]);
    lemma_fields_bytes_one(f);
    assert(k != fb.len());
    if k < fb.len() {
        assert(all.take(k) =~= fb.take(k));
        lemma_read_field_cut(f, k);
    } else {
        let j = k - fb.len();
        let after = fields_bytes(tail).take(j);
        assert(all.take(k) =~= fb + after);
        lemma_read_field_bytes(f, after);
        assert((fb + after).skip(fb.len() as int) =~= after);
        assert forall|i: int| 0 <= i <= tail.len() implies j != fields_bytes(
            #[trigger] tail.take(i),
        ).len() by {
            assert(fs.take(i + 1) =~= seq![f] + tail.take(i));
            lemma_fields_bytes_concat(seq![f], tail.take(i));
        }
        lemma_parse_fields_cut(tail, j);
    }
}

} // verus!
