//! Messages: how a value is laid out in fields, and how fields are gathered
//! back into a value.
//!
//! Encoding writes the fields of a value in a fixed order. Decoding cuts the
//! input into fields, then takes them one by one in the order in which they
//! stand: a field number that the message knows sets or extends the matching
//! part of the value, the rest is passed over or refused as the message
//! decides. Where a part that holds one value occurs more than once, the
//! last occurrence stands.

use vstd::prelude::*;
use crate::error::DecodeError;
use crate::value::{nested_field, repeated};
use crate::wire::{
    field_bytes, fields_bytes, fields_ok, is_boundary, lemma_fields_bytes_concat,
    lemma_fields_bytes_one, lemma_parse_fields_boundary, lemma_parse_fields_bytes,
    lemma_parse_fields_cut, parse_fields, Field,
};

verus! {

/// How a kind of value is laid out in fields.
pub trait Layout: Sized {
    /// What has been gathered of a value while its fields are taken in.
    type Draft;

    /// The fields of the value, in the order in which they are written.
    spec fn fields(self) -> Seq<Field>;

    /// Whether the value can be written: no byte string inside it, nor the
    /// encoding of any value inside it, is longer than a 64-bit length can
    /// say. This holds of every value that fits in memory.
    spec fn encodable(self) -> bool;

    /// The draft before any field.
    spec fn blank() -> Self::Draft;

    /// The draft after one more field, or the reason why the field is
    /// refused.
    spec fn step(d: Self::Draft, f: Field) -> Result<Self::Draft, DecodeError>;

    /// The value that a draft amounts to when the input is used up.
    spec fn finish(d: Self::Draft) -> Result<Self, DecodeError>;
}

/// A kind of value whose layout loses nothing.
pub trait Message: Layout {
    /// Decoding the encoding of a value gives the value back.
    proof fn lemma_round_trip(self)
        requires
            self.encodable(),
        ensures
            fields_ok(self.fields()),
            decoding::<Self>(encoding(self)) == Ok::<Self, DecodeError>(self),
    ;

    /// Fields that were all taken in amount to a value, or lack a part that
    /// the value must have.
    proof fn lemma_finish(d: <Self as Layout>::Draft)
        ensures
            Self::finish(d) is Ok || Self::finish(d) == Err::<Self, DecodeError>(
                DecodeError::MissingField,
            ),
    ;
}

/// The bytes of a value.
pub open spec fn encoding<M: Layout>(v: M) -> Seq<u8> {
    fields_bytes(v.fields())
}

/// The draft after the fields `fs`, taken in order, or the error of the
/// first field that is refused.
pub open spec fn absorb<M: Layout>(d: M::Draft, fs: Seq<Field>) -> Result<M::Draft, DecodeError>
    decreases fs.len(),
{
    if fs.len() == 0 {
        Ok(d)
    } else {
        match M::step(d, fs[0]) {
            Ok(next) => absorb::<M>(next, fs.drop_first()),
            Err(e) => Err(e),
        }
    }
}

/// The value that the fields `fs` amount to.
pub open spec fn from_fields<M: Layout>(fs: Seq<Field>) -> Result<M, DecodeError> {
    match absorb::<M>(M::blank(), fs) {
        Ok(d) => M::finish(d),
        Err(e) => Err(e),
    }
}

/// The value that the bytes `b` stand for.
///
/// An input that does not cut into fields fails with the error of
/// [`parse_fields`], whatever the fields before the fault hold.
pub open spec fn decoding<M: Layout>(b: Seq<u8>) -> Result<M, DecodeError> {
    match parse_fields(b) {
        Ok(fs) => from_fields::<M>(fs),
        Err(e) => Err(e),
    }
}

/// What a call returned, with the value it may hold replaced by its view.
pub open spec fn viewed<T: View>(r: Result<T, DecodeError>) -> Result<T::V, DecodeError> {
    match r {
        Ok(v) => Ok(v@),
        Err(e) => Err(e),
    }
}

/// Taking in two runs of fields is taking in the first, then the second.
pub proof fn lemma_absorb_concat<M: Layout>(d: M::Draft, a: Seq<Field>, b: Seq<Field>)
    ensures
        absorb::<M>(d, a + b) == match absorb::<M>(d, a) {
            Ok(mid) => absorb::<M>(mid, b),
            Err(e) => Err(e),
        },
    decreases a.len(),
{
    if a.len() == 0 {
        assert(a + b =~= b);
    } else {
        assert((a + b).drop_first() =~= a.drop_first() + b);
        assert((a + b)[0] == a[0]);
        if let Ok(next) = M::step(d, a[0]) {
            lemma_absorb_concat::<M>(next, a.drop_first(), b);
        }
    }
}

/// Taking in one field is one step.
pub proof fn lemma_absorb_one<M: Layout>(d: M::Draft, f: Field)
    ensures
        absorb::<M>(d, seq![f]) == M::step(d, f),
{
    assert(seq![f].drop_first() =~= Seq::<Field>::empty());
    if let Ok(next) = M::step(d, f) {
        assert(absorb::<M>(next, seq![f].drop_first()) == Ok::<M::Draft, DecodeError>(next));
    }
}

/// Taking in two fields is two steps.
pub proof fn lemma_absorb_two<M: Layout>(d: M::Draft, a: Field, b: Field)
    ensures
        absorb::<M>(d, seq![a, b]) == match M::step(d, a) {
            Ok(next) => M::step(next, b),
            Err(e) => Err(e),
        },
{
    assert(seq![a, b] =~= seq![a] + seq![b]);
    lemma_absorb_concat::<M>(d, seq![a], seq![b]);
    lemma_absorb_one::<M>(d, a);
    if let Ok(next) = M::step(d, a) {
        lemma_absorb_one::<M>(next, b);
    }
}

/// Taking in three fields is three steps.
pub proof fn lemma_absorb_three<M: Layout>(d: M::Draft, a: Field, b: Field, c: Field)
    ensures
        absorb::<M>(d, seq![a, b, c]) == match M::step(d, a) {
            Ok(next) => match M::step(next, b) {
                Ok(last) => M::step(last, c),
                Err(e) => Err(e),
            },
            Err(e) => Err(e),
        },
{
    assert(seq![a, b, c] =~= seq![a] + seq![b, c]);
    lemma_absorb_concat::<M>(d, seq![a], seq![b, c]);
    lemma_absorb_one::<M>(d, a);
    if let Ok(next) = M::step(d, a) {
        lemma_absorb_two::<M>(next, b, c);
    }
}

/// Taking in the fields from the `i`-th on is one step with the `i`-th, then
/// the fields behind it.
pub proof fn lemma_absorb_skip<M: Layout>(d: M::Draft, fs: Seq<Field>, i: int)
    requires
        0 <= i < fs.len(),
    ensures
        absorb::<M>(d, fs.skip(i)) == match M::step(d, fs[i]) {
            Ok(next) => absorb::<M>(next, fs.skip(i + 1)),
            Err(e) => Err(e),
        },
{
    assert(fs.skip(i).drop_first() =~= fs.skip(i + 1));
}

/// Taking in the fields of a list, where each step with a value of the list
/// leads from the draft `after(p)` to the draft `after(p.push(e))`, leads
/// from the draft after no value to the draft after all of them.
pub proof fn lemma_absorb_repeated<M: Layout, E: Message>(
    tag: u64,
    items: Seq<E>,
    after: spec_fn(Seq<E>) -> M::Draft,
)
    requires
        forall|i: int| 0 <= i < items.len() ==> (#[trigger] items[i]).encodable(),
        forall|p: Seq<E>, e: E|
            e.encodable() ==> #[trigger] M::step(after(p), nested_field(tag, e)) == Ok::<
                M::Draft,
                DecodeError,
            >(after(p.push(e))),
    ensures
        absorb::<M>(after(Seq::empty()), repeated(tag, items)) == Ok::<M::Draft, DecodeError>(
            after(items),
        ),
    decreases items.len(),
{
    if items.len() == 0 {
        assert(items =~= Seq::<E>::empty());
    } else {
        let front = items.drop_last();
        let last = items.last();
        lemma_absorb_repeated::<M, E>(tag, front, after);
        assert(repeated(tag, items) =~= repeated(tag, front) + seq![nested_field(tag, last)]);
        lemma_absorb_concat::<M>(
            after(Seq::empty()),
            repeated(tag, front),
            seq![nested_field(tag, last)],
        );
        lemma_absorb_one::<M>(after(front), nested_field(tag, last));
        assert(items[items.len() - 1].encodable());
        assert(front.push(last) =~= items);
    }
}

/// The bytes of fields that can stand on the wire decode as those fields do.
pub proof fn lemma_decoding_fields<M: Layout>(fs: Seq<Field>)
    requires
        fields_ok(fs),
    ensures
        decoding::<M>(fields_bytes(fs)) == from_fields::<M>(fs),
{
    lemma_parse_fields_bytes(fs);
}

/// An encoding that is cut inside one of its fields decodes as truncated.
pub proof fn lemma_decoding_cut<M: Layout>(v: M, k: int)
    requires
        fields_ok(v.fields()),
        0 <= k < encoding(v).len(),
        !is_boundary(v.fields(), k),
    ensures
        decoding::<M>(encoding(v).take(k)) == Err::<M, DecodeError>(DecodeError::Truncated),
{
    lemma_parse_fields_cut(v.fields(), k);
}

/// An encoding that is cut behind its `i`-th field decodes as the first `i`
/// fields do.
pub proof fn lemma_decoding_boundary<M: Layout>(v: M, i: int)
    requires
        fields_ok(v.fields()),
        0 <= i <= v.fields().len(),
    ensures
        fields_bytes(v.fields().take(i)).len() <= encoding(v).len(),
        decoding::<M>(encoding(v).take(fields_bytes(v.fields().take(i)).len() as int))
            == from_fields::<M>(v.fields().take(i)),
{
    lemma_parse_fields_boundary(v.fields(), i);
}

/// The bytes of a run of fields with one more field behind it.
pub proof fn lemma_fields_bytes_push(fs: Seq<Field>, f: Field)
    ensures
        fields_bytes(fs.push(f)) == fields_bytes(fs) + field_bytes(f),
{
    assert(fs.push(f) =~= fs + seq![f]);
    lemma_fields_bytes_concat(fs, seq![f]);
    lemma_fields_bytes_one(f);
}

/// Bytes hold no field yet.
pub(crate) proof fn lemma_put_none(base: Seq<u8>)
    ensures
        base == base + fields_bytes(Seq::<Field>::empty()),
{
    assert(base =~= base + fields_bytes(Seq::<Field>::empty()));
}

/// Bytes behind which one more field is written hold one more field.
pub(crate) proof fn lemma_put(base: Seq<u8>, done: Seq<Field>, f: Field)
    ensures
        base + fields_bytes(done) + field_bytes(f) == base + fields_bytes(done.push(f)),
{
    lemma_fields_bytes_push(done, f);
    assert(base + fields_bytes(done) + field_bytes(f) =~= base + fields_bytes(done.push(f)));
}

/// Bytes behind which a run of fields is written hold that run too.
pub(crate) proof fn lemma_put_run(base: Seq<u8>, done: Seq<Field>, run: Seq<Field>)
    ensures
        base + fields_bytes(done) + fields_bytes(run) == base + fields_bytes(done + run),
{
    lemma_fields_bytes_concat(done, run);
    assert(base + fields_bytes(done) + fields_bytes(run) =~= base + fields_bytes(done + run));
}

} // verus!
