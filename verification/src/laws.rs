//! What holds of every value of the schema and of every input.

use vstd::prelude::*;
use crate::codec::context::ParamsDraft;
use crate::error::DecodeError;
use crate::message::{
    absorb, decoding, encoding, from_fields, lemma_absorb_concat, lemma_absorb_one,
    lemma_absorb_three, lemma_absorb_two, lemma_decoding_boundary, lemma_decoding_cut,
    lemma_decoding_fields, Layout, Message,
};
use crate::types::{
    ContractResultView, CosmosMsgView, MsgView, ParamsView, ResponseView, ResultView,
};
use crate::value::{lemma_nested_round_trip, nested_field, optional_text, text_field};
use crate::wire::{
    field_ok, fields_bytes, fields_ok, is_boundary, parse_fields, Field, MAX_TAG,
};

verus! {

/// Decoding the encoding of a value gives the value back, for every kind of
/// value of the schema.
pub proof fn lemma_decode_encode<M: Message>(v: M)
    requires
        v.encodable(),
    ensures
        decoding::<M>(encoding(v)) == Ok::<M, DecodeError>(v),
{
    v.lemma_round_trip();
}

/// Two values with the same encoding are the same value.
pub proof fn lemma_encoding_injective<M: Message>(a: M, b: M)
    requires
        a.encodable(),
        b.encodable(),
        encoding(a) == encoding(b),
    ensures
        a == b,
{
    a.lemma_round_trip();
    b.lemma_round_trip();
}

/// A request is written as one field or none, and read back with the
/// variant it was written with and no other.
pub proof fn lemma_msg_variant_kept(v: MsgView)
    requires
        v.encodable(),
    ensures
        v.fields().len() == if v.msg is Some { 1nat } else { 0nat },
        decoding::<MsgView>(encoding(v)) matches Ok(d) && match v.msg {
            Some(CosmosMsgView::Send(m)) => d.msg == Some(CosmosMsgView::Send(m)),
            Some(CosmosMsgView::Contract(m)) => d.msg == Some(CosmosMsgView::Contract(m)),
            Some(CosmosMsgView::Opaque(m)) => d.msg == Some(CosmosMsgView::Opaque(m)),
            None => d.msg is None,
        },
{
    v.lemma_round_trip();
}

/// An answer is written as one field or none, and read back with the
/// variant it was written with and no other.
pub proof fn lemma_result_variant_kept(v: ContractResultView)
    requires
        v.encodable(),
    ensures
        v.fields().len() == if v.res is Some { 1nat } else { 0nat },
        decoding::<ContractResultView>(encoding(v)) matches Ok(d) && match v.res {
            Some(ResultView::Success(r)) => d.res == Some(ResultView::Success(r)),
            Some(ResultView::Failure(text)) => d.res == Some(ResultView::Failure(text)),
            None => d.res is None,
        },
{
    v.lemma_round_trip();
}

/// Where the fields of a request hold several variants, the last one
/// stands.
pub proof fn lemma_msg_last_wins(fs: Seq<Field>, f: Field)
    requires
        from_fields::<MsgView>(fs) is Ok,
    ensures
        from_fields::<MsgView>(fs.push(f)) == MsgView::step(MsgView::blank(), f),
{
    assert(fs.push(f) =~= fs + seq![f]);
    lemma_absorb_concat::<MsgView>(MsgView::blank(), fs, seq![f]);
    lemma_absorb_one::<MsgView>(absorb::<MsgView>(MsgView::blank(), fs)->Ok_0, f);
}

/// Where the fields of an answer hold several variants, the last one
/// stands.
pub proof fn lemma_result_last_wins(fs: Seq<Field>, f: Field)
    requires
        from_fields::<ContractResultView>(fs) is Ok,
    ensures
        from_fields::<ContractResultView>(fs.push(f)) == ContractResultView::step(
            ContractResultView::blank(),
            f,
        ),
{
    assert(fs.push(f) =~= fs + seq![f]);
    lemma_absorb_concat::<ContractResultView>(ContractResultView::blank(), fs, seq![f]);
    lemma_absorb_one::<ContractResultView>(
        absorb::<ContractResultView>(ContractResultView::blank(), fs)->Ok_0,
        f,
    );
}

/// A request whose one field is moved to a number other than 1, 2 and 3
/// decodes to the error of an unknown variant.
pub proof fn lemma_msg_unknown_variant(v: MsgView, tag: u64)
    requires
        v.encodable(),
        v.msg is Some,
        tag <= MAX_TAG,
        tag != 1 && tag != 2 && tag != 3,
    ensures
        decoding::<MsgView>(fields_bytes(seq![Field { tag, value: v.fields()[0].value }])) == Err::<
            MsgView,
            DecodeError,
        >(DecodeError::UnknownVariant),
{
    let moved = Field { tag, value: v.fields()[0].value };
    assert(field_ok(v.fields()[0]));
    lemma_decoding_fields::<MsgView>(seq![moved]);
    lemma_absorb_one::<MsgView>(MsgView::blank(), moved);
}

/// An answer whose one field is moved to a number other than 1 and 2
/// decodes to the error of an unknown variant.
pub proof fn lemma_result_unknown_variant(v: ContractResultView, tag: u64)
    requires
        v.encodable(),
        v.res is Some,
        tag <= MAX_TAG,
        tag != 1 && tag != 2,
    ensures
        decoding::<ContractResultView>(
            fields_bytes(seq![Field { tag, value: v.fields()[0].value }]),
        ) == Err::<ContractResultView, DecodeError>(DecodeError::UnknownVariant),
{
    let moved = Field { tag, value: v.fields()[0].value };
    assert(field_ok(v.fields()[0]));
    lemma_decoding_fields::<ContractResultView>(seq![moved]);
    lemma_absorb_one::<ContractResultView>(ContractResultView::blank(), moved);
}

/// Fields of a request of which one has a number other than 1, 2 and 3 never
/// amount to a request.
pub proof fn lemma_msg_rejects_unknown(d: MsgView, fs: Seq<Field>, i: int)
    requires
        0 <= i < fs.len(),
        fs[i].tag != 1 && fs[i].tag != 2 && fs[i].tag != 3,
    ensures
        absorb::<MsgView>(d, fs) is Err,
    decreases fs.len(),
{
    if i > 0 {
        if let Ok(next) = MsgView::step(d, fs[0]) {
            lemma_msg_rejects_unknown(next, fs.drop_first(), i - 1);
        }
    }
}

/// Fields of an answer of which one has a number other than 1 and 2 never
/// amount to an answer.
pub proof fn lemma_result_rejects_unknown(d: ContractResultView, fs: Seq<Field>, i: int)
    requires
        0 <= i < fs.len(),
        fs[i].tag != 1 && fs[i].tag != 2,
    ensures
        absorb::<ContractResultView>(d, fs) is Err,
    decreases fs.len(),
{
    if i > 0 {
        if let Ok(next) = ContractResultView::step(d, fs[0]) {
            lemma_result_rejects_unknown(next, fs.drop_first(), i - 1);
        }
    }
}

/// A call context whose encoding lacks one of its three parts decodes to the
/// error of a missing field.
pub proof fn lemma_params_missing_field(v: ParamsView, i: int)
    requires
        v.encodable(),
        0 <= i < 3,
    ensures
        decoding::<ParamsView>(fields_bytes(v.fields().remove(i))) == Err::<
            ParamsView,
            DecodeError,
        >(DecodeError::MissingField),
{
    let block = nested_field(1, v.block);
    let message = nested_field(2, v.message);
    let contract = nested_field(3, v.contract);
    let rest = v.fields().remove(i);
    let (x, y) = if i == 0 {
        (message, contract)
    } else if i == 1 {
        (block, contract)
    } else {
        (block, message)
    };
    assert(rest =~= seq![x, y]);
    assert(field_ok(v.fields()[0]) && field_ok(v.fields()[1]) && field_ok(v.fields()[2]));
    lemma_nested_round_trip(1, v.block);
    lemma_nested_round_trip(2, v.message);
    lemma_nested_round_trip(3, v.contract);
    lemma_decoding_fields::<ParamsView>(rest);
    lemma_absorb_two::<ParamsView>(ParamsView::blank(), x, y);
}

/// Whether the draft of a call context still lacks the part with the field
/// number `tag`.
pub open spec fn params_lacks(d: ParamsDraft, tag: u64) -> bool {
    if tag == 1 {
        d.block is None
    } else if tag == 2 {
        d.message is None
    } else {
        d.contract is None
    }
}

/// A part of a call context that no field stands for is still lacking when
/// all fields are taken in.
proof fn lemma_params_still_lacks(d: ParamsDraft, fs: Seq<Field>, tag: u64)
    requires
        1 <= tag <= 3,
        params_lacks(d, tag),
        forall|i: int| 0 <= i < fs.len() ==> (#[trigger] fs[i]).tag != tag,
    ensures
        absorb::<ParamsView>(d, fs) matches Ok(end) ==> params_lacks(end, tag),
    decreases fs.len(),
{
    if fs.len() > 0 {
        if let Ok(next) = ParamsView::step(d, fs[0]) {
            let tail = fs.drop_first();
            assert forall|i: int| 0 <= i < tail.len() implies (#[trigger] tail[i]).tag != tag by {
                assert(tail[i] == fs[i + 1]);
            }
            lemma_params_still_lacks(next, tail, tag);
        }
    }
}

/// Input in which no field stands for one of the three parts of a call
/// context never decodes to a call context: where every field is accepted,
/// it decodes to the error of a missing field.
pub proof fn lemma_params_needs_every_part(b: Seq<u8>, fs: Seq<Field>, tag: u64)
    requires
        parse_fields(b) == Ok::<Seq<Field>, DecodeError>(fs),
        1 <= tag <= 3,
        forall|i: int| 0 <= i < fs.len() ==> (#[trigger] fs[i]).tag != tag,
    ensures
        decoding::<ParamsView>(b) is Err,
        absorb::<ParamsView>(ParamsView::blank(), fs) is Ok ==> decoding::<ParamsView>(b) == Err::<
            ParamsView,
            DecodeError,
        >(DecodeError::MissingField),
{
    lemma_params_still_lacks(ParamsView::blank(), fs, tag);
}

/// A response without data and the same response with empty data have
/// different encodings, and each is read back as it was written: without
/// data, and with data that is empty.
pub proof fn lemma_response_data_presence(v: ResponseView)
    requires
        v.encodable(),
        v.data is None,
    ensures
        decoding::<ResponseView>(encoding(v)) matches Ok(d) && d.data is None,
        decoding::<ResponseView>(encoding(ResponseView { data: Some(Seq::empty()), ..v }))
            matches Ok(d) && d.data == Some(Seq::<char>::empty()),
        encoding(v) != encoding(ResponseView { data: Some(Seq::empty()), ..v }),
{
    let w = ResponseView { data: Some(Seq::empty()), ..v };
    let empty = text_field(3, Seq::<char>::empty());
    v.lemma_round_trip();
    assert(optional_text(3, v.data) =~= Seq::<Field>::empty());
    assert(w.fields() =~= v.fields().push(empty));
    assert(vstd::utf8::encode_utf8(Seq::<char>::empty()) =~= Seq::<u8>::empty());
    assert(field_ok(empty));
    assert(fields_ok(w.fields()));
    w.lemma_round_trip();
}

/// A field that a message passes over can stand anywhere among its fields
/// without changing what they amount to.
pub proof fn lemma_passed_over<M: Layout>(fs: Seq<Field>, i: int, f: Field)
    requires
        0 <= i <= fs.len(),
        forall|d: M::Draft| #[trigger] M::step(d, f) == Ok::<M::Draft, DecodeError>(d),
    ensures
        from_fields::<M>(fs.insert(i, f)) == from_fields::<M>(fs),
{
    let front = fs.take(i);
    let back = fs.skip(i);
    assert(fs =~= front + back);
    assert(fs.insert(i, f) =~= front + (seq![f] + back));
    lemma_absorb_concat::<M>(M::blank(), front, back);
    lemma_absorb_concat::<M>(M::blank(), front, seq![f] + back);
    if let Ok(d) = absorb::<M>(M::blank(), front) {
        lemma_absorb_concat::<M>(d, seq![f], back);
        lemma_absorb_one::<M>(d, f);
    }
}

/// The call context passes over every field whose number is not 1, 2 or 3.
pub proof fn lemma_params_unknown_field(fs: Seq<Field>, i: int, f: Field)
    requires
        0 <= i <= fs.len(),
        f.tag != 1 && f.tag != 2 && f.tag != 3,
    ensures
        from_fields::<ParamsView>(fs.insert(i, f)) == from_fields::<ParamsView>(fs),
{
    lemma_passed_over::<ParamsView>(fs, i, f);
}

/// Each part of a call context, taken in, fills its place in the draft and
/// leaves the other places as they are.
proof fn lemma_params_step(v: ParamsView, d: ParamsDraft)
    requires
        v.encodable(),
    ensures
        ParamsView::step(d, nested_field(1, v.block)) == Ok::<ParamsDraft, DecodeError>(
            ParamsDraft { block: Some(v.block), ..d },
        ),
        ParamsView::step(d, nested_field(2, v.message)) == Ok::<ParamsDraft, DecodeError>(
            ParamsDraft { message: Some(v.message), ..d },
        ),
        ParamsView::step(d, nested_field(3, v.contract)) == Ok::<ParamsDraft, DecodeError>(
            ParamsDraft { contract: Some(v.contract), ..d },
        ),
{
    lemma_nested_round_trip(1, v.block);
    lemma_nested_round_trip(2, v.message);
    lemma_nested_round_trip(3, v.contract);
}

/// Three fields that fill the three places of the draft one after the other
/// decode to the call context.
proof fn lemma_params_filled(
    v: ParamsView,
    x: Field,
    y: Field,
    z: Field,
    first: ParamsDraft,
    second: ParamsDraft,
)
    requires
        field_ok(x) && field_ok(y) && field_ok(z),
        ParamsView::step(ParamsView::blank(), x) == Ok::<ParamsDraft, DecodeError>(first),
        ParamsView::step(first, y) == Ok::<ParamsDraft, DecodeError>(second),
        ParamsView::step(second, z) == Ok::<ParamsDraft, DecodeError>(
            ParamsDraft {
                block: Some(v.block),
                message: Some(v.message),
                contract: Some(v.contract),
            },
        ),
    ensures
        decoding::<ParamsView>(fields_bytes(seq![x, y, z])) == Ok::<ParamsView, DecodeError>(v),
{
    lemma_decoding_fields::<ParamsView>(seq![x, y, z]);
    lemma_absorb_three::<ParamsView>(ParamsView::blank(), x, y, z);
}

/// The three parts of a call context are taken in whatever order they
/// stand.
pub proof fn lemma_params_any_order(v: ParamsView, i: int, j: int, k: int)
    requires
        v.encodable(),
        0 <= i < 3 && 0 <= j < 3 && 0 <= k < 3,
        i != j && j != k && i != k,
    ensures
        decoding::<ParamsView>(fields_bytes(seq![v.fields()[i], v.fields()[j], v.fields()[k]]))
            == Ok::<ParamsView, DecodeError>(v),
{
    let a = nested_field(1, v.block);
    let b = nested_field(2, v.message);
    let c = nested_field(3, v.contract);
    let none = ParamsView::blank();
    let with_a = ParamsDraft { block: Some(v.block), ..none };
    let with_b = ParamsDraft { message: Some(v.message), ..none };
    let with_c = ParamsDraft { contract: Some(v.contract), ..none };
    assert(v.fields()[0] == a && v.fields()[1] == b && v.fields()[2] == c);
    assert(field_ok(a) && field_ok(b) && field_ok(c));
    lemma_params_step(v, none);
    lemma_params_step(v, with_a);
    lemma_params_step(v, with_b);
    lemma_params_step(v, with_c);
    if i == 0 && j == 1 {
        let two = ParamsDraft { message: Some(v.message), ..with_a };
        lemma_params_step(v, two);
        lemma_params_filled(v, a, b, c, with_a, two);
    } else if i == 0 && j == 2 {
        let two = ParamsDraft { contract: Some(v.contract), ..with_a };
        lemma_params_step(v, two);
        lemma_params_filled(v, a, c, b, with_a, two);
    } else if i == 1 && j == 0 {
        let two = ParamsDraft { block: Some(v.block), ..with_b };
        lemma_params_step(v, two);
        lemma_params_filled(v, b, a, c, with_b, two);
    } else if i == 1 && j == 2 {
        let two = ParamsDraft { contract: Some(v.contract), ..with_b };
        lemma_params_step(v, two);
        lemma_params_filled(v, b, c, a, with_b, two);
    } else if i == 2 && j == 0 {
        let two = ParamsDraft { block: Some(v.block), ..with_c };
        lemma_params_step(v, two);
        lemma_params_filled(v, c, a, b, with_c, two);
    } else {
        let two = ParamsDraft { message: Some(v.message), ..with_c };
        lemma_params_step(v, two);
        lemma_params_filled(v, c, b, a, with_c, two);
    }
}

/// An encoding that is cut anywhere but between two of its fields decodes as
/// truncated.
pub proof fn lemma_cut_inside_field<M: Message>(v: M, k: int)
    requires
        v.encodable(),
        0 <= k < encoding(v).len(),
        !is_boundary(v.fields(), k),
    ensures
        decoding::<M>(encoding(v).take(k)) == Err::<M, DecodeError>(DecodeError::Truncated),
{
    v.lemma_round_trip();
    lemma_decoding_cut(v, k);
}

/// An encoding that is cut behind its `i`-th field decodes as the message
/// that holds the first `i` fields alone: to a value, or to the error of a
/// missing field, and never as truncated or malformed.
pub proof fn lemma_cut_between_fields<M: Message>(v: M, i: int)
    requires
        v.encodable(),
        0 <= i <= v.fields().len(),
    ensures
        fields_bytes(v.fields().take(i)).len() <= encoding(v).len(),
        decoding::<M>(encoding(v).take(fields_bytes(v.fields().take(i)).len() as int))
            == from_fields::<M>(v.fields().take(i)),
        from_fields::<M>(v.fields().take(i)) is Ok || from_fields::<M>(v.fields().take(i)) == Err::<
            M,
            DecodeError,
        >(DecodeError::MissingField),
{
    let fs = v.fields();
    v.lemma_round_trip();
    lemma_decoding_boundary(v, i);
    lemma_decoding_fields::<M>(fs);
    assert(fs =~= fs.take(i) + fs.skip(i));
    lemma_absorb_concat::<M>(M::blank(), fs.take(i), fs.skip(i));
    if let Ok(d) = absorb::<M>(M::blank(), fs.take(i)) {
        M::lemma_finish(d);
    }
}

} // verus!
