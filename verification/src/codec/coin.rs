//! The layout of [`Coin`]: the denomination under field 1, the amount under
//! field 2, both as text and both required.

use vstd::prelude::*;
use crate::error::DecodeError;
use crate::message::{
    absorb, decoding, encoding, from_fields, lemma_absorb_skip, lemma_absorb_two,
    lemma_decoding_fields, lemma_fields_bytes_push, lemma_put, lemma_put_none, viewed, Layout,
    Message,
};
use crate::types::{opt_view, views, Coin, CoinView};
use crate::value::{
    as_nested, as_text, lemma_repeated_push, lemma_text_round_trip, nested_field, payload_of,
    put_text_field, repeated, text_field, text_of,
};
use crate::wire::{
    field_bytes, field_ok, field_views, fields_bytes, fields_ok, lemma_fields_bytes_one,
    put_bytes_field, split_fields, Field, RawField, RawValue, MAX_TAG,
};

verus! {

/// What has been read of a [`Coin`].
pub ghost struct CoinDraft {
    pub denom: Option<Seq<char>>,
    pub amount: Option<Seq<char>>,
}

/// Field 1 is the denomination and field 2 the amount, both text and both
/// required. Every other field is passed over.
impl Layout for CoinView {
    type Draft = CoinDraft;

    open spec fn fields(self) -> Seq<Field> {
        seq![text_field(1, self.denom), text_field(2, self.amount)]
    }

    open spec fn encodable(self) -> bool {
        fields_ok(self.fields())
    }

    open spec fn blank() -> CoinDraft {
        CoinDraft { denom: None, amount: None }
    }

    open spec fn step(d: CoinDraft, f: Field) -> Result<CoinDraft, DecodeError> {
        if f.tag == 1 {
            match as_text(f.value) {
                Ok(s) => Ok(CoinDraft { denom: Some(s), ..d }),
                Err(e) => Err(e),
            }
        } else if f.tag == 2 {
            match as_text(f.value) {
                Ok(s) => Ok(CoinDraft { amount: Some(s), ..d }),
                Err(e) => Err(e),
            }
        } else {
            Ok(d)
        }
    }

    open spec fn finish(d: CoinDraft) -> Result<CoinView, DecodeError> {
        match (d.denom, d.amount) {
            (Some(denom), Some(amount)) => Ok(CoinView { denom, amount }),
            _ => Err(DecodeError::MissingField),
        }
    }
}

impl Message for CoinView {
    proof fn lemma_finish(d: <Self as Layout>::Draft) {
    }

    proof fn lemma_round_trip(self) {
        lemma_decoding_fields::<CoinView>(self.fields());
        lemma_text_round_trip(1, self.denom);
        lemma_text_round_trip(2, self.amount);
        lemma_absorb_two::<CoinView>(
            CoinView::blank(),
            text_field(1, self.denom),
            text_field(2, self.amount),
        );
    }
}

impl Coin {
    /// Appends the encoding of the coin to `buf`.
    pub fn encode_into(&self, buf: &mut Vec<u8>)
        ensures
            final(buf)@ == old(buf)@ + encoding(self@),
            self@.encodable(),
    {
        put_text_field(1, self.denom.as_str(), buf);
        put_text_field(2, self.amount.as_str(), buf);
        proof {
            let a = text_field(1, self@.denom);
            let b = text_field(2, self@.amount);
            lemma_fields_bytes_one(a);
            lemma_fields_bytes_push(seq![a], b);
            assert(seq![a].push(b) =~= self@.fields());
            assert(buf@ =~= old(buf)@ + encoding(self@));
        }
    }

    /// The encoding of the coin.
    pub fn encode(&self) -> (out: Vec<u8>)
        ensures
            out@ == encoding(self@),
            self@.encodable(),
    {
        let mut out: Vec<u8> = Vec::new();
        self.encode_into(&mut out);
        assert(out@ =~= encoding(self@));
        out
    }

    /// The coin that `bytes` stand for.
    pub fn decode(bytes: &[u8]) -> (r: Result<Coin, DecodeError>)
        ensures
            viewed(r) == decoding::<CoinView>(bytes@),
    {
        match split_fields(bytes) {
            Ok(fields) => Coin::gather(&fields),
            Err(e) => Err(e),
        }
    }

    /// Appends the coin as a field of another message.
    pub(crate) fn encode_field(&self, tag: u64, buf: &mut Vec<u8>)
        requires
            tag <= MAX_TAG,
        ensures
            final(buf)@ == old(buf)@ + field_bytes(nested_field(tag, self@)),
            field_ok(nested_field(tag, self@)),
            self@.encodable(),
    {
        let inner = self.encode();
        put_bytes_field(tag, inner.as_slice(), buf);
    }

    /// The coin that a field of another message holds.
    pub(crate) fn decode_field(v: &RawValue) -> (r: Result<Coin, DecodeError>)
        ensures
            viewed(r) == as_nested::<CoinView>(v@),
    {
        match payload_of(v) {
            Ok(b) => Coin::decode(b),
            Err(e) => Err(e),
        }
    }

    /// The coin that `fields` amount to.
    fn gather(fields: &Vec<RawField>) -> (r: Result<Coin, DecodeError>)
        ensures
            viewed(r) == from_fields::<CoinView>(field_views(fields@)),
    {
        let ghost fs = field_views(fields@);
        let mut denom: Option<String> = None;
        let mut amount: Option<String> = None;
        let mut i: usize = 0;
        assert(fs.skip(0) =~= fs);
        while i < fields.len()
            invariant
                i <= fields.len(),
                fs == field_views(fields@),
                absorb::<CoinView>(
                    CoinDraft { denom: opt_view(denom), amount: opt_view(amount) },
                    fs.skip(i as int),
                ) == absorb::<CoinView>(CoinView::blank(), fs),
            decreases fields.len() - i,
        {
            let f = &fields[i];
            proof {
                lemma_absorb_skip::<CoinView>(
                    CoinDraft { denom: opt_view(denom), amount: opt_view(amount) },
                    fs,
                    i as int,
                );
            }
            if f.tag == 1 {
                match text_of(&f.value) {
                    Ok(s) => {
                        denom = Some(s);
                    },
                    Err(e) => {
                        return Err(e);
                    },
                }
            } else if f.tag == 2 {
                match text_of(&f.value) {
                    Ok(s) => {
                        amount = Some(s);
                    },
                    Err(e) => {
                        return Err(e);
                    },
                }
            }
            i += 1;
        }
        assert(fs.skip(i as int) =~= Seq::<Field>::empty());
        match (denom, amount) {
            (Some(denom), Some(amount)) => Ok(Coin { denom, amount }),
            _ => Err(DecodeError::MissingField),
        }
    }
}

/// Appends one field for each coin of `coins`, in their order.
pub(crate) fn put_coins(tag: u64, coins: &Vec<Coin>, buf: &mut Vec<u8>)
    requires
        tag <= MAX_TAG,
    ensures
        final(buf)@ == old(buf)@ + fields_bytes(repeated(tag, views(coins@))),
        fields_ok(repeated(tag, views(coins@))),
        forall|i: int| 0 <= i < coins@.len() ==> (#[trigger] views(coins@)[i]).encodable(),
{
    let mut i: usize = 0;
    proof {
        lemma_put_none(buf@);
        assert(repeated(tag, views(coins@).take(0)) =~= Seq::<Field>::empty());
    }
    while i < coins.len()
        invariant
            i <= coins.len(),
            tag <= MAX_TAG,
            buf@ == old(buf)@ + fields_bytes(repeated(tag, views(coins@).take(i as int))),
            fields_ok(repeated(tag, views(coins@).take(i as int))),
            forall|j: int| 0 <= j < i ==> (#[trigger] views(coins@)[j]).encodable(),
        decreases coins.len() - i,
    {
        coins[i].encode_field(tag, buf);
        proof {
            let done = views(coins@).take(i as int);
            lemma_put(old(buf)@, repeated(tag, done), nested_field(tag, coins@[i as int]@));
            lemma_repeated_push(tag, done, coins@[i as int]@);
            assert(views(coins@).take(i + 1) =~= done.push(coins@[i as int]@));
        }
        i += 1;
    }
    assert(views(coins@).take(i as int) =~= views(coins@));
}

} // verus!
