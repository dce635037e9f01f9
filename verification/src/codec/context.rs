//! The layout of the call context: [`BlockInfo`], [`MessageInfo`] and
//! [`ContractInfo`], and [`Params`], which holds one of each.
//!
//! Every part that holds one value is required. Lists may be empty.

use vstd::prelude::*;
use crate::codec::coin::put_coins;
use crate::error::DecodeError;
use crate::message::{
    absorb, decoding, encoding, from_fields, lemma_absorb_concat, lemma_absorb_one,
    lemma_absorb_repeated, lemma_absorb_skip, lemma_absorb_three, lemma_decoding_fields, lemma_put,
    lemma_put_none, lemma_put_run, viewed, Layout, Message,
};
use crate::types::{
    opt_view, views, BlockInfo, BlockInfoView, Coin, CoinView, ContractInfo, ContractInfoView,
    MessageInfo, MessageInfoView, Params, ParamsView,
};
use crate::value::{
    as_int, as_nested, as_text, int_field, int_of, lemma_int_round_trip, lemma_nested_round_trip,
    lemma_text_round_trip, nested_field, payload_of, put_int_field, put_text_field, repeated,
    text_field, text_of,
};
use crate::wire::{
    field_bytes, field_ok, field_views, fields_ok, put_bytes_field, split_fields, Field, RawField,
    RawValue, MAX_TAG,
};

verus! {

/// What has been read of a [`BlockInfo`].
pub ghost struct BlockInfoDraft {
    pub height: Option<i64>,
    pub time: Option<i64>,
    pub chain_id: Option<Seq<char>>,
}

/// Field 1 is the height and field 2 the time, both signed integers; field 3
/// is the chain's name, text. All three are required. Every other field is
/// passed over.
impl Layout for BlockInfoView {
    type Draft = BlockInfoDraft;

    open spec fn fields(self) -> Seq<Field> {
        seq![int_field(1, self.height), int_field(2, self.time), text_field(3, self.chain_id)]
    }

    open spec fn encodable(self) -> bool {
        fields_ok(self.fields())
    }

    open spec fn blank() -> BlockInfoDraft {
        BlockInfoDraft { height: None, time: None, chain_id: None }
    }

    open spec fn step(d: BlockInfoDraft, f: Field) -> Result<BlockInfoDraft, DecodeError> {
        if f.tag == 1 {
            match as_int(f.value) {
                Ok(v) => Ok(BlockInfoDraft { height: Some(v), ..d }),
                Err(e) => Err(e),
            }
        } else if f.tag == 2 {
            match as_int(f.value) {
                Ok(v) => Ok(BlockInfoDraft { time: Some(v), ..d }),
                Err(e) => Err(e),
            }
        } else if f.tag == 3 {
            match as_text(f.value) {
                Ok(s) => Ok(BlockInfoDraft { chain_id: Some(s), ..d }),
                Err(e) => Err(e),
            }
        } else {
            Ok(d)
        }
    }

    open spec fn finish(d: BlockInfoDraft) -> Result<BlockInfoView, DecodeError> {
        match (d.height, d.time, d.chain_id) {
            (Some(height), Some(time), Some(chain_id)) => Ok(
                BlockInfoView { height, time, chain_id },
            ),
            _ => Err(DecodeError::MissingField),
        }
    }
}

impl Message for BlockInfoView {
    proof fn lemma_finish(d: <Self as Layout>::Draft) {
    }

    proof fn lemma_round_trip(self) {
        lemma_decoding_fields::<BlockInfoView>(self.fields());
        lemma_int_round_trip(1, self.height);
        lemma_int_round_trip(2, self.time);
        lemma_text_round_trip(3, self.chain_id);
        lemma_absorb_three::<BlockInfoView>(
            BlockInfoView::blank(),
            int_field(1, self.height),
            int_field(2, self.time),
            text_field(3, self.chain_id),
        );
    }
}

impl BlockInfo {
    /// Appends the encoding of the value to `buf`.
    pub fn encode_into(&self, buf: &mut Vec<u8>)
        ensures
            final(buf)@ == old(buf)@ + encoding(self@),
            self@.encodable(),
    {
        let ghost mut done: Seq<Field> = Seq::empty();
        proof {
            lemma_put_none(buf@);
        }
        put_int_field(1, self.height, buf);
        proof {
            lemma_put(old(buf)@, done, int_field(1, self.height));
            done = done.push(int_field(1, self.height));
        }
        put_int_field(2, self.time, buf);
        proof {
            lemma_put(old(buf)@, done, int_field(2, self.time));
            done = done.push(int_field(2, self.time));
        }
        put_text_field(3, self.chain_id.as_str(), buf);
        proof {
            lemma_put(old(buf)@, done, text_field(3, self.chain_id@));
            done = done.push(text_field(3, self.chain_id@));
            assert(done =~= self@.fields());
        }
    }

    /// The encoding of the value.
    pub fn encode(&self) -> (out: Vec<u8>)
        ensures
            out@ == encoding(self@),
            self@.encodable(),
    {
        let mut out: Vec<u8> = Vec::new();
        self.encode_into(&mut out);
        assert(out@ =~= encoding(self@));
        out
    }

    /// The value that `bytes` stand for.
    pub fn decode(bytes: &[u8]) -> (r: Result<BlockInfo, DecodeError>)
        ensures
            viewed(r) == decoding::<BlockInfoView>(bytes@),
    {
        match split_fields(bytes) {
            Ok(fields) => BlockInfo::gather(&fields),
            Err(e) => Err(e),
        }
    }

    /// Appends the value as a field of another message.
    pub(crate) fn encode_field(&self, tag: u64, buf: &mut Vec<u8>)
        requires
            tag <= MAX_TAG,
        ensures
            final(buf)@ == old(buf)@ + field_bytes(nested_field(tag, self@)),
            field_ok(nested_field(tag, self@)),
            self@.encodable(),
    {
        let inner = self.encode();
        put_bytes_field(tag, inner.as_slice(), buf);
    }

    /// The value that a field of another message holds.
    pub(crate) fn decode_field(v: &RawValue) -> (r: Result<BlockInfo, DecodeError>)
        ensures
            viewed(r) == as_nested::<BlockInfoView>(v@),
    {
        match payload_of(v) {
            Ok(b) => BlockInfo::decode(b),
            Err(e) => Err(e),
        }
    }

    /// The value that `fields` amount to.
    fn gather(fields: &Vec<RawField>) -> (r: Result<BlockInfo, DecodeError>)
        ensures
            viewed(r) == from_fields::<BlockInfoView>(field_views(fields@)),
    {
        let ghost fs = field_views(fields@);
        let mut height: Option<i64> = None;
        let mut time: Option<i64> = None;
        let mut chain_id: Option<String> = None;
        let mut i: usize = 0;
        assert(fs.skip(0) =~= fs);
        while i < fields.len()
            invariant
                i <= fields.len(),
                fs == field_views(fields@),
                absorb::<BlockInfoView>(
                    BlockInfoDraft { height, time, chain_id: opt_view(chain_id) },
                    fs.skip(i as int),
                ) == absorb::<BlockInfoView>(BlockInfoView::blank(), fs),
            decreases fields.len() - i,
        {
            let f = &fields[i];
            proof {
                lemma_absorb_skip::<BlockInfoView>(
                    BlockInfoDraft { height, time, chain_id: opt_view(chain_id) },
                    fs,
                    i as int,
                );
            }
            if f.tag == 1 {
                match int_of(&f.value) {
                    Ok(v) => {
                        height = Some(v);
                    },
                    Err(e) => {
                        return Err(e);
                    },
                }
            } else if f.tag == 2 {
                match int_of(&f.value) {
                    Ok(v) => {
                        time = Some(v);
                    },
                    Err(e) => {
                        return Err(e);
                    },
                }
            } else if f.tag == 3 {
                match text_of(&f.value) {
                    Ok(s) => {
                        chain_id = Some(s);
                    },
                    Err(e) => {
                        return Err(e);
                    },
                }
            }
            i += 1;
        }
        assert(fs.skip(i as int) =~= Seq::<Field>::empty());
        match (height, time, chain_id) {
            (Some(height), Some(time), Some(chain_id)) => Ok(BlockInfo { height, time, chain_id }),
            _ => Err(DecodeError::MissingField),
        }
    }
}

/// What has been read of a [`MessageInfo`].
pub ghost struct MessageInfoDraft {
    pub signer: Option<Seq<char>>,
    pub sent_funds: Seq<CoinView>,
}

/// Field 1 is the signer, text and required. Each field 2 is one coin of
/// the funds sent, in the order in which they stand. Every other field is
/// passed over.
impl Layout for MessageInfoView {
    type Draft = MessageInfoDraft;

    open spec fn fields(self) -> Seq<Field> {
        seq![text_field(1, self.signer)] + repeated(2, self.sent_funds)
    }

    open spec fn encodable(self) -> bool {
        &&& fields_ok(self.fields())
        &&& forall|i: int|
            0 <= i < self.sent_funds.len() ==> (#[trigger] self.sent_funds[i]).encodable()
    }

    open spec fn blank() -> MessageInfoDraft {
        MessageInfoDraft { signer: None, sent_funds: Seq::empty() }
    }

    open spec fn step(d: MessageInfoDraft, f: Field) -> Result<MessageInfoDraft, DecodeError> {
        if f.tag == 1 {
            match as_text(f.value) {
                Ok(s) => Ok(MessageInfoDraft { signer: Some(s), ..d }),
                Err(e) => Err(e),
            }
        } else if f.tag == 2 {
            match as_nested::<CoinView>(f.value) {
                Ok(c) => Ok(MessageInfoDraft { sent_funds: d.sent_funds.push(c), ..d }),
                Err(e) => Err(e),
            }
        } else {
            Ok(d)
        }
    }

    open spec fn finish(d: MessageInfoDraft) -> Result<MessageInfoView, DecodeError> {
        match d.signer {
            Some(signer) => Ok(MessageInfoView { signer, sent_funds: d.sent_funds }),
            None => Err(DecodeError::MissingField),
        }
    }
}

impl Message for MessageInfoView {
    proof fn lemma_finish(d: <Self as Layout>::Draft) {
    }

    proof fn lemma_round_trip(self) {
        let head = seq![text_field(1, self.signer)];
        let run = repeated(2, self.sent_funds);
        let after = |p: Seq<CoinView>|
            MessageInfoDraft { signer: Some(self.signer), sent_funds: p };
        lemma_decoding_fields::<MessageInfoView>(self.fields());
        lemma_text_round_trip(1, self.signer);
        lemma_absorb_concat::<MessageInfoView>(MessageInfoView::blank(), head, run);
        lemma_absorb_one::<MessageInfoView>(MessageInfoView::blank(), head[0]);
        assert forall|p: Seq<CoinView>, e: CoinView| e.encodable() implies #[trigger]
        MessageInfoView::step(after(p), nested_field(2, e)) == Ok::<
            MessageInfoDraft,
            DecodeError,
        >(after(p.push(e))) by {
            e.lemma_round_trip();
        }
        lemma_absorb_repeated::<MessageInfoView, CoinView>(2, self.sent_funds, after);
    }
}

impl MessageInfo {
    /// Appends the encoding of the value to `buf`.
    pub fn encode_into(&self, buf: &mut Vec<u8>)
        ensures
            final(buf)@ == old(buf)@ + encoding(self@),
            self@.encodable(),
    {
        let ghost mut done: Seq<Field> = Seq::empty();
        proof {
            lemma_put_none(buf@);
        }
        put_text_field(1, self.signer.as_str(), buf);
        proof {
            lemma_put(old(buf)@, done, text_field(1, self.signer@));
            done = done.push(text_field(1, self.signer@));
        }
        put_coins(2, &self.sent_funds, buf);
        proof {
            lemma_put_run(old(buf)@, done, repeated(2, views(self.sent_funds@)));
        }
    }

    /// The encoding of the value.
    pub fn encode(&self) -> (out: Vec<u8>)
        ensures
            out@ == encoding(self@),
            self@.encodable(),
    {
        let mut out: Vec<u8> = Vec::new();
        self.encode_into(&mut out);
        assert(out@ =~= encoding(self@));
        out
    }

    /// The value that `bytes` stand for.
    pub fn decode(bytes: &[u8]) -> (r: Result<MessageInfo, DecodeError>)
        ensures
            viewed(r) == decoding::<MessageInfoView>(bytes@),
    {
        match split_fields(bytes) {
            Ok(fields) => MessageInfo::gather(&fields),
            Err(e) => Err(e),
        }
    }

    /// Appends the value as a field of another message.
    pub(crate) fn encode_field(&self, tag: u64, buf: &mut Vec<u8>)
        requires
            tag <= MAX_TAG,
        ensures
            final(buf)@ == old(buf)@ + field_bytes(nested_field(tag, self@)),
            field_ok(nested_field(tag, self@)),
            self@.encodable(),
    {
        let inner = self.encode();
        put_bytes_field(tag, inner.as_slice(), buf);
    }

    /// The value that a field of another message holds.
    pub(crate) fn decode_field(v: &RawValue) -> (r: Result<MessageInfo, DecodeError>)
        ensures
            viewed(r) == as_nested::<MessageInfoView>(v@),
    {
        match payload_of(v) {
            Ok(b) => MessageInfo::decode(b),
            Err(e) => Err(e),
        }
    }

    /// The value that `fields` amount to.
    fn gather(fields: &Vec<RawField>) -> (r: Result<MessageInfo, DecodeError>)
        ensures
            viewed(r) == from_fields::<MessageInfoView>(field_views(fields@)),
    {
        let ghost fs = field_views(fields@);
        let mut signer: Option<String> = None;
        let mut sent_funds: Vec<Coin> = Vec::new();
        let mut i: usize = 0;
        assert(fs.skip(0) =~= fs);
        assert(views(sent_funds@) =~= Seq::<CoinView>::empty());
        while i < fields.len()
            invariant
                i <= fields.len(),
                fs == field_views(fields@),
                absorb::<MessageInfoView>(
                    MessageInfoDraft { signer: opt_view(signer), sent_funds: views(sent_funds@) },
                    fs.skip(i as int),
                ) == absorb::<MessageInfoView>(MessageInfoView::blank(), fs),
            decreases fields.len() - i,
        {
            let f = &fields[i];
            proof {
                lemma_absorb_skip::<MessageInfoView>(
                    MessageInfoDraft { signer: opt_view(signer), sent_funds: views(sent_funds@) },
                    fs,
                    i as int,
                );
            }
            if f.tag == 1 {
                match text_of(&f.value) {
                    Ok(s) => {
                        signer = Some(s);
                    },
                    Err(e) => {
                        return Err(e);
                    },
                }
            } else if f.tag == 2 {
                match Coin::decode_field(&f.value) {
                    Ok(c) => {
                        assert(views(sent_funds@.push(c)) =~= views(sent_funds@).push(c@));
                        sent_funds.push(c);
                    },
                    Err(e) => {
                        return Err(e);
                    },
                }
            }
            i += 1;
        }
        assert(fs.skip(i as int) =~= Seq::<Field>::empty());
        match signer {
            Some(signer) => Ok(MessageInfo { signer, sent_funds }),
            None => Err(DecodeError::MissingField),
        }
    }
}

/// What has been read of a [`ContractInfo`].
pub ghost struct ContractInfoDraft {
    pub address: Option<Seq<char>>,
    pub balance: Seq<CoinView>,
}

/// Field 1 is the address, text and required. Each field 2 is one coin of
/// the balance, in the order in which they stand. Every other field is
/// passed over.
impl Layout for ContractInfoView {
    type Draft = ContractInfoDraft;

    open spec fn fields(self) -> Seq<Field> {
        seq![text_field(1, self.address)] + repeated(2, self.balance)
    }

    open spec fn encodable(self) -> bool {
        &&& fields_ok(self.fields())
        &&& forall|i: int|
            0 <= i < self.balance.len() ==> (#[trigger] self.balance[i]).encodable()
    }

    open spec fn blank() -> ContractInfoDraft {
        ContractInfoDraft { address: None, balance: Seq::empty() }
    }

    open spec fn step(d: ContractInfoDraft, f: Field) -> Result<ContractInfoDraft, DecodeError> {
        if f.tag == 1 {
            match as_text(f.value) {
                Ok(s) => Ok(ContractInfoDraft { address: Some(s), ..d }),
                Err(e) => Err(e),
            }
        } else if f.tag == 2 {
            match as_nested::<CoinView>(f.value) {
                Ok(c) => Ok(ContractInfoDraft { balance: d.balance.push(c), ..d }),
                Err(e) => Err(e),
            }
        } else {
            Ok(d)
        }
    }

    open spec fn finish(d: ContractInfoDraft) -> Result<ContractInfoView, DecodeError> {
        match d.address {
            Some(address) => Ok(ContractInfoView { address, balance: d.balance }),
            None => Err(DecodeError::MissingField),
        }
    }
}

impl Message for ContractInfoView {
    proof fn lemma_finish(d: <Self as Layout>::Draft) {
    }

    proof fn lemma_round_trip(self) {
        let head = seq![text_field(1, self.address)];
        let run = repeated(2, self.balance);
        let after = |p: Seq<CoinView>|
            ContractInfoDraft { address: Some(self.address), balance: p };
        lemma_decoding_fields::<ContractInfoView>(self.fields());
        lemma_text_round_trip(1, self.address);
        lemma_absorb_concat::<ContractInfoView>(ContractInfoView::blank(), head, run);
        lemma_absorb_one::<ContractInfoView>(ContractInfoView::blank(), head[0]);
        assert forall|p: Seq<CoinView>, e: CoinView| e.encodable() implies #[trigger]
        ContractInfoView::step(after(p), nested_field(2, e)) == Ok::<
            ContractInfoDraft,
            DecodeError,
        >(after(p.push(e))) by {
            e.lemma_round_trip();
        }
        lemma_absorb_repeated::<ContractInfoView, CoinView>(2, self.balance, after);
    }
}

impl ContractInfo {
    /// Appends the encoding of the value to `buf`.
    pub fn encode_into(&self, buf: &mut Vec<u8>)
        ensures
            final(buf)@ == old(buf)@ + encoding(self@),
            self@.encodable(),
    {
        let ghost mut done: Seq<Field> = Seq::empty();
        proof {
            lemma_put_none(buf@);
        }
        put_text_field(1, self.address.as_str(), buf);
        proof {
            lemma_put(old(buf)@, done, text_field(1, self.address@));
            done = done.push(text_field(1, self.address@));
        }
        put_coins(2, &self.balance, buf);
        proof {
            lemma_put_run(old(buf)@, done, repeated(2, views(self.balance@)));
        }
    }

    /// The encoding of the value.
    pub fn encode(&self) -> (out: Vec<u8>)
        ensures
            out@ == encoding(self@),
            self@.encodable(),
    {
        let mut out: Vec<u8> = Vec::new();
        self.encode_into(&mut out);
        assert(out@ =~= encoding(self@));
        out
    }

    /// The value that `bytes` stand for.
    pub fn decode(bytes: &[u8]) -> (r: Result<ContractInfo, DecodeError>)
        ensures
            viewed(r) == decoding::<ContractInfoView>(bytes@),
    {
        match split_fields(bytes) {
            Ok(fields) => ContractInfo::gather(&fields),
            Err(e) => Err(e),
        }
    }

    /// Appends the value as a field of another message.
    pub(crate) fn encode_field(&self, tag: u64, buf: &mut Vec<u8>)
        requires
            tag <= MAX_TAG,
        ensures
            final(buf)@ == old(buf)@ + field_bytes(nested_field(tag, self@)),
            field_ok(nested_field(tag, self@)),
            self@.encodable(),
    {
        let inner = self.encode();
        put_bytes_field(tag, inner.as_slice(), buf);
    }

    /// The value that a field of another message holds.
    pub(crate) fn decode_field(v: &RawValue) -> (r: Result<ContractInfo, DecodeError>)
        ensures
            viewed(r) == as_nested::<ContractInfoView>(v@),
    {
        match payload_of(v) {
            Ok(b) => ContractInfo::decode(b),
            Err(e) => Err(e),
        }
    }

    /// The value that `fields` amount to.
    fn gather(fields: &Vec<RawField>) -> (r: Result<ContractInfo, DecodeError>)
        ensures
            viewed(r) == from_fields::<ContractInfoView>(field_views(fields@)),
    {
        let ghost fs = field_views(fields@);
        let mut address: Option<String> = None;
        let mut balance: Vec<Coin> = Vec::new();
        let mut i: usize = 0;
        assert(fs.skip(0) =~= fs);
        assert(views(balance@) =~= Seq::<CoinView>::empty());
        while i < fields.len()
            invariant
                i <= fields.len(),
                fs == field_views(fields@),
                absorb::<ContractInfoView>(
                    ContractInfoDraft { address: opt_view(address), balance: views(balance@) },
                    fs.skip(i as int),
                ) == absorb::<ContractInfoView>(ContractInfoView::blank(), fs),
            decreases fields.len() - i,
        {
            let f = &fields[i];
            proof {
                lemma_absorb_skip::<ContractInfoView>(
                    ContractInfoDraft { address: opt_view(address), balance: views(balance@) },
                    fs,
                    i as int,
                );
            }
            if f.tag == 1 {
                match text_of(&f.value) {
                    Ok(s) => {
                        address = Some(s);
                    },
                    Err(e) => {
                        return Err(e);
                    },
                }
            } else if f.tag == 2 {
                match Coin::decode_field(&f.value) {
                    Ok(c) => {
                        assert(views(balance@.push(c)) =~= views(balance@).push(c@));
                        balance.push(c);
                    },
                    Err(e) => {
                        return Err(e);
                    },
                }
            }
            i += 1;
        }
        assert(fs.skip(i as int) =~= Seq::<Field>::empty());
        match address {
            Some(address) => Ok(ContractInfo { address, balance }),
            None => Err(DecodeError::MissingField),
        }
    }
}

/// What has been read of a [`Params`].
pub ghost struct ParamsDraft {
    pub block: Option<BlockInfoView>,
    pub message: Option<MessageInfoView>,
    pub contract: Option<ContractInfoView>,
}

/// Field 1 is the block, field 2 the message and field 3 the contract, each
/// a value of its own and each required. Every other field is passed over.
impl Layout for ParamsView {
    type Draft = ParamsDraft;

    open spec fn fields(self) -> Seq<Field> {
        seq![
            nested_field(1, self.block),
            nested_field(2, self.message),
            nested_field(3, self.contract),
        ]
    }

    open spec fn encodable(self) -> bool {
        &&& fields_ok(self.fields())
        &&& self.block.encodable()
        &&& self.message.encodable()
        &&& self.contract.encodable()
    }

    open spec fn blank() -> ParamsDraft {
        ParamsDraft { block: None, message: None, contract: None }
    }

    open spec fn step(d: ParamsDraft, f: Field) -> Result<ParamsDraft, DecodeError> {
        if f.tag == 1 {
            match as_nested::<BlockInfoView>(f.value) {
                Ok(v) => Ok(ParamsDraft { block: Some(v), ..d }),
                Err(e) => Err(e),
            }
        } else if f.tag == 2 {
            match as_nested::<MessageInfoView>(f.value) {
                Ok(v) => Ok(ParamsDraft { message: Some(v), ..d }),
                Err(e) => Err(e),
            }
        } else if f.tag == 3 {
            match as_nested::<ContractInfoView>(f.value) {
                Ok(v) => Ok(ParamsDraft { contract: Some(v), ..d }),
                Err(e) => Err(e),
            }
        } else {
            Ok(d)
        }
    }

    open spec fn finish(d: ParamsDraft) -> Result<ParamsView, DecodeError> {
        match (d.block, d.message, d.contract) {
            (Some(block), Some(message), Some(contract)) => Ok(
                ParamsView { block, message, contract },
            ),
            _ => Err(DecodeError::MissingField),
        }
    }
}

impl Message for ParamsView {
    proof fn lemma_finish(d: <Self as Layout>::Draft) {
    }

    proof fn lemma_round_trip(self) {
        lemma_decoding_fields::<ParamsView>(self.fields());
        lemma_nested_round_trip(1, self.block);
        lemma_nested_round_trip(2, self.message);
        lemma_nested_round_trip(3, self.contract);
        lemma_absorb_three::<ParamsView>(
            ParamsView::blank(),
            nested_field(1, self.block),
            nested_field(2, self.message),
            nested_field(3, self.contract),
        );
    }
}

impl Params {
    /// Appends the encoding of the value to `buf`.
    pub fn encode_into(&self, buf: &mut Vec<u8>)
        ensures
            final(buf)@ == old(buf)@ + encoding(self@),
            self@.encodable(),
    {
        let ghost mut done: Seq<Field> = Seq::empty();
        proof {
            lemma_put_none(buf@);
        }
        self.block.encode_field(1, buf);
        proof {
            lemma_put(old(buf)@, done, nested_field(1, self.block@));
            done = done.push(nested_field(1, self.block@));
        }
        self.message.encode_field(2, buf);
        proof {
            lemma_put(old(buf)@, done, nested_field(2, self.message@));
            done = done.push(nested_field(2, self.message@));
        }
        self.contract.encode_field(3, buf);
        proof {
            lemma_put(old(buf)@, done, nested_field(3, self.contract@));
            done = done.push(nested_field(3, self.contract@));
            assert(done =~= self@.fields());
        }
    }

    /// The encoding of the value.
    pub fn encode(&self) -> (out: Vec<u8>)
        ensures
            out@ == encoding(self@),
            self@.encodable(),
    {
        let mut out: Vec<u8> = Vec::new();
        self.encode_into(&mut out);
        assert(out@ =~= encoding(self@));
        out
    }

    /// The value that `bytes` stand for.
    pub fn decode(bytes: &[u8]) -> (r: Result<Params, DecodeError>)
        ensures
            viewed(r) == decoding::<ParamsView>(bytes@),
    {
        match split_fields(bytes) {
            Ok(fields) => Params::gather(&fields),
            Err(e) => Err(e),
        }
    }

    /// The value that `fields` amount to.
    fn gather(fields: &Vec<RawField>) -> (r: Result<Params, DecodeError>)
        ensures
            viewed(r) == from_fields::<ParamsView>(field_views(fields@)),
    {
        let ghost fs = field_views(fields@);
        let mut block: Option<BlockInfo> = None;
        let mut message: Option<MessageInfo> = None;
        let mut contract: Option<ContractInfo> = None;
        let mut i: usize = 0;
        assert(fs.skip(0) =~= fs);
        while i < fields.len()
            invariant
                i <= fields.len(),
                fs == field_views(fields@),
                absorb::<ParamsView>(
                    ParamsDraft {
                        block: opt_view(block),
                        message: opt_view(message),
                        contract: opt_view(contract),
                    },
                    fs.skip(i as int),
                ) == absorb::<ParamsView>(ParamsView::blank(), fs),
            decreases fields.len() - i,
        {
            let f = &fields[i];
            proof {
                lemma_absorb_skip::<ParamsView>(
                    ParamsDraft {
                        block: opt_view(block),
                        message: opt_view(message),
                        contract: opt_view(contract),
                    },
                    fs,
                    i as int,
                );
            }
            if f.tag == 1 {
                match BlockInfo::decode_field(&f.value) {
                    Ok(v) => {
                        block = Some(v);
                    },
                    Err(e) => {
                        return Err(e);
                    },
                }
            } else if f.tag == 2 {
                match MessageInfo::decode_field(&f.value) {
                    Ok(v) => {
                        message = Some(v);
                    },
                    Err(e) => {
                        return Err(e);
                    },
                }
            } else if f.tag == 3 {
                match ContractInfo::decode_field(&f.value) {
                    Ok(v) => {
                        contract = Some(v);
                    },
                    Err(e) => {
                        return Err(e);
                    },
                }
            }
            i += 1;
        }
        assert(fs.skip(i as int) =~= Seq::<Field>::empty());
        match (block, message, contract) {
            (Some(block), Some(message), Some(contract)) => Ok(
                Params { block, message, contract },
            ),
            _ => Err(DecodeError::MissingField),
        }
    }
}

} // verus!
