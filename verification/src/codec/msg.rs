//! The layout of the requests of a contract: [`SendMsg`], [`ContractMsg`]
//! and [`OpaqueMsg`], and [`Msg`], the union of the three.
//!
//! A [`Msg`] holds at most one field, whose number names the variant: 1 for
//! a transfer, 2 for a call, 3 for an opaque payload. Where the input holds
//! several, the last stands. Any other field number is refused.

use vstd::prelude::*;
use crate::codec::coin::put_coins;
use crate::error::DecodeError;
use crate::message::{
    absorb, decoding, encoding, from_fields, lemma_absorb_concat, lemma_absorb_one,
    lemma_absorb_repeated, lemma_absorb_skip, lemma_absorb_two, lemma_decoding_fields, lemma_put,
    lemma_put_none, lemma_put_run, viewed, Layout, Message,
};
use crate::types::{
    opt_view, views, Coin, CoinView, ContractMsg, ContractMsgView, CosmosMsg, CosmosMsgView, Msg,
    MsgView, OpaqueMsg, OpaqueMsgView, SendMsg, SendMsgView,
};
use crate::value::{
    as_nested, as_text, lemma_nested_round_trip, lemma_repeated_push, lemma_text_round_trip,
    nested_field, payload_of, put_text_field, repeated, text_field, text_of,
};
use crate::wire::{
    field_bytes, field_ok, field_views, fields_bytes, fields_ok, lemma_fields_bytes_one,
    put_bytes_field, split_fields, Field, RawField, RawValue, MAX_TAG,
};

verus! {

/// What has been read of a [`SendMsg`].
pub ghost struct SendMsgDraft {
    pub from_address: Option<Seq<char>>,
    pub to_address: Option<Seq<char>>,
    pub amount: Seq<CoinView>,
}

/// Field 1 is the sender and field 2 the receiver, both text and both
/// required. Each field 3 is one coin of the amount, in the order in which
/// they stand. Every other field is passed over.
impl Layout for SendMsgView {
    type Draft = SendMsgDraft;

    open spec fn fields(self) -> Seq<Field> {
        seq![text_field(1, self.from_address), text_field(2, self.to_address)] + repeated(
            3,
            self.amount,
        )
    }

    open spec fn encodable(self) -> bool {
        &&& fields_ok(self.fields())
        &&& forall|i: int| 0 <= i < self.amount.len() ==> (#[trigger] self.amount[i]).encodable()
    }

    open spec fn blank() -> SendMsgDraft {
        SendMsgDraft { from_address: None, to_address: None, amount: Seq::empty() }
    }

    open spec fn step(d: SendMsgDraft, f: Field) -> Result<SendMsgDraft, DecodeError> {
        if f.tag == 1 {
            match as_text(f.value) {
                Ok(s) => Ok(SendMsgDraft { from_address: Some(s), ..d }),
                Err(e) => Err(e),
            }
        } else if f.tag == 2 {
            match as_text(f.value) {
                Ok(s) => Ok(SendMsgDraft { to_address: Some(s), ..d }),
                Err(e) => Err(e),
            }
        } else if f.tag == 3 {
            match as_nested::<CoinView>(f.value) {
                Ok(c) => Ok(SendMsgDraft { amount: d.amount.push(c), ..d }),
                Err(e) => Err(e),
            }
        } else {
            Ok(d)
        }
    }

    open spec fn finish(d: SendMsgDraft) -> Result<SendMsgView, DecodeError> {
        match (d.from_address, d.to_address) {
            (Some(from_address), Some(to_address)) => Ok(
                SendMsgView { from_address, to_address, amount: d.amount },
            ),
            _ => Err(DecodeError::MissingField),
        }
    }
}

impl Message for SendMsgView {
    proof fn lemma_finish(d: <Self as Layout>::Draft) {
    }

    proof fn lemma_round_trip(self) {
        let from = text_field(1, self.from_address);
        let to = text_field(2, self.to_address);
        let run = repeated(3, self.amount);
        let after = |p: Seq<CoinView>|
            SendMsgDraft {
                from_address: Some(self.from_address),
                to_address: Some(self.to_address),
                amount: p,
            };
        lemma_decoding_fields::<SendMsgView>(self.fields());
        lemma_text_round_trip(1, self.from_address);
        lemma_text_round_trip(2, self.to_address);
        lemma_absorb_concat::<SendMsgView>(SendMsgView::blank(), seq![from, to], run);
        lemma_absorb_two::<SendMsgView>(SendMsgView::blank(), from, to);
        assert forall|p: Seq<CoinView>, e: CoinView| e.encodable() implies #[trigger]
        SendMsgView::step(after(p), nested_field(3, e)) == Ok::<SendMsgDraft, DecodeError>(
            after(p.push(e)),
        ) by {
            e.lemma_round_trip();
        }
        lemma_absorb_repeated::<SendMsgView, CoinView>(3, self.amount, after);
    }
}

impl SendMsg {
    /// Appends the encoding of the value to `buf`.
    pub fn encode_into(&self, buf: &mut Vec<u8>)
        ensures
            final(buf)@ == old(buf)@ + encoding(self@),
            self@.encodable(),
    {
        let ghost mut done: Seq<Field> = Seq::empty();
        proof {
            lemma_put_none(buf@);
        }
        put_text_field(1, self.from_address.as_str(), buf);
        proof {
            lemma_put(old(buf)@, done, text_field(1, self.from_address@));
            done = done.push(text_field(1, self.from_address@));
        }
        put_text_field(2, self.to_address.as_str(), buf);
        proof {
            lemma_put(old(buf)@, done, text_field(2, self.to_address@));
            done = done.push(text_field(2, self.to_address@));
        }
        put_coins(3, &self.amount, buf);
        proof {
            lemma_put_run(old(buf)@, done, repeated(3, views(self.amount@)));
            assert(done + repeated(3, views(self.amount@)) =~= self@.fields());
        }
    }

    /// The encoding of the value.
    pub fn encode(&self) -> (out: Vec<u8>)
        ensures
            out@ == encoding(self@),
            self@.encodable(),
    {
        let mut out: Vec<u8> = Vec::new();
        self.encode_into(&mut out);
        assert(out@ =~= encoding(self@));
        out
    }

    /// The value that `bytes` stand for.
    pub fn decode(bytes: &[u8]) -> (r: Result<SendMsg, DecodeError>)
        ensures
            viewed(r) == decoding::<SendMsgView>(bytes@),
    {
        match split_fields(bytes) {
            Ok(fields) => SendMsg::gather(&fields),
            Err(e) => Err(e),
        }
    }

    /// Appends the value as a field of another message.
    pub(crate) fn encode_field(&self, tag: u64, buf: &mut Vec<u8>)
        requires
            tag <= MAX_TAG,
        ensures
            final(buf)@ == old(buf)@ + field_bytes(nested_field(tag, self@)),
            field_ok(nested_field(tag, self@)),
            self@.encodable(),
    {
        let inner = self.encode();
        put_bytes_field(tag, inner.as_slice(), buf);
    }

    /// The value that a field of another message holds.
    pub(crate) fn decode_field(v: &RawValue) -> (r: Result<SendMsg, DecodeError>)
        ensures
            viewed(r) == as_nested::<SendMsgView>(v@),
    {
        match payload_of(v) {
            Ok(b) => SendMsg::decode(b),
            Err(e) => Err(e),
        }
    }

    /// The value that `fields` amount to.
    fn gather(fields: &Vec<RawField>) -> (r: Result<SendMsg, DecodeError>)
        ensures
            viewed(r) == from_fields::<SendMsgView>(field_views(fields@)),
    {
        let ghost fs = field_views(fields@);
        let mut from_address: Option<String> = None;
        let mut to_address: Option<String> = None;
        let mut amount: Vec<Coin> = Vec::new();
        let mut i: usize = 0;
        assert(fs.skip(0) =~= fs);
        assert(views(amount@) =~= Seq::<CoinView>::empty());
        while i < fields.len()
            invariant
                i <= fields.len(),
                fs == field_views(fields@),
                absorb::<SendMsgView>(
                    SendMsgDraft {
                        from_address: opt_view(from_address),
                        to_address: opt_view(to_address),
                        amount: views(amount@),
                    },
                    fs.skip(i as int),
                ) == absorb::<SendMsgView>(SendMsgView::blank(), fs),
            decreases fields.len() - i,
        {
            let f = &fields[i];
            proof {
                lemma_absorb_skip::<SendMsgView>(
                    SendMsgDraft {
                        from_address: opt_view(from_address),
                        to_address: opt_view(to_address),
                        amount: views(amount@),
                    },
                    fs,
                    i as int,
                );
            }
            if f.tag == 1 {
                match text_of(&f.value) {
                    Ok(s) => {
                        from_address = Some(s);
                    },
                    Err(e) => {
                        return Err(e);
                    },
                }
            } else if f.tag == 2 {
                match text_of(&f.value) {
                    Ok(s) => {
                        to_address = Some(s);
                    },
                    Err(e) => {
                        return Err(e);
                    },
                }
            } else if f.tag == 3 {
                match Coin::decode_field(&f.value) {
                    Ok(c) => {
                        assert(views(amount@.push(c)) =~= views(amount@).push(c@));
                        amount.push(c);
                    },
                    Err(e) => {
                        return Err(e);
                    },
                }
            }
            i += 1;
        }
        assert(fs.skip(i as int) =~= Seq::<Field>::empty());
        match (from_address, to_address) {
            (Some(from_address), Some(to_address)) => Ok(
                SendMsg { from_address, to_address, amount },
            ),
            _ => Err(DecodeError::MissingField),
        }
    }
}

/// What has been read of a [`ContractMsg`].
pub ghost struct ContractMsgDraft {
    pub contract_addr: Option<Seq<char>>,
    pub msg: Option<Seq<char>>,
}

/// Field 1 is the address of the contract and field 2 the payload, both text
/// and both required. Every other field is passed over.
impl Layout for ContractMsgView {
    type Draft = ContractMsgDraft;

    open spec fn fields(self) -> Seq<Field> {
        seq![text_field(1, self.contract_addr), text_field(2, self.msg)]
    }

    open spec fn encodable(self) -> bool {
        fields_ok(self.fields())
    }

    open spec fn blank() -> ContractMsgDraft {
        ContractMsgDraft { contract_addr: None, msg: None }
    }

    open spec fn step(d: ContractMsgDraft, f: Field) -> Result<ContractMsgDraft, DecodeError> {
        if f.tag == 1 {
            match as_text(f.value) {
                Ok(s) => Ok(ContractMsgDraft { contract_addr: Some(s), ..d }),
                Err(e) => Err(e),
            }
        } else if f.tag == 2 {
            match as_text(f.value) {
                Ok(s) => Ok(ContractMsgDraft { msg: Some(s), ..d }),
                Err(e) => Err(e),
            }
        } else {
            Ok(d)
        }
    }

    open spec fn finish(d: ContractMsgDraft) -> Result<ContractMsgView, DecodeError> {
        match (d.contract_addr, d.msg) {
            (Some(contract_addr), Some(msg)) => Ok(ContractMsgView { contract_addr, msg }),
            _ => Err(DecodeError::MissingField),
        }
    }
}

impl Message for ContractMsgView {
    proof fn lemma_finish(d: <Self as Layout>::Draft) {
    }

    proof fn lemma_round_trip(self) {
        lemma_decoding_fields::<ContractMsgView>(self.fields());
        lemma_text_round_trip(1, self.contract_addr);
        lemma_text_round_trip(2, self.msg);
        lemma_absorb_two::<ContractMsgView>(
            ContractMsgView::blank(),
            text_field(1, self.contract_addr),
            text_field(2, self.msg),
        );
    }
}

impl ContractMsg {
    /// Appends the encoding of the value to `buf`.
    pub fn encode_into(&self, buf: &mut Vec<u8>)
        ensures
            final(buf)@ == old(buf)@ + encoding(self@),
            self@.encodable(),
    {
        let ghost mut done: Seq<Field> = Seq::empty();
        proof {
            lemma_put_none(buf@);
        }
        put_text_field(1, self.contract_addr.as_str(), buf);
        proof {
            lemma_put(old(buf)@, done, text_field(1, self.contract_addr@));
            done = done.push(text_field(1, self.contract_addr@));
        }
        put_text_field(2, self.msg.as_str(), buf);
        proof {
            lemma_put(old(buf)@, done, text_field(2, self.msg@));
            done = done.push(text_field(2, self.msg@));
            assert(done =~= self@.fields());
        }
    }

    /// The encoding of the value.
    pub fn encode(&self) -> (out: Vec<u8>)
        ensures
            out@ == encoding(self@),
            self@.encodable(),
    {
        let mut out: Vec<u8> = Vec::new();
        self.encode_into(&mut out);
        assert(out@ =~= encoding(self@));
        out
    }

    /// The value that `bytes` stand for.
    pub fn decode(bytes: &[u8]) -> (r: Result<ContractMsg, DecodeError>)
        ensures
            viewed(r) == decoding::<ContractMsgView>(bytes@),
    {
        match split_fields(bytes) {
            Ok(fields) => ContractMsg::gather(&fields),
            Err(e) => Err(e),
        }
    }

    /// Appends the value as a field of another message.
    pub(crate) fn encode_field(&self, tag: u64, buf: &mut Vec<u8>)
        requires
            tag <= MAX_TAG,
        ensures
            final(buf)@ == old(buf)@ + field_bytes(nested_field(tag, self@)),
            field_ok(nested_field(tag, self@)),
            self@.encodable(),
    {
        let inner = self.encode();
        put_bytes_field(tag, inner.as_slice(), buf);
    }

    /// The value that a field of another message holds.
    pub(crate) fn decode_field(v: &RawValue) -> (r: Result<ContractMsg, DecodeError>)
        ensures
            viewed(r) == as_nested::<ContractMsgView>(v@),
    {
        match payload_of(v) {
            Ok(b) => ContractMsg::decode(b),
            Err(e) => Err(e),
        }
    }

    /// The value that `fields` amount to.
    fn gather(fields: &Vec<RawField>) -> (r: Result<ContractMsg, DecodeError>)
        ensures
            viewed(r) == from_fields::<ContractMsgView>(field_views(fields@)),
    {
        let ghost fs = field_views(fields@);
        let mut contract_addr: Option<String> = None;
        let mut msg: Option<String> = None;
        let mut i: usize = 0;
        assert(fs.skip(0) =~= fs);
        while i < fields.len()
            invariant
                i <= fields.len(),
                fs == field_views(fields@),
                absorb::<ContractMsgView>(
                    ContractMsgDraft { contract_addr: opt_view(contract_addr), msg: opt_view(msg) },
                    fs.skip(i as int),
                ) == absorb::<ContractMsgView>(ContractMsgView::blank(), fs),
            decreases fields.len() - i,
        {
            let f = &fields[i];
            proof {
                lemma_absorb_skip::<ContractMsgView>(
                    ContractMsgDraft { contract_addr: opt_view(contract_addr), msg: opt_view(msg) },
                    fs,
                    i as int,
                );
            }
            if f.tag == 1 {
                match text_of(&f.value) {
                    Ok(s) => {
                        contract_addr = Some(s);
                    },
                    Err(e) => {
                        return Err(e);
                    },
                }
            } else if f.tag == 2 {
                match text_of(&f.value) {
                    Ok(s) => {
                        msg = Some(s);
                    },
                    Err(e) => {
                        return Err(e);
                    },
                }
            }
            i += 1;
        }
        assert(fs.skip(i as int) =~= Seq::<Field>::empty());
        match (contract_addr, msg) {
            (Some(contract_addr), Some(msg)) => Ok(ContractMsg { contract_addr, msg }),
            _ => Err(DecodeError::MissingField),
        }
    }
}

/// What has been read of an [`OpaqueMsg`].
pub ghost struct OpaqueMsgDraft {
    pub data: Option<Seq<char>>,
}

/// Field 1 is the payload, text and required. Every other field is passed
/// over.
impl Layout for OpaqueMsgView {
    type Draft = OpaqueMsgDraft;

    open spec fn fields(self) -> Seq<Field> {
        seq![text_field(1, self.data)]
    }

    open spec fn encodable(self) -> bool {
        fields_ok(self.fields())
    }

    open spec fn blank() -> OpaqueMsgDraft {
        OpaqueMsgDraft { data: None }
    }

    open spec fn step(d: OpaqueMsgDraft, f: Field) -> Result<OpaqueMsgDraft, DecodeError> {
        if f.tag == 1 {
            match as_text(f.value) {
                Ok(s) => Ok(OpaqueMsgDraft { data: Some(s) }),
                Err(e) => Err(e),
            }
        } else {
            Ok(d)
        }
    }

    open spec fn finish(d: OpaqueMsgDraft) -> Result<OpaqueMsgView, DecodeError> {
        match d.data {
            Some(data) => Ok(OpaqueMsgView { data }),
            None => Err(DecodeError::MissingField),
        }
    }
}

impl Message for OpaqueMsgView {
    proof fn lemma_finish(d: <Self as Layout>::Draft) {
    }

    proof fn lemma_round_trip(self) {
        lemma_decoding_fields::<OpaqueMsgView>(self.fields());
        lemma_text_round_trip(1, self.data);
        lemma_absorb_one::<OpaqueMsgView>(OpaqueMsgView::blank(), text_field(1, self.data));
    }
}

impl OpaqueMsg {
    /// Appends the encoding of the value to `buf`.
    pub fn encode_into(&self, buf: &mut Vec<u8>)
        ensures
            final(buf)@ == old(buf)@ + encoding(self@),
            self@.encodable(),
    {
        put_text_field(1, self.data.as_str(), buf);
        proof {
            lemma_fields_bytes_one(text_field(1, self.data@));
        }
    }

    /// The encoding of the value.
    pub fn encode(&self) -> (out: Vec<u8>)
        ensures
            out@ == encoding(self@),
            self@.encodable(),
    {
        let mut out: Vec<u8> = Vec::new();
        self.encode_into(&mut out);
        assert(out@ =~= encoding(self@));
        out
    }

    /// The value that `bytes` stand for.
    pub fn decode(bytes: &[u8]) -> (r: Result<OpaqueMsg, DecodeError>)
        ensures
            viewed(r) == decoding::<OpaqueMsgView>(bytes@),
    {
        match split_fields(bytes) {
            Ok(fields) => OpaqueMsg::gather(&fields),
            Err(e) => Err(e),
        }
    }

    /// Appends the value as a field of another message.
    pub(crate) fn encode_field(&self, tag: u64, buf: &mut Vec<u8>)
        requires
            tag <= MAX_TAG,
        ensures
            final(buf)@ == old(buf)@ + field_bytes(nested_field(tag, self@)),
            field_ok(nested_field(tag, self@)),
            self@.encodable(),
    {
        let inner = self.encode();
        put_bytes_field(tag, inner.as_slice(), buf);
    }

    /// The value that a field of another message holds.
    pub(crate) fn decode_field(v: &RawValue) -> (r: Result<OpaqueMsg, DecodeError>)
        ensures
            viewed(r) == as_nested::<OpaqueMsgView>(v@),
    {
        match payload_of(v) {
            Ok(b) => OpaqueMsg::decode(b),
            Err(e) => Err(e),
        }
    }

    /// The value that `fields` amount to.
    fn gather(fields: &Vec<RawField>) -> (r: Result<OpaqueMsg, DecodeError>)
        ensures
            viewed(r) == from_fields::<OpaqueMsgView>(field_views(fields@)),
    {
        let ghost fs = field_views(fields@);
        let mut data: Option<String> = None;
        let mut i: usize = 0;
        assert(fs.skip(0) =~= fs);
        while i < fields.len()
            invariant
                i <= fields.len(),
                fs == field_views(fields@),
                absorb::<OpaqueMsgView>(OpaqueMsgDraft { data: opt_view(data) }, fs.skip(i as int))
                    == absorb::<OpaqueMsgView>(OpaqueMsgView::blank(), fs),
            decreases fields.len() - i,
        {
            let f = &fields[i];
            proof {
                lemma_absorb_skip::<OpaqueMsgView>(
                    OpaqueMsgDraft { data: opt_view(data) },
                    fs,
                    i as int,
                );
            }
            if f.tag == 1 {
                match text_of(&f.value) {
                    Ok(s) => {
                        data = Some(s);
                    },
                    Err(e) => {
                        return Err(e);
                    },
                }
            }
            i += 1;
        }
        assert(fs.skip(i as int) =~= Seq::<Field>::empty());
        match data {
            Some(data) => Ok(OpaqueMsg { data }),
            None => Err(DecodeError::MissingField),
        }
    }
}

/// Field 1 is a transfer, field 2 a call and field 3 an opaque payload. The
/// last of them that the input holds is the request; input that holds none
/// gives a message without a request. Every other field is refused as an
/// unknown variant.
impl Layout for MsgView {
    type Draft = MsgView;

    open spec fn fields(self) -> Seq<Field> {
        match self.msg {
            Some(CosmosMsgView::Send(m)) => seq![nested_field(1, m)],
            Some(CosmosMsgView::Contract(m)) => seq![nested_field(2, m)],
            Some(CosmosMsgView::Opaque(m)) => seq![nested_field(3, m)],
            None => Seq::empty(),
        }
    }

    open spec fn encodable(self) -> bool {
        &&& fields_ok(self.fields())
        &&& match self.msg {
            Some(CosmosMsgView::Send(m)) => m.encodable(),
            Some(CosmosMsgView::Contract(m)) => m.encodable(),
            Some(CosmosMsgView::Opaque(m)) => m.encodable(),
            None => true,
        }
    }

    open spec fn blank() -> MsgView {
        MsgView { msg: None }
    }

    open spec fn step(d: MsgView, f: Field) -> Result<MsgView, DecodeError> {
        if f.tag == 1 {
            match as_nested::<SendMsgView>(f.value) {
                Ok(m) => Ok(MsgView { msg: Some(CosmosMsgView::Send(m)) }),
                Err(e) => Err(e),
            }
        } else if f.tag == 2 {
            match as_nested::<ContractMsgView>(f.value) {
                Ok(m) => Ok(MsgView { msg: Some(CosmosMsgView::Contract(m)) }),
                Err(e) => Err(e),
            }
        } else if f.tag == 3 {
            match as_nested::<OpaqueMsgView>(f.value) {
                Ok(m) => Ok(MsgView { msg: Some(CosmosMsgView::Opaque(m)) }),
                Err(e) => Err(e),
            }
        } else {
            Err(DecodeError::UnknownVariant)
        }
    }

    open spec fn finish(d: MsgView) -> Result<MsgView, DecodeError> {
        Ok(d)
    }
}

impl Message for MsgView {
    proof fn lemma_finish(d: <Self as Layout>::Draft) {
    }

    proof fn lemma_round_trip(self) {
        lemma_decoding_fields::<MsgView>(self.fields());
        match self.msg {
            Some(CosmosMsgView::Send(m)) => {
                lemma_nested_round_trip(1, m);
                lemma_absorb_one::<MsgView>(MsgView::blank(), nested_field(1, m));
            },
            Some(CosmosMsgView::Contract(m)) => {
                lemma_nested_round_trip(2, m);
                lemma_absorb_one::<MsgView>(MsgView::blank(), nested_field(2, m));
            },
            Some(CosmosMsgView::Opaque(m)) => {
                lemma_nested_round_trip(3, m);
                lemma_absorb_one::<MsgView>(MsgView::blank(), nested_field(3, m));
            },
            None => {},
        }
    }
}

impl Msg {
    /// Appends the encoding of the value to `buf`.
    pub fn encode_into(&self, buf: &mut Vec<u8>)
        ensures
            final(buf)@ == old(buf)@ + encoding(self@),
            self@.encodable(),
    {
        match &self.msg {
            Some(CosmosMsg::Send(m)) => {
                m.encode_field(1, buf);
                proof {
                    lemma_fields_bytes_one(nested_field(1, m@));
                }
            },
            Some(CosmosMsg::Contract(m)) => {
                m.encode_field(2, buf);
                proof {
                    lemma_fields_bytes_one(nested_field(2, m@));
                }
            },
            Some(CosmosMsg::Opaque(m)) => {
                m.encode_field(3, buf);
                proof {
                    lemma_fields_bytes_one(nested_field(3, m@));
                }
            },
            None => {
                proof {
                    lemma_put_none(buf@);
                }
            },
        }
    }

    /// The encoding of the value.
    pub fn encode(&self) -> (out: Vec<u8>)
        ensures
            out@ == encoding(self@),
            self@.encodable(),
    {
        let mut out: Vec<u8> = Vec::new();
        self.encode_into(&mut out);
        assert(out@ =~= encoding(self@));
        out
    }

    /// The value that `bytes` stand for. Input without any field gives a
    /// message without a request.
    pub fn decode(bytes: &[u8]) -> (r: Result<Msg, DecodeError>)
        ensures
            viewed(r) == decoding::<MsgView>(bytes@),
    {
        match split_fields(bytes) {
            Ok(fields) => Msg::gather(&fields),
            Err(e) => Err(e),
        }
    }

    /// The request that `bytes` stand for. Input that decodes to a message
    /// without a request gives `InvalidEncoding`.
    pub fn decode_request(bytes: &[u8]) -> (r: Result<CosmosMsg, DecodeError>)
        ensures
            viewed(r) == match decoding::<MsgView>(bytes@) {
                Ok(m) => match m.msg {
                    Some(request) => Ok(request),
                    None => Err(DecodeError::InvalidEncoding),
                },
                Err(e) => Err(e),
            },
    {
        match Msg::decode(bytes) {
            Ok(m) => match m.msg {
                Some(request) => Ok(request),
                None => Err(DecodeError::InvalidEncoding),
            },
            Err(e) => Err(e),
        }
    }

    /// Appends the value as a field of another message.
    pub(crate) fn encode_field(&self, tag: u64, buf: &mut Vec<u8>)
        requires
            tag <= MAX_TAG,
        ensures
            final(buf)@ == old(buf)@ + field_bytes(nested_field(tag, self@)),
            field_ok(nested_field(tag, self@)),
            self@.encodable(),
    {
        let inner = self.encode();
        put_bytes_field(tag, inner.as_slice(), buf);
    }

    /// The value that a field of another message holds.
    pub(crate) fn decode_field(v: &RawValue) -> (r: Result<Msg, DecodeError>)
        ensures
            viewed(r) == as_nested::<MsgView>(v@),
    {
        match payload_of(v) {
            Ok(b) => Msg::decode(b),
            Err(e) => Err(e),
        }
    }

    /// The value that `fields` amount to.
    fn gather(fields: &Vec<RawField>) -> (r: Result<Msg, DecodeError>)
        ensures
            viewed(r) == from_fields::<MsgView>(field_views(fields@)),
    {
        let ghost fs = field_views(fields@);
        let mut msg: Option<CosmosMsg> = None;
        let mut i: usize = 0;
        assert(fs.skip(0) =~= fs);
        while i < fields.len()
            invariant
                i <= fields.len(),
                fs == field_views(fields@),
                absorb::<MsgView>(MsgView { msg: opt_view(msg) }, fs.skip(i as int)) == absorb::<
                    MsgView,
                >(MsgView::blank(), fs),
            decreases fields.len() - i,
        {
            let f = &fields[i];
            proof {
                lemma_absorb_skip::<MsgView>(MsgView { msg: opt_view(msg) }, fs, i as int);
            }
            if f.tag == 1 {
                match SendMsg::decode_field(&f.value) {
                    Ok(m) => {
                        msg = Some(CosmosMsg::Send(m));
                    },
                    Err(e) => {
                        return Err(e);
                    },
                }
            } else if f.tag == 2 {
                match ContractMsg::decode_field(&f.value) {
                    Ok(m) => {
                        msg = Some(CosmosMsg::Contract(m));
                    },
                    Err(e) => {
                        return Err(e);
                    },
                }
            } else if f.tag == 3 {
                match OpaqueMsg::decode_field(&f.value) {
                    Ok(m) => {
                        msg = Some(CosmosMsg::Opaque(m));
                    },
                    Err(e) => {
                        return Err(e);
                    },
                }
            } else {
                return Err(DecodeError::UnknownVariant);
            }
            i += 1;
        }
        assert(fs.skip(i as int) =~= Seq::<Field>::empty());
        Ok(Msg { msg })
    }
}

/// Appends one field for each message of `msgs`, in their order.
pub(crate) fn put_msgs(tag: u64, msgs: &Vec<Msg>, buf: &mut Vec<u8>)
    requires
        tag <= MAX_TAG,
    ensures
        final(buf)@ == old(buf)@ + fields_bytes(repeated(tag, views(msgs@))),
        fields_ok(repeated(tag, views(msgs@))),
        forall|i: int| 0 <= i < msgs@.len() ==> (#[trigger] views(msgs@)[i]).encodable(),
{
    let mut i: usize = 0;
    proof {
        lemma_put_none(buf@);
        assert(repeated(tag, views(msgs@).take(0)) =~= Seq::<Field>::empty());
    }
    while i < msgs.len()
        invariant
            i <= msgs.len(),
            tag <= MAX_TAG,
            buf@ == old(buf)@ + fields_bytes(repeated(tag, views(msgs@).take(i as int))),
            fields_ok(repeated(tag, views(msgs@).take(i as int))),
            forall|j: int| 0 <= j < i ==> (#[trigger] views(msgs@)[j]).encodable(),
        decreases msgs.len() - i,
    {
        msgs[i].encode_field(tag, buf);
        proof {
            let done = views(msgs@).take(i as int);
            lemma_put(old(buf)@, repeated(tag, done), nested_field(tag, msgs@[i as int]@));
            lemma_repeated_push(tag, done, msgs@[i as int]@);
            assert(views(msgs@).take(i + 1) =~= done.push(msgs@[i as int]@));
        }
        i += 1;
    }
    assert(views(msgs@).take(i as int) =~= views(msgs@));
}

} // verus!
