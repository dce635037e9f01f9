//! The layout of the answer to a call: [`Response`], and [`ContractResult`],
//! the union of a response and the text of an error.
//!
//! A [`ContractResult`] holds at most one field, whose number names the
//! variant: 1 for a response, 2 for an error. Where the input holds several,
//! the last stands. Any other field number is refused.

use vstd::prelude::*;
use crate::codec::msg::put_msgs;
use crate::error::DecodeError;
use crate::message::{
    absorb, decoding, encoding, from_fields, lemma_absorb_concat, lemma_absorb_one,
    lemma_absorb_repeated, lemma_absorb_skip, lemma_decoding_fields, lemma_put, lemma_put_none,
    lemma_put_run, viewed, Layout, Message,
};
use crate::types::{
    opt_view, views, ContractResult, ContractResultView, Msg, MsgView, Response, ResponseView,
    ResultView,
};
use crate::value::{
    as_nested, as_text, lemma_nested_round_trip, lemma_text_round_trip, nested_field,
    optional_text, payload_of, put_text_field, repeated, text_field, text_of,
};
use crate::wire::{
    field_bytes, field_ok, field_views, fields_ok, lemma_fields_bytes_one, put_bytes_field,
    split_fields, Field, RawField, RawValue, MAX_TAG,
};

verus! {

/// Each field 1 is one message, in the order in which they stand. Field 2 is
/// the log and field 3 the data, both text, and either may be missing: text
/// that is not written is read back as missing, text that is written empty
/// as empty. Every other field is passed over.
impl Layout for ResponseView {
    type Draft = ResponseView;

    open spec fn fields(self) -> Seq<Field> {
        repeated(1, self.messages) + optional_text(2, self.log) + optional_text(3, self.data)
    }

    open spec fn encodable(self) -> bool {
        &&& fields_ok(self.fields())
        &&& forall|i: int|
            0 <= i < self.messages.len() ==> (#[trigger] self.messages[i]).encodable()
    }

    open spec fn blank() -> ResponseView {
        ResponseView { messages: Seq::empty(), log: None, data: None }
    }

    open spec fn step(d: ResponseView, f: Field) -> Result<ResponseView, DecodeError> {
        if f.tag == 1 {
            match as_nested::<MsgView>(f.value) {
                Ok(m) => Ok(ResponseView { messages: d.messages.push(m), ..d }),
                Err(e) => Err(e),
            }
        } else if f.tag == 2 {
            match as_text(f.value) {
                Ok(s) => Ok(ResponseView { log: Some(s), ..d }),
                Err(e) => Err(e),
            }
        } else if f.tag == 3 {
            match as_text(f.value) {
                Ok(s) => Ok(ResponseView { data: Some(s), ..d }),
                Err(e) => Err(e),
            }
        } else {
            Ok(d)
        }
    }

    open spec fn finish(d: ResponseView) -> Result<ResponseView, DecodeError> {
        Ok(d)
    }
}

impl Message for ResponseView {
    proof fn lemma_finish(d: <Self as Layout>::Draft) {
    }

    proof fn lemma_round_trip(self) {
        let run = repeated(1, self.messages);
        let log = optional_text(2, self.log);
        let data = optional_text(3, self.data);
        let after = |p: Seq<MsgView>| ResponseView { messages: p, log: None, data: None };
        let read = after(self.messages);
        let logged = ResponseView { log: self.log, ..read };
        lemma_decoding_fields::<ResponseView>(self.fields());
        lemma_absorb_concat::<ResponseView>(ResponseView::blank(), run + log, data);
        lemma_absorb_concat::<ResponseView>(ResponseView::blank(), run, log);
        assert forall|p: Seq<MsgView>, e: MsgView| e.encodable() implies #[trigger]
        ResponseView::step(after(p), nested_field(1, e)) == Ok::<ResponseView, DecodeError>(
            after(p.push(e)),
        ) by {
            e.lemma_round_trip();
        }
        lemma_absorb_repeated::<ResponseView, MsgView>(1, self.messages, after);
        if let Some(s) = self.log {
            lemma_text_round_trip(2, s);
            lemma_absorb_one::<ResponseView>(read, text_field(2, s));
        }
        assert(absorb::<ResponseView>(read, log) == Ok::<ResponseView, DecodeError>(logged));
        if let Some(s) = self.data {
            lemma_text_round_trip(3, s);
            lemma_absorb_one::<ResponseView>(logged, text_field(3, s));
        }
        assert(absorb::<ResponseView>(logged, data) == Ok::<ResponseView, DecodeError>(self));
    }
}

impl Response {
    /// Appends the encoding of the value to `buf`.
    pub fn encode_into(&self, buf: &mut Vec<u8>)
        ensures
            final(buf)@ == old(buf)@ + encoding(self@),
            self@.encodable(),
    {
        let ghost mut done: Seq<Field> = Seq::empty();
        proof {
            lemma_put_none(buf@);
        }
        put_msgs(1, &self.messages, buf);
        proof {
            lemma_put_run(old(buf)@, done, repeated(1, views(self.messages@)));
            done = done + repeated(1, views(self.messages@));
            assert(done =~= repeated(1, self@.messages));
        }
        if let Some(s) = &self.log {
            put_text_field(2, s.as_str(), buf);
            proof {
                lemma_put(old(buf)@, done, text_field(2, s@));
                done = done.push(text_field(2, s@));
            }
        }
        assert(done =~= repeated(1, self@.messages) + optional_text(2, self@.log));
        if let Some(s) = &self.data {
            put_text_field(3, s.as_str(), buf);
            proof {
                lemma_put(old(buf)@, done, text_field(3, s@));
                done = done.push(text_field(3, s@));
            }
        }
        assert(done =~= self@.fields());
    }

    /// The encoding of the value.
    pub fn encode(&self) -> (out: Vec<u8>)
        ensures
            out@ == encoding(self@),
            self@.encodable(),
    {
        let mut out: Vec<u8> = Vec::new();
        self.encode_into(&mut out);
        assert(out@ =~= encoding(self@));
        out
    }

    /// The value that `bytes` stand for.
    pub fn decode(bytes: &[u8]) -> (r: Result<Response, DecodeError>)
        ensures
            viewed(r) == decoding::<ResponseView>(bytes@),
    {
        match split_fields(bytes) {
            Ok(fields) => Response::gather(&fields),
            Err(e) => Err(e),
        }
    }

    /// Appends the value as a field of another message.
    pub(crate) fn encode_field(&self, tag: u64, buf: &mut Vec<u8>)
        requires
            tag <= MAX_TAG,
        ensures
            final(buf)@ == old(buf)@ + field_bytes(nested_field(tag, self@)),
            field_ok(nested_field(tag, self@)),
            self@.encodable(),
    {
        let inner = self.encode();
        put_bytes_field(tag, inner.as_slice(), buf);
    }

    /// The value that a field of another message holds.
    pub(crate) fn decode_field(v: &RawValue) -> (r: Result<Response, DecodeError>)
        ensures
            viewed(r) == as_nested::<ResponseView>(v@),
    {
        match payload_of(v) {
            Ok(b) => Response::decode(b),
            Err(e) => Err(e),
        }
    }

    /// The value that `fields` amount to.
    fn gather(fields: &Vec<RawField>) -> (r: Result<Response, DecodeError>)
        ensures
            viewed(r) == from_fields::<ResponseView>(field_views(fields@)),
    {
        let ghost fs = field_views(fields@);
        let mut messages: Vec<Msg> = Vec::new();
        let mut log: Option<String> = None;
        let mut data: Option<String> = None;
        let mut i: usize = 0;
        assert(fs.skip(0) =~= fs);
        assert(views(messages@) =~= Seq::<MsgView>::empty());
        while i < fields.len()
            invariant
                i <= fields.len(),
                fs == field_views(fields@),
                absorb::<ResponseView>(
                    ResponseView {
                        messages: views(messages@),
                        log: opt_view(log),
                        data: opt_view(data),
                    },
                    fs.skip(i as int),
                ) == absorb::<ResponseView>(ResponseView::blank(), fs),
            decreases fields.len() - i,
        {
            let f = &fields[i];
            proof {
                lemma_absorb_skip::<ResponseView>(
                    ResponseView {
                        messages: views(messages@),
                        log: opt_view(log),
                        data: opt_view(data),
                    },
                    fs,
                    i as int,
                );
            }
            if f.tag == 1 {
                match Msg::decode_field(&f.value) {
                    Ok(m) => {
                        assert(views(messages@.push(m)) =~= views(messages@).push(m@));
                        messages.push(m);
                    },
                    Err(e) => {
                        return Err(e);
                    },
                }
            } else if f.tag == 2 {
                match text_of(&f.value) {
                    Ok(s) => {
                        log = Some(s);
                    },
                    Err(e) => {
                        return Err(e);
                    },
                }
            } else if f.tag == 3 {
                match text_of(&f.value) {
                    Ok(s) => {
                        data = Some(s);
                    },
                    Err(e) => {
                        return Err(e);
                    },
                }
            }
            i += 1;
        }
        assert(fs.skip(i as int) =~= Seq::<Field>::empty());
        Ok(Response { messages, log, data })
    }
}

/// Field 1 is the response of a call that succeeded, field 2 the text of an
/// error. The last of them that the input holds is the outcome; input that
/// holds none gives an answer without an outcome. Every other field is
/// refused as an unknown variant.
impl Layout for ContractResultView {
    type Draft = ContractResultView;

    open spec fn fields(self) -> Seq<Field> {
        match self.res {
            Some(ResultView::Success(r)) => seq![nested_field(1, r)],
            Some(ResultView::Failure(text)) => seq![text_field(2, text)],
            None => Seq::empty(),
        }
    }

    open spec fn encodable(self) -> bool {
        &&& fields_ok(self.fields())
        &&& match self.res {
            Some(ResultView::Success(r)) => r.encodable(),
            _ => true,
        }
    }

    open spec fn blank() -> ContractResultView {
        ContractResultView { res: None }
    }

    open spec fn step(d: ContractResultView, f: Field) -> Result<ContractResultView, DecodeError> {
        if f.tag == 1 {
            match as_nested::<ResponseView>(f.value) {
                Ok(r) => Ok(ContractResultView { res: Some(ResultView::Success(r)) }),
                Err(e) => Err(e),
            }
        } else if f.tag == 2 {
            match as_text(f.value) {
                Ok(text) => Ok(ContractResultView { res: Some(ResultView::Failure(text)) }),
                Err(e) => Err(e),
            }
        } else {
            Err(DecodeError::UnknownVariant)
        }
    }

    open spec fn finish(d: ContractResultView) -> Result<ContractResultView, DecodeError> {
        Ok(d)
    }
}

impl Message for ContractResultView {
    proof fn lemma_finish(d: <Self as Layout>::Draft) {
    }

    proof fn lemma_round_trip(self) {
        lemma_decoding_fields::<ContractResultView>(self.fields());
        match self.res {
            Some(ResultView::Success(r)) => {
                lemma_nested_round_trip(1, r);
                lemma_absorb_one::<ContractResultView>(
                    ContractResultView::blank(),
                    nested_field(1, r),
                );
            },
            Some(ResultView::Failure(text)) => {
                lemma_text_round_trip(2, text);
                lemma_absorb_one::<ContractResultView>(
                    ContractResultView::blank(),
                    text_field(2, text),
                );
            },
            None => {},
        }
    }
}

impl ContractResult {
    /// Appends the encoding of the value to `buf`.
    pub fn encode_into(&self, buf: &mut Vec<u8>)
        ensures
            final(buf)@ == old(buf)@ + encoding(self@),
            self@.encodable(),
    {
        match &self.res {
            Some(crate::types::Result::Success(r)) => {
                r.encode_field(1, buf);
                proof {
                    lemma_fields_bytes_one(nested_field(1, r@));
                }
            },
            Some(crate::types::Result::Failure(text)) => {
                put_text_field(2, text.as_str(), buf);
                proof {
                    lemma_fields_bytes_one(text_field(2, text@));
                }
            },
            None => {
                proof {
                    lemma_put_none(buf@);
                }
            },
        }
    }

    /// The encoding of the value.
    pub fn encode(&self) -> (out: Vec<u8>)
        ensures
            out@ == encoding(self@),
            self@.encodable(),
    {
        let mut out: Vec<u8> = Vec::new();
        self.encode_into(&mut out);
        assert(out@ =~= encoding(self@));
        out
    }

    /// The value that `bytes` stand for. Input without any field gives an
    /// answer without an outcome.
    pub fn decode(bytes: &[u8]) -> (r: Result<ContractResult, DecodeError>)
        ensures
            viewed(r) == decoding::<ContractResultView>(bytes@),
    {
        match split_fields(bytes) {
            Ok(fields) => ContractResult::gather(&fields),
            Err(e) => Err(e),
        }
    }

    /// The outcome that `bytes` stand for. Input that decodes to an answer
    /// without an outcome gives `InvalidEncoding`.
    pub fn decode_outcome(bytes: &[u8]) -> (r: Result<crate::types::Result, DecodeError>)
        ensures
            viewed(r) == match decoding::<ContractResultView>(bytes@) {
                Ok(answer) => match answer.res {
                    Some(outcome) => Ok(outcome),
                    None => Err(DecodeError::InvalidEncoding),
                },
                Err(e) => Err(e),
            },
    {
        match ContractResult::decode(bytes) {
            Ok(answer) => match answer.res {
                Some(outcome) => Ok(outcome),
                None => Err(DecodeError::InvalidEncoding),
            },
            Err(e) => Err(e),
        }
    }

    /// The value that `fields` amount to.
    fn gather(fields: &Vec<RawField>) -> (r: Result<ContractResult, DecodeError>)
        ensures
            viewed(r) == from_fields::<ContractResultView>(field_views(fields@)),
    {
        let ghost fs = field_views(fields@);
        let mut res: Option<crate::types::Result> = None;
        let mut i: usize = 0;
        assert(fs.skip(0) =~= fs);
        while i < fields.len()
            invariant
                i <= fields.len(),
                fs == field_views(fields@),
                absorb::<ContractResultView>(
                    ContractResultView { res: opt_view(res) },
                    fs.skip(i as int),
                ) == absorb::<ContractResultView>(ContractResultView::blank(), fs),
            decreases fields.len() - i,
        {
            let f = &fields[i];
            proof {
                lemma_absorb_skip::<ContractResultView>(
                    ContractResultView { res: opt_view(res) },
                    fs,
                    i as int,
                );
            }
            if f.tag == 1 {
                match Response::decode_field(&f.value) {
                    Ok(r) => {
                        res = Some(crate::types::Result::Success(r));
                    },
                    Err(e) => {
                        return Err(e);
                    },
                }
            } else if f.tag == 2 {
                match text_of(&f.value) {
                    Ok(text) => {
                        res = Some(crate::types::Result::Failure(text));
                    },
                    Err(e) => {
                        return Err(e);
                    },
                }
            } else {
                return Err(DecodeError::UnknownVariant);
            }
            i += 1;
        }
        assert(fs.skip(i as int) =~= Seq::<Field>::empty());
        Ok(ContractResult { res })
    }
}

} // verus!
