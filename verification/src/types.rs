//! The values that cross the boundary, and what each of them holds.
//!
//! Every type here is plain data. Beside each stands its view: the same
//! value with text as a sequence of characters and lists as sequences, which
//! is what the contracts of the library speak of.

use vstd::prelude::*;
use crate::error::DecodeError;

verus! {

/// An amount of one denomination.
///
/// The amount is decimal text, so that no width of integer on either side
/// of the boundary can cut it.
#[derive(Clone, Debug, PartialEq, Eq)]
pub struct Coin {
    pub denom: String,
    pub amount: String,
}

/// The chain as it stood when the call was made.
#[derive(Clone, Debug, PartialEq, Eq)]
pub struct BlockInfo {
    pub height: i64,
    /// Seconds since the start of 1970.
    pub time: i64,
    pub chain_id: String,
}

/// Who made the call, and what they sent along.
#[derive(Clone, Debug, PartialEq, Eq)]
pub struct MessageInfo {
    pub signer: String,
    pub sent_funds: Vec<Coin>,
}

/// The contract that is called, and what it owns.
#[derive(Clone, Debug, PartialEq, Eq)]
pub struct ContractInfo {
    pub address: String,
    pub balance: Vec<Coin>,
}

/// The context of a call.
#[derive(Clone, Debug, PartialEq, Eq)]
pub struct Params {
    pub block: BlockInfo,
    pub message: MessageInfo,
    pub contract: ContractInfo,
}

/// A transfer of coins between two addresses.
#[derive(Clone, Debug, PartialEq, Eq)]
pub struct SendMsg {
    pub from_address: String,
    pub to_address: String,
    pub amount: Vec<Coin>,
}

/// A call to another contract. The payload is text that only the called
/// contract reads.
#[derive(Clone, Debug, PartialEq, Eq)]
pub struct ContractMsg {
    pub contract_addr: String,
    pub msg: String,
}

/// A payload that is handed on as it came.
#[derive(Clone, Debug, PartialEq, Eq)]
pub struct OpaqueMsg {
    pub data: String,
}

/// What a contract can ask the host to do.
#[derive(Clone, Debug, PartialEq, Eq)]
pub enum CosmosMsg {
    Send(SendMsg),
    Contract(ContractMsg),
    Opaque(OpaqueMsg),
}

/// One request of a contract. On the wire the request may be missing; a
/// message that is acted on must hold one.
#[derive(Clone, Debug, PartialEq, Eq)]
pub struct Msg {
    pub msg: Option<CosmosMsg>,
}

/// What a contract hands back when it ran to its end.
#[derive(Clone, Debug, PartialEq, Eq)]
pub struct Response {
    pub messages: Vec<Msg>,
    pub log: Option<String>,
    pub data: Option<String>,
}

/// How a call ended: with a response, or with the text of an error.
#[derive(Clone, Debug, PartialEq, Eq)]
pub enum Result {
    Success(Response),
    Failure(String),
}

/// The answer to a call. On the wire the outcome may be missing; an answer
/// that is acted on must hold one.
#[derive(Clone, Debug, PartialEq, Eq)]
pub struct ContractResult {
    pub res: Option<Result>,
}

/// What a [`Coin`] holds.
pub ghost struct CoinView {
    pub denom: Seq<char>,
    pub amount: Seq<char>,
}

/// What a [`BlockInfo`] holds.
pub ghost struct BlockInfoView {
    pub height: i64,
    pub time: i64,
    pub chain_id: Seq<char>,
}

/// What a [`MessageInfo`] holds.
pub ghost struct MessageInfoView {
    pub signer: Seq<char>,
    pub sent_funds: Seq<CoinView>,
}

/// What a [`ContractInfo`] holds.
pub ghost struct ContractInfoView {
    pub address: Seq<char>,
    pub balance: Seq<CoinView>,
}

/// What a [`Params`] holds.
pub ghost struct ParamsView {
    pub block: BlockInfoView,
    pub message: MessageInfoView,
    pub contract: ContractInfoView,
}

/// What a [`SendMsg`] holds.
pub ghost struct SendMsgView {
    pub from_address: Seq<char>,
    pub to_address: Seq<char>,
    pub amount: Seq<CoinView>,
}

/// What a [`ContractMsg`] holds.
pub ghost struct ContractMsgView {
    pub contract_addr: Seq<char>,
    pub msg: Seq<char>,
}

/// What an [`OpaqueMsg`] holds.
pub ghost struct OpaqueMsgView {
    pub data: Seq<char>,
}

/// What a [`CosmosMsg`] holds.
pub ghost enum CosmosMsgView {
    Send(SendMsgView),
    Contract(ContractMsgView),
    Opaque(OpaqueMsgView),
}

/// What a [`Msg`] holds.
pub ghost struct MsgView {
    pub msg: Option<CosmosMsgView>,
}

/// What a [`Response`] holds.
pub ghost struct ResponseView {
    pub messages: Seq<MsgView>,
    pub log: Option<Seq<char>>,
    pub data: Option<Seq<char>>,
}

/// What a [`Result`] holds.
pub ghost enum ResultView {
    Success(ResponseView),
    Failure(Seq<char>),
}

/// What a [`ContractResult`] holds.
pub ghost struct ContractResultView {
    pub res: Option<ResultView>,
}

/// What each item of a list holds.
pub open spec fn views<T: View>(items: Seq<T>) -> Seq<T::V> {
    items.map_values(|t: T| t@)
}

/// What a value that may be missing holds.
pub open spec fn opt_view<T: View>(item: Option<T>) -> Option<T::V> {
    match item {
        Some(t) => Some(t@),
        None => None,
    }
}

impl View for Coin {
    type V = CoinView;

    open spec fn view(&self) -> CoinView {
        CoinView { denom: self.denom@, amount: self.amount@ }
    }
}

impl View for BlockInfo {
    type V = BlockInfoView;

    open spec fn view(&self) -> BlockInfoView {
        BlockInfoView { height: self.height, time: self.time, chain_id: self.chain_id@ }
    }
}

impl View for MessageInfo {
    type V = MessageInfoView;

    open spec fn view(&self) -> MessageInfoView {
        MessageInfoView { signer: self.signer@, sent_funds: views(self.sent_funds@) }
    }
}

impl View for ContractInfo {
    type V = ContractInfoView;

    open spec fn view(&self) -> ContractInfoView {
        ContractInfoView { address: self.address@, balance: views(self.balance@) }
    }
}

impl View for Params {
    type V = ParamsView;

    open spec fn view(&self) -> ParamsView {
        ParamsView { block: self.block@, message: self.message@, contract: self.contract@ }
    }
}

impl View for SendMsg {
    type V = SendMsgView;

    open spec fn view(&self) -> SendMsgView {
        SendMsgView {
            from_address: self.from_address@,
            to_address: self.to_address@,
            amount: views(self.amount@),
        }
    }
}

impl View for ContractMsg {
    type V = ContractMsgView;

    open spec fn view(&self) -> ContractMsgView {
        ContractMsgView { contract_addr: self.contract_addr@, msg: self.msg@ }
    }
}

impl View for OpaqueMsg {
    type V = OpaqueMsgView;

    open spec fn view(&self) -> OpaqueMsgView {
        OpaqueMsgView { data: self.data@ }
    }
}

impl View for CosmosMsg {
    type V = CosmosMsgView;

    open spec fn view(&self) -> CosmosMsgView {
        match self {
            CosmosMsg::Send(m) => CosmosMsgView::Send(m@),
            CosmosMsg::Contract(m) => CosmosMsgView::Contract(m@),
            CosmosMsg::Opaque(m) => CosmosMsgView::Opaque(m@),
        }
    }
}

impl View for Msg {
    type V = MsgView;

    open spec fn view(&self) -> MsgView {
        MsgView { msg: opt_view(self.msg) }
    }
}

impl View for Response {
    type V = ResponseView;

    open spec fn view(&self) -> ResponseView {
        ResponseView {
            messages: views(self.messages@),
            log: opt_view(self.log),
            data: opt_view(self.data),
        }
    }
}

impl View for Result {
    type V = ResultView;

    open spec fn view(&self) -> ResultView {
        match self {
            Result::Success(r) => ResultView::Success(r@),
            Result::Failure(text) => ResultView::Failure(text@),
        }
    }
}

impl View for ContractResult {
    type V = ContractResultView;

    open spec fn view(&self) -> ContractResultView {
        ContractResultView { res: opt_view(self.res) }
    }
}

impl CoinView {
    /// Whether the coin is one that the schema means: the denomination is not
    /// empty, and the amount is one or more decimal digits.
    pub open spec fn well_formed(self) -> bool {
        &&& self.denom.len() > 0
        &&& self.amount.len() > 0
        &&& forall|i: int| 0 <= i < self.amount.len() ==> is_digit(#[trigger] self.amount[i])
    }
}

/// Whether `c` is one of the ten decimal digits.
pub open spec fn is_digit(c: char) -> bool {
    '0' <= c <= '9'
}

impl Coin {
    /// Whether the coin is well formed. Neither encoding nor decoding asks
    /// for it: both carry any text.
    pub fn is_well_formed(&self) -> (ok: bool)
        ensures
            ok == self@.well_formed(),
    {
        let amount = self.amount.as_str();
        if self.denom.as_str().is_empty() || amount.is_empty() {
            return false;
        }
        if !amount.is_ascii() {
            assert(!self@.well_formed()) by {
                if self@.well_formed() {
                    assert forall|i: int| 0 <= i < amount@.len() implies '\0' <= #[trigger]
                    amount@[i] <= '\u{7f}' by {
                        assert(is_digit(amount@[i]));
                    }
                }
            }
            return false;
        }
        let bytes = amount.as_bytes();
        proof {
            vstd::utf8::is_ascii_chars_encode_utf8(amount@);
            assert forall|j: int| 0 <= j < bytes@.len() implies bytes@[j] as int == (
            #[trigger] amount@[j]) as int by {
                assert('\0' <= amount@[j] <= '\u{7f}');
                assert(amount@[j] as u8 == bytes@[j]);
            }
        }
        let mut i: usize = 0;
        while i < bytes.len()
            invariant
                i <= bytes@.len(),
                bytes@.len() == amount@.len(),
                amount@ == self@.amount,
                self@.denom.len() > 0,
                forall|j: int|
                    0 <= j < bytes@.len() ==> bytes@[j] as int == (#[trigger] amount@[j]) as int,
                forall|j: int| 0 <= j < i ==> is_digit(#[trigger] amount@[j]),
            decreases bytes@.len() - i,
        {
            let b: u8 = bytes[i];
            if b < 0x30 || b > 0x39 {
                assert(!is_digit(self@.amount[i as int]));
                return false;
            }
            i += 1;
        }
        true
    }
}

impl Msg {
    /// The request that the message holds. A message without one is not to
    /// be acted on: it gives `InvalidEncoding`.
    pub fn request(&self) -> (r: core::result::Result<&CosmosMsg, DecodeError>)
        ensures
            match r {
                Ok(m) => self.msg == Some(*m),
                Err(e) => self.msg is None && e == DecodeError::InvalidEncoding,
            },
    {
        match &self.msg {
            Some(m) => Ok(m),
            None => Err(DecodeError::InvalidEncoding),
        }
    }
}

impl Response {
    /// The requests of the response, in their order. A response that holds
    /// a message without a request is not to be acted on: it gives
    /// `InvalidEncoding`.
    pub fn requests(&self) -> (r: core::result::Result<Vec<&CosmosMsg>, DecodeError>)
        ensures
            match r {
                Ok(requests) => {
                    &&& requests@.len() == self.messages@.len()
                    &&& forall|i: int|
                        0 <= i < requests@.len() ==> self.messages@[i].msg == Some(*requests@[i])
                },
                Err(e) => {
                    &&& e == DecodeError::InvalidEncoding
                    &&& exists|i: int|
                        0 <= i < self.messages@.len() && self.messages@[i].msg is None
                },
            },
    {
        let mut requests: Vec<&CosmosMsg> = Vec::new();
        let mut i: usize = 0;
        while i < self.messages.len()
            invariant
                i <= self.messages@.len(),
                requests@.len() == i,
                forall|j: int| 0 <= j < i ==> self.messages@[j].msg == Some(*requests@[j]),
            decreases self.messages@.len() - i,
        {
            match self.messages[i].request() {
                Ok(request) => {
                    requests.push(request);
                },
                Err(e) => {
                    return Err(e);
                },
            }
            i += 1;
        }
        Ok(requests)
    }
}

impl ContractResult {
    /// The outcome that the answer holds. An answer without one is not to be
    /// acted on: it gives `InvalidEncoding`.
    pub fn outcome(&self) -> (r: core::result::Result<&Result, DecodeError>)
        ensures
            match r {
                Ok(res) => self.res == Some(*res),
                Err(e) => self.res is None && e == DecodeError::InvalidEncoding,
            },
    {
        match &self.res {
            Some(res) => Ok(res),
            None => Err(DecodeError::InvalidEncoding),
        }
    }

    /// The response of a call that succeeded. Only for an answer that is
    /// known to hold one; [`ContractResult::outcome`] is for any answer.
    pub fn unwrap(self) -> (response: Response)
        requires
            self.res matches Some(Result::Success(_)),
        ensures
            self.res == Some(Result::Success(response)),
    {
        match self.res {
            Some(Result::Success(response)) => response,
            _ => vstd::pervasive::unreached(),
        }
    }

    /// Whether the call failed. Only for an answer that holds an outcome;
    /// [`ContractResult::outcome`] is for any answer.
    pub fn is_err(&self) -> (failed: bool)
        requires
            self.res is Some,
        ensures
            failed == (self.res matches Some(Result::Failure(_))),
    {
        match &self.res {
            Some(Result::Failure(_)) => true,
            Some(Result::Success(_)) => false,
            None => vstd::pervasive::unreached(),
        }
    }
}

/// A copy of `coins`.
fn copy_coins(coins: &[Coin]) -> (out: Vec<Coin>)
    ensures
        views(out@) == views(coins@),
{
    let mut out: Vec<Coin> = Vec::new();
    let mut i: usize = 0;
    while i < coins.len()
        invariant
            i <= coins@.len(),
            views(out@) == views(coins@.take(i as int)),
        decreases coins@.len() - i,
    {
        let c = &coins[i];
        let copy = Coin { denom: c.denom.clone(), amount: c.amount.clone() };
        assert(copy@ == coins@[i as int]@);
        assert(coins@.take(i + 1) =~= coins@.take(i as int).push(coins@[i as int]));
        assert(views(out@.push(copy)) =~= views(out@).push(copy@));
        assert(views(coins@.take(i + 1)) =~= views(coins@.take(i as int)).push(
            coins@[i as int]@,
        ));
        out.push(copy);
        i += 1;
    }
    assert(coins@.take(i as int) =~= coins@);
    out
}

/// A call context for tests: the signer, what was sent and what the
/// contract owns are as given, the rest is fixed.
pub fn mock_params(signer: &str, sent: &[Coin], balance: &[Coin]) -> (params: Params)
    ensures
        params@ == (ParamsView {
            block: BlockInfoView {
                height: 12_345,
                time: 1_571_797_419,
                chain_id: "cosmos-testnet-14002"@,
            },
            message: MessageInfoView { signer: signer@, sent_funds: views(sent@) },
            contract: ContractInfoView { address: "cosmos2contract"@, balance: views(balance@) },
        }),
{
    Params {
        block: BlockInfo {
            height: 12_345,
            time: 1_571_797_419,
            chain_id: "cosmos-testnet-14002".to_owned(),
        },
        message: MessageInfo { signer: signer.to_owned(), sent_funds: copy_coins(sent) },
        contract: ContractInfo {
            address: "cosmos2contract".to_owned(),
            balance: copy_coins(balance),
        },
    }
}

/// A list of one coin.
pub fn coin(amount: &str, denom: &str) -> (coins: Vec<Coin>)
    ensures
        views(coins@) == seq![CoinView { denom: denom@, amount: amount@ }],
{
    let coins = vec![Coin { amount: amount.to_owned(), denom: denom.to_owned() }];
    assert(views(coins@) =~= seq![CoinView { denom: denom@, amount: amount@ }]);
    coins
}

} // verus!
