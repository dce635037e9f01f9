//! Binary interchange schema between a host and the contracts it runs.
//!
//! The host hands a contract its call context ([`Params`]); the contract
//! answers with a [`ContractResult`] that either carries a [`Response`] with
//! the messages it wants dispatched, or the text of an error.
//!
//! Every value is written as a run of tagged fields ([`wire`]) that hold
//! text, integers or other values ([`value`]), and every type says which
//! fields it is made of ([`codec`]). The functions `encode` and `decode` of
//! each type are proved against one mathematical account of the format
//! ([`message`]), of which [`laws`] states what follows: decoding an encoding
//! gives the value back, and an encoding cut inside a field is refused.

pub mod codec;
pub mod error;
pub mod laws;
pub mod message;
pub mod types;
pub mod value;
pub mod varint;
pub mod wire;

pub use error::DecodeError;
pub use types::{
    coin, mock_params, BlockInfo, Coin, ContractInfo, ContractMsg, ContractResult, CosmosMsg,
    MessageInfo, Msg, OpaqueMsg, Params, Response, Result, SendMsg,
};
