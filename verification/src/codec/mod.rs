//! The layout of each message.

pub mod coin;
pub mod context;
pub mod msg;
pub mod result;
