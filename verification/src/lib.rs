//! A verified core of a Redis-style protocol server: the wire-frame codec,
//! the command model with its dispatch rules, the per-connection
//! subscription engine, and the cooperative shutdown protocol.

pub mod cmd;
pub mod digits;
pub mod frame;
pub mod parse;
pub mod shutdown;

pub use cmd::Command;
pub use frame::Frame;
