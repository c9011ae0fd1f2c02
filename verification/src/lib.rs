//! A word-finding service core: a dictionary matcher with two
//! letter-availability rules, the length-delimited wire codec for its
//! requests and replies, and the per-connection state machine that ties
//! them together.

pub mod connection;
pub mod frame;
pub mod messages;
pub mod solver;
pub mod stream;
pub mod text;
pub mod varint;
pub mod wire;
