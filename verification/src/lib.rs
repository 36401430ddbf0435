//! Core of a Snowball consensus engine: the per-node decision state machine,
//! peer-message codec, configuration parsing, and timing helpers.
//!
//! The node logic is pure: handlers take the current state together with the
//! inbound event and the current time, mutate the state, and emit a list of
//! outbound actions (messages to send, blocks to commit or fail). A thin
//! driver owns the clock, the transport and the validator connection.

pub mod codec;
pub mod config;
pub mod ids;
pub mod message;
pub mod node;
pub mod state;
pub mod timing;
