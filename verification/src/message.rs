//! Wire representation of peer messages.

use vstd::prelude::*;

verus! {

/// The kind of a peer message. On the wire it travels as its lower-case
/// name, both in the transport-level type tag and in the payload's
/// `message_type` field, which must agree.
#[derive(Clone, Copy, Debug, PartialEq, Eq, Structural)]
pub enum MessageKind {
    Request,
    Response,
    Unavailable,
    Undefined,
}

/// Payload of a peer message. The nonce is fresh per message, to defeat
/// replay deduplication at the transport layer.
pub struct SnowballMessage {
    pub message_type: MessageKind,
    pub seq_num: u64,
    pub vote: u8,
    pub nonce: Vec<u8>,
}

impl SnowballMessage {
    pub fn new() -> (r: SnowballMessage)
        ensures
            r.message_type == MessageKind::Undefined,
            r.seq_num == 0,
            r.vote == 0,
            r.nonce@ == Seq::<u8>::empty(),
    {
        SnowballMessage {
            message_type: MessageKind::Undefined,
            seq_num: 0,
            vote: 0,
            nonce: Vec::new(),
        }
    }
}

/// A summary of the node's progress, for periodic reporting.
pub struct LogMessage {
    pub seq_num: u64,
    pub n_messages: u64,
    pub n_members: u64,
    pub elapsed_time: u128,
    pub block_id: String,
    pub alfa: u64,
    pub beta: u64,
    pub k: u64,
}

impl LogMessage {
    pub fn new() -> (r: LogMessage)
        ensures
            r.seq_num == 0,
            r.n_messages == 0,
            r.n_members == 0,
            r.elapsed_time == 0,
            r.block_id@ == Seq::<char>::empty(),
            r.alfa == 0,
            r.beta == 0,
            r.k == 0,
    {
        LogMessage {
            seq_num: 0,
            n_messages: 0,
            n_members: 0,
            elapsed_time: 0,
            block_id: String::new(),
            alfa: 0,
            beta: 0,
            k: 0,
        }
    }
}

} // verus!
