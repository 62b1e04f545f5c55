//! What is said to the manager of flows, and how it is framed.
//!
//! A message is four bytes that hold its length, the highest first, and then
//! the message. The manager answers a connect with a frame of its own, whose
//! four bytes of message are the number of the flow.

use crate::state::Mortise;
use vstd::prelude::*;

verus! {

/// Bytes in a length or in the number of a flow.
pub const WORD: usize = 4;

/// A request to the manager of flows.
#[derive(Clone, Copy, Debug)]
pub enum FlowOperation<'a> {
    /// The connection with this trace id begins.
    Connect(&'a str),

    /// The connection with this trace id ends.
    Disconnect(&'a str),
}

impl<'a> FlowOperation<'a> {
    /// The request that begins the connection `connection_trace_id`.
    pub fn connect(connection_trace_id: &'a str) -> (result: FlowOperation<'a>)
        ensures
            result == FlowOperation::Connect(connection_trace_id),
    {
        FlowOperation::Connect(connection_trace_id)
    }
}

impl Mortise {
    /// The request that ends the connection.
    pub fn disconnect(&self) -> (result: FlowOperation<'_>)
        ensures
            result matches FlowOperation::Disconnect(id) && id@ == self.connection_trace_id@,
    {
        FlowOperation::Disconnect(self.connection_trace_id.as_str())
    }
}

/// The four bytes of `n`, the highest first.
pub open spec fn word_bytes(n: int) -> Seq<u8> {
    seq![
        (n / 0x100_0000 % 0x100) as u8,
        (n / 0x1_0000 % 0x100) as u8,
        (n / 0x100 % 0x100) as u8,
        (n % 0x100) as u8,
    ]
}

/// The number that four bytes hold, the highest first.
pub open spec fn word_value(bytes: Seq<u8>) -> int {
    bytes[0] * 0x100_0000 + bytes[1] * 0x1_0000 + bytes[2] * 0x100 + bytes[3]
}

/// The frame of a message: its length, of which the lower 32 bits are kept, and
/// the message.
pub open spec fn framed(message: Seq<u8>) -> Seq<u8> {
    word_bytes(message.len() as int % 0x1_0000_0000) + message
}

/// The frame of `payload`.
pub fn frame(payload: &Vec<u8>) -> (result: Vec<u8>)
    ensures
        result@ == framed(payload@),
{
    let len: u64 = payload.len() as u64 % 0x1_0000_0000;
    let mut result: Vec<u8> = Vec::new();
    result.push((len / 0x100_0000 % 0x100) as u8);
    result.push((len / 0x1_0000 % 0x100) as u8);
    result.push((len / 0x100 % 0x100) as u8);
    result.push((len % 0x100) as u8);
    assert(result@ == word_bytes(payload@.len() as int % 0x1_0000_0000));
    let mut i: usize = 0;
    while i < payload.len()
        invariant
            i <= payload.len(),
            result@ == word_bytes(payload@.len() as int % 0x1_0000_0000) + payload@.take(i as int),
        decreases payload.len() - i,
    {
        result.push(payload[i]);
        i += 1;
        assert(payload@.take(i as int) == payload@.take(i - 1).push(payload@[i - 1]));
    }
    assert(payload@.take(i as int) == payload@);
    result
}

/// The number of the flow that the manager has answered with.
pub fn flow_id(answer: [u8; 4]) -> (result: u32)
    ensures
        result == word_value(answer@),
        result == 0x100_0000 * answer@[0] + 0x1_0000 * answer@[1] + 0x100 * answer@[2] + answer@[3],
{
    answer[0] as u32 * 0x100_0000 + answer[1] as u32 * 0x1_0000 + answer[2] as u32 * 0x100
        + answer[3] as u32
}

/// The bytes of a number of 32 bits hold that number.
pub proof fn law_word_round_trip(n: int)
    requires
        0 <= n < 0x1_0000_0000,
    ensures
        word_bytes(n).len() == WORD,
        word_value(word_bytes(n)) == n,
{
}

/// A frame can be taken apart again: of a message of less than 4 GiB the first
/// four bytes hold the length, and what follows is the message.
pub proof fn law_frame_round_trip(message: Seq<u8>)
    requires
        message.len() < 0x1_0000_0000,
    ensures
        framed(message).len() == WORD + message.len(),
        word_value(framed(message).take(WORD as int)) == message.len(),
        framed(message).skip(WORD as int) == message,
{
    law_word_round_trip(message.len() as int);
    assert(framed(message).take(WORD as int) == word_bytes(message.len() as int));
}

} // verus!
