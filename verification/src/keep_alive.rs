//! Keep-alive messages: empty messages on the all-zero channel, sent when nothing else was sent
//! for a while, and skipped by the receiver.

use crate::message_io::Message;
use vstd::prelude::*;

verus! {

/// Whether the message is a keep-alive: all-zero id and no content.
pub open spec fn spec_is_keep_alive(message: Message) -> bool {
    message.id@ == Seq::new(32, |i: int| 0u8) && message.content@.len() == 0
}

/// Whether the message is a keep-alive (to be skipped by the receiver).
pub fn is_keep_alive(message: &Message) -> (r: bool)
    ensures
        r == spec_is_keep_alive(*message),
{
    if message.content.len() != 0 {
        return false;
    }
    let mut i: usize = 0;
    while i < 32
        invariant
            i <= 32,
            message.id@.len() == 32,
            forall|j: int| 0 <= j < i ==> message.id@[j] == 0u8,
        decreases 32 - i,
    {
        if message.id[i] != 0 {
            return false;
        }
        i = i + 1;
    }
    assert(message.id@ =~= Seq::new(32, |i: int| 0u8));
    true
}

/// The keep-alive message.
pub fn keep_alive_message() -> (r: Message)
    ensures
        spec_is_keep_alive(r),
{
    let r = Message { id: [0u8; 32], content: Vec::new() };
    assert(r.id@ =~= Seq::new(32, |i: int| 0u8));
    r
}

} // verus!
