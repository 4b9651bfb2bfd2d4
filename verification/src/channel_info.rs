//! What identifies a channel between two replicas, for diagnostics.

use crate::content_channel::ChannelId;
use crate::protocol::RuntimeId;
use vstd::prelude::*;

verus! {

#[derive(Clone, Copy, PartialEq, Eq, Debug)]
pub struct ChannelInfo {
    pub channel: ChannelId,
    pub this_runtime_id: RuntimeId,
    pub that_runtime_id: RuntimeId,
}

impl ChannelInfo {
    pub fn new(channel: ChannelId, this_runtime_id: RuntimeId, that_runtime_id: RuntimeId) -> (r: Self)
        ensures
            r.channel == channel,
            r.this_runtime_id == this_runtime_id,
            r.that_runtime_id == that_runtime_id,
    {
        ChannelInfo { channel, this_runtime_id, that_runtime_id }
    }
}

} // verus!
