//! Information about a peer.

use crate::peer_addr::PeerAddr;
use crate::peer_source::PeerSource;
use crate::peer_state::PeerState;
use crate::stats::Stats;
use vstd::prelude::*;

verus! {

/// Information about a peer.
#[derive(Clone, Copy, PartialEq, Eq, Debug)]
pub struct PeerInfo {
    pub addr: PeerAddr,
    pub source: PeerSource,
    pub state: PeerState,
    pub stats: Stats,
}

} // verus!
