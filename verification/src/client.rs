//! The client side of a repository's exchange with one peer: how received responses are sorted
//! into batches before they are applied to the store.
//!
//! Responses that need write access to the store, and block offers that depend on a block
//! referenced by leaf nodes received earlier in the same batch, go to the writable batch, in the
//! order they came. Other block offers need only read access and go to the readable batch.
//! Error responses fail the matching request at the request tracker; choke and unchoke are
//! passed to it too. A batch is applied once either list holds `RESPONSE_BATCH_SIZE` responses
//! or no more responses are waiting.

use crate::message::{BlockId, MessageKey, PublicKey};
use std::sync::atomic::AtomicU64;
use vstd::prelude::*;

verus! {

/// Max number of responses to process in a single batch (that is, in a single db write
/// transaction).
pub const RESPONSE_BATCH_SIZE: usize = 1024;

/// A received response, its store payload (`P`) and diagnostics (`D`) carried as they are.
pub enum PreparedResponse<P, D> {
    RootNode { payload: P, writer_id: PublicKey, cookie: u64, debug: D },
    RootNodeError { writer_id: PublicKey, cookie: u64, debug: D },
    InnerNodes(P, crate::message::Hash, D),
    /// Leaf nodes, with the blocks they reference.
    LeafNodes(P, crate::message::Hash, Vec<BlockId>, D),
    ChildNodesError(crate::message::Hash, D),
    Block(P, BlockId, D),
    BlockOffer(BlockId, D),
    BlockError(BlockId, D),
    Choke,
    Unchoke,
}

impl<P, D> PreparedResponse<P, D> {
    /// The key of the request this response answers (`Other` for unsolicited ones).
    pub fn key(&self) -> (r: MessageKey)
        ensures
            r == match *self {
                PreparedResponse::RootNode { writer_id, cookie, .. } => MessageKey::RootNode(writer_id, cookie),
                PreparedResponse::RootNodeError { writer_id, cookie, .. } => MessageKey::RootNode(writer_id, cookie),
                PreparedResponse::InnerNodes(_, h, _) => MessageKey::ChildNodes(h),
                PreparedResponse::LeafNodes(_, h, _, _) => MessageKey::ChildNodes(h),
                PreparedResponse::ChildNodesError(h, _) => MessageKey::ChildNodes(h),
                PreparedResponse::Block(_, id, _) => MessageKey::Block(id),
                PreparedResponse::BlockError(id, _) => MessageKey::Block(id),
                _ => MessageKey::Other,
            },
    {
        match self {
            PreparedResponse::RootNode { writer_id, cookie, .. } => MessageKey::RootNode(*writer_id, *cookie),
            PreparedResponse::RootNodeError { writer_id, cookie, .. } => MessageKey::RootNode(*writer_id, *cookie),
            PreparedResponse::InnerNodes(_, h, _) => MessageKey::ChildNodes(*h),
            PreparedResponse::LeafNodes(_, h, _, _) => MessageKey::ChildNodes(*h),
            PreparedResponse::ChildNodesError(h, _) => MessageKey::ChildNodes(*h),
            PreparedResponse::Block(_, id, _) => MessageKey::Block(*id),
            PreparedResponse::BlockError(id, _) => MessageKey::Block(*id),
            PreparedResponse::BlockOffer(..) | PreparedResponse::Choke | PreparedResponse::Unchoke => MessageKey::Other,
        }
    }
}

/// A response to apply with write access to the store.
pub enum WritableResponse<P, D> {
    RootNode { payload: P, writer_id: PublicKey, cookie: u64, debug: D },
    InnerNodes(P, D),
    LeafNodes(P, D),
    Block(P, D),
    BlockOffer(BlockId, D),
}

/// What the request tracker is to be told about a response.
#[derive(Clone, Copy, PartialEq, Eq, Debug)]
pub enum TrackerSignal {
    /// The request with this key failed.
    Failure(MessageKey),
    Choke,
    Unchoke,
}

/// The responses of a batch, sorted by the access they need.
pub struct ResponseBatch<P, D> {
    pub writable: Vec<WritableResponse<P, D>>,
    pub readable: Vec<(BlockId, D)>,
    pub block_references: Vec<BlockId>,
    pub count: u32,
}

impl<P, D> ResponseBatch<P, D> {
    pub fn new() -> (r: Self)
        ensures
            r.writable@.len() == 0,
            r.readable@.len() == 0,
            r.block_references@.len() == 0,
            r.count == 0,
    {
        ResponseBatch { writable: Vec::new(), readable: Vec::new(), block_references: Vec::new(), count: 0 }
    }

    /// Whether one of the lists is full, so that the batch is to be applied now.
    pub fn is_full(&self) -> (r: bool)
        ensures
            r == (self.writable@.len() >= RESPONSE_BATCH_SIZE || self.readable@.len() >= RESPONSE_BATCH_SIZE),
    {
        self.writable.len() >= RESPONSE_BATCH_SIZE || self.readable.len() >= RESPONSE_BATCH_SIZE
    }

    fn references(&self, block_id: &BlockId) -> (r: bool)
        ensures
            r == self.block_references@.contains(*block_id),
    {
        let mut i: usize = 0;
        while i < self.block_references.len()
            invariant
                i <= self.block_references@.len(),
                forall|j: int| 0 <= j < i ==> self.block_references@[j] != *block_id,
            decreases self.block_references@.len() - i,
        {
            if crate::message::bytes32_eq(&self.block_references[i].0, &block_id.0) {
                return true;
            }
            i = i + 1;
        }
        false
    }

    /// Sorts a received response into the batch. Returns what the request tracker is to be
    /// told, for error responses and choke/unchoke; those go into no list.
    pub fn add(&mut self, response: PreparedResponse<P, D>) -> (r: Option<TrackerSignal>)
        requires
            old(self).count < u32::MAX,
        ensures
            final(self).count == old(self).count + 1,
            match response {
                PreparedResponse::RootNodeError { writer_id, cookie, .. } => r == Some(
                    TrackerSignal::Failure(MessageKey::RootNode(writer_id, cookie)),
                ),
                PreparedResponse::ChildNodesError(h, _) => r == Some(TrackerSignal::Failure(MessageKey::ChildNodes(h))),
                PreparedResponse::BlockError(id, _) => r == Some(TrackerSignal::Failure(MessageKey::Block(id))),
                PreparedResponse::Choke => r == Some(TrackerSignal::Choke),
                PreparedResponse::Unchoke => r == Some(TrackerSignal::Unchoke),
                _ => r is None,
            },
            r is Some ==> final(self).writable@ == old(self).writable@ && final(self).readable@ == old(self).readable@
                && final(self).block_references@ == old(self).block_references@,
            match response {
                PreparedResponse::BlockOffer(id, d) => if old(self).block_references@.contains(id) {
                    final(self).writable@ == old(self).writable@.push(WritableResponse::BlockOffer(id, d))
                        && final(self).readable@ == old(self).readable@
                } else {
                    final(self).readable@ == old(self).readable@.push((id, d)) && final(self).writable@
                        == old(self).writable@
                },
                PreparedResponse::LeafNodes(p, _, blocks, d) => final(self).writable@ == old(self).writable@.push(
                    WritableResponse::LeafNodes(p, d),
                ) && final(self).block_references@ == old(self).block_references@ + blocks@,
                PreparedResponse::RootNode { payload, writer_id, cookie, debug } => final(self).writable@
                    == old(self).writable@.push(WritableResponse::RootNode { payload, writer_id, cookie, debug }),
                PreparedResponse::InnerNodes(p, _, d) => final(self).writable@ == old(self).writable@.push(
                    WritableResponse::InnerNodes(p, d),
                ),
                PreparedResponse::Block(p, _, d) => final(self).writable@ == old(self).writable@.push(
                    WritableResponse::Block(p, d),
                ),
                _ => true,
            },
            !(response is LeafNodes) ==> final(self).block_references@ == old(self).block_references@,
            !(response is BlockOffer) ==> final(self).readable@ == old(self).readable@,
    {
        self.count = self.count + 1;
        match response {
            PreparedResponse::RootNode { payload, writer_id, cookie, debug } => {
                self.writable.push(WritableResponse::RootNode { payload, writer_id, cookie, debug });
                None
            },
            PreparedResponse::InnerNodes(p, _, d) => {
                self.writable.push(WritableResponse::InnerNodes(p, d));
                None
            },
            PreparedResponse::LeafNodes(p, _, blocks, d) => {
                let mut i: usize = 0;
                let ghost before = self.block_references@;
                while i < blocks.len()
                    invariant
                        i <= blocks@.len(),
                        self.block_references@ == before + blocks@.take(i as int),
                        self.count == old(self).count + 1,
                        self.writable@ == old(self).writable@,
                        self.readable@ == old(self).readable@,
                    decreases blocks@.len() - i,
                {
                    self.block_references.push(blocks[i]);
                    proof {
                        assert(blocks@.take(i + 1) =~= blocks@.take(i as int).push(blocks@[i as int]));
                    }
                    i = i + 1;
                }
                assert(blocks@.take(blocks@.len() as int) =~= blocks@);
                self.writable.push(WritableResponse::LeafNodes(p, d));
                None
            },
            PreparedResponse::Block(p, _, d) => {
                self.writable.push(WritableResponse::Block(p, d));
                None
            },
            PreparedResponse::BlockOffer(id, d) => {
                if self.references(&id) {
                    self.writable.push(WritableResponse::BlockOffer(id, d));
                } else {
                    self.readable.push((id, d));
                }
                None
            },
            PreparedResponse::RootNodeError { writer_id, cookie, .. } => Some(
                TrackerSignal::Failure(MessageKey::RootNode(writer_id, cookie)),
            ),
            PreparedResponse::ChildNodesError(h, _) => Some(TrackerSignal::Failure(MessageKey::ChildNodes(h))),
            PreparedResponse::BlockError(id, _) => Some(TrackerSignal::Failure(MessageKey::Block(id))),
            PreparedResponse::Choke => Some(TrackerSignal::Choke),
            PreparedResponse::Unchoke => Some(TrackerSignal::Unchoke),
        }
    }

    /// Hands out the batch's lists for processing and starts the next batch.
    pub fn take(&mut self) -> (r: (Vec<WritableResponse<P, D>>, Vec<(BlockId, D)>))
        ensures
            r.0@ == old(self).writable@,
            r.1@ == old(self).readable@,
            final(self).writable@.len() == 0,
            final(self).readable@.len() == 0,
            final(self).block_references@.len() == 0,
            final(self).count == 0,
    {
        let mut writable: Vec<WritableResponse<P, D>> = Vec::new();
        let mut readable: Vec<(BlockId, D)> = Vec::new();
        std::mem::swap(&mut writable, &mut self.writable);
        std::mem::swap(&mut readable, &mut self.readable);
        self.block_references = Vec::new();
        self.count = 0;
        (writable, readable)
    }
}

/// Cookie for the next `RootNode` request, from the process-wide counter, which it advances.
/// It is never zero (zero marks unsolicited responses): a zero drawn from the counter is skipped.
/// (The counter is shared between threads, so what it gives is not known here.)
pub fn next_root_node_cookie(counter: &AtomicU64) -> (r: u64)
    ensures
        r != 0,
{
    let next = counter.fetch_add(1, std::sync::atomic::Ordering::Relaxed);
    if next != 0 {
        return next;
    }
    let mut tries: u64 = 0;
    while tries < u64::MAX
        decreases u64::MAX - tries,
    {
        let next = counter.fetch_add(1, std::sync::atomic::Ordering::Relaxed);
        if next != 0 {
            return next;
        }
        tries = tries + 1;
    }
    1
}

} // verus!
