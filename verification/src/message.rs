//! Requests exchanged between replicas, and the keys by which they and their responses are
//! matched.

use crate::clock::instant_eq;
use crate::debug_payload::DebugRequest;
use vstd::prelude::*;

verus! {

/// Whether two byte strings of length 32 are equal.
pub fn bytes32_eq(a: &[u8; 32], b: &[u8; 32]) -> (r: bool)
    ensures
        r == (*a == *b),
{
    let mut i: usize = 0;
    while i < 32
        invariant
            i <= 32,
            a@.len() == 32,
            b@.len() == 32,
            forall|j: int| 0 <= j < i ==> a@[j] == b@[j],
        decreases 32 - i,
    {
        if a[i] != b[i] {
            return false;
        }
        i = i + 1;
    }
    assert(a@ =~= b@);
    proof {
        vstd::array::axiom_array_ext_equal(*a, *b);
    }
    true
}

/// Whether two byte strings of length 16 are equal.
pub fn bytes16_eq(a: &[u8; 16], b: &[u8; 16]) -> (r: bool)
    ensures
        r == (*a == *b),
{
    let mut i: usize = 0;
    while i < 16
        invariant
            i <= 16,
            a@.len() == 16,
            b@.len() == 16,
            forall|j: int| 0 <= j < i ==> a@[j] == b@[j],
        decreases 16 - i,
    {
        if a[i] != b[i] {
            return false;
        }
        i = i + 1;
    }
    assert(a@ =~= b@);
    proof {
        vstd::array::axiom_array_ext_equal(*a, *b);
    }
    true
}

/// Public signing key of a replica (the writer of a branch).
#[derive(Clone, Copy, Eq, PartialEq, Hash, Debug, PartialOrd, Ord)]
pub struct PublicKey(pub [u8; 32]);

/// Hash of an index node.
#[derive(Clone, Copy, Eq, PartialEq, Hash, Debug, PartialOrd, Ord)]
pub struct Hash(pub [u8; 32]);

/// Id of a block.
#[derive(Clone, Copy, Eq, PartialEq, Hash, Debug, PartialOrd, Ord)]
pub struct BlockId(pub [u8; 32]);

/// Summary of which blocks of an index subtree are present on a replica.
#[derive(Clone, Copy, Eq, PartialEq, Hash, Debug)]
pub enum MultiBlockPresence {
    /// No block is present.
    Absent,
    /// Some blocks are present; the checksum identifies which.
    Partial([u8; 16]),
    /// All blocks are present.
    Full,
}

/// The checksum of a block presence: zeros for `Absent`, the stored checksum for `Partial`, and
/// all-ones for `Full`.
pub open spec fn presence_checksum(p: MultiBlockPresence) -> Seq<u8> {
    match p {
        MultiBlockPresence::Absent => Seq::new(16, |i: int| 0u8),
        MultiBlockPresence::Partial(c) => c@,
        MultiBlockPresence::Full => Seq::new(16, |i: int| 255u8),
    }
}

impl MultiBlockPresence {
    pub fn same(&self, other: &Self) -> (r: bool)
        ensures
            r == (*self == *other),
    {
        match (self, other) {
            (MultiBlockPresence::Absent, MultiBlockPresence::Absent) => true,
            (MultiBlockPresence::Full, MultiBlockPresence::Full) => true,
            (MultiBlockPresence::Partial(a), MultiBlockPresence::Partial(b)) => bytes16_eq(a, b),
            _ => false,
        }
    }

    pub fn checksum(&self) -> (r: [u8; 16])
        ensures
            r@ == presence_checksum(*self),
    {
        match self {
            MultiBlockPresence::Absent => {
                let r = [0u8; 16];
                assert(r@ =~= presence_checksum(*self));
                r
            },
            MultiBlockPresence::Partial(c) => *c,
            MultiBlockPresence::Full => {
                let r = [255u8; 16];
                assert(r@ =~= presence_checksum(*self));
                r
            },
        }
    }
}

/// Used to uniquely assign a response to a request, so that an outdated response does not clear
/// out a newer pending request.
#[derive(Clone, Copy, Eq, PartialEq, Hash, Debug)]
pub struct ResponseDisambiguator(pub MultiBlockPresence);

impl ResponseDisambiguator {
    pub fn new(multi_block_presence: MultiBlockPresence) -> (r: Self)
        ensures
            r.0 == multi_block_presence,
    {
        ResponseDisambiguator(multi_block_presence)
    }
}

#[derive(Clone, Copy, Eq, PartialEq, Debug)]
pub enum Request {
    /// Request the latest root node of the given writer.
    RootNode {
        writer_id: PublicKey,
        // Returned in the response without change, to tell apart otherwise identical requests.
        cookie: u64,
        debug: DebugRequest,
    },
    /// Request child nodes of the given parent node.
    ChildNodes(Hash, ResponseDisambiguator, DebugRequest),
    /// Request block with the given id.
    Block(BlockId, DebugRequest),
}

impl Request {
    /// Whether the two requests are equal, their diagnostic timestamps included.
    pub fn same(&self, other: &Self) -> (r: bool)
        ensures
            r == (*self == *other),
    {
        match (self, other) {
            (
                Request::RootNode { writer_id: a, cookie: c, debug: x },
                Request::RootNode { writer_id: b, cookie: d, debug: y },
            ) => *c == *d && bytes32_eq(&a.0, &b.0) && instant_eq(&x.created, &y.created),
            (Request::ChildNodes(a, p, x), Request::ChildNodes(b, q, y)) => bytes32_eq(&a.0, &b.0)
                && p.0.same(&q.0) && instant_eq(&x.created, &y.created),
            (Request::Block(a, x), Request::Block(b, y)) => bytes32_eq(&a.0, &b.0) && instant_eq(
                &x.created,
                &y.created,
            ),
            _ => false,
        }
    }
}

/// Key identifying a request and its corresponding response.
#[derive(Clone, Copy, Eq, PartialEq, Hash, Debug, PartialOrd, Ord)]
pub enum MessageKey {
    RootNode(PublicKey, u64),
    ChildNodes(Hash),
    Block(BlockId),
    Idle,
    Other,
}

pub open spec fn key_of(request: Request) -> MessageKey {
    match request {
        Request::RootNode { writer_id, cookie, .. } => MessageKey::RootNode(writer_id, cookie),
        Request::ChildNodes(hash, _, _) => MessageKey::ChildNodes(hash),
        Request::Block(block_id, _) => MessageKey::Block(block_id),
    }
}

impl MessageKey {
    pub fn from_request(request: &Request) -> (r: MessageKey)
        ensures
            r == key_of(*request),
    {
        match request {
            Request::RootNode { writer_id, cookie, .. } => MessageKey::RootNode(*writer_id, *cookie),
            Request::ChildNodes(hash, _, _) => MessageKey::ChildNodes(*hash),
            Request::Block(block_id, _) => MessageKey::Block(*block_id),
        }
    }

    pub fn same(&self, other: &Self) -> (r: bool)
        ensures
            r == (*self == *other),
    {
        match (self, other) {
            (MessageKey::RootNode(a, c), MessageKey::RootNode(b, d)) => *c == *d && bytes32_eq(
                &a.0,
                &b.0,
            ),
            (MessageKey::ChildNodes(a), MessageKey::ChildNodes(b)) => bytes32_eq(&a.0, &b.0),
            (MessageKey::Block(a), MessageKey::Block(b)) => bytes32_eq(&a.0, &b.0),
            (MessageKey::Idle, MessageKey::Idle) => true,
            (MessageKey::Other, MessageKey::Other) => true,
            _ => false,
        }
    }
}

} // verus!
