//! The index requests sent and not answered yet. An index request is not sent again while one
//! for the same node is pending, and the time it was sent is kept for its latency.

use crate::clock::MonotonicClock;
use crate::keyed::{distinct_keys, has_key, kv_view, lemma_kv_at, lemma_kv_push, lemma_kv_remove};
use crate::message::{bytes32_eq, PublicKey, Request, ResponseDisambiguator};
use vstd::prelude::*;

verus! {

/// What tells pending index requests apart.
#[derive(Clone, Copy, PartialEq, Eq, Debug)]
pub enum IndexKey {
    RootNode(PublicKey),
    ChildNodes(crate::message::Hash, ResponseDisambiguator),
}

/// The index key of a request; `None` for a block request.
pub open spec fn index_key_of(request: Request) -> Option<IndexKey> {
    match request {
        Request::RootNode { writer_id, .. } => Some(IndexKey::RootNode(writer_id)),
        Request::ChildNodes(hash, disambiguator, _) => Some(IndexKey::ChildNodes(hash, disambiguator)),
        Request::Block(..) => None,
    }
}

impl IndexKey {
    /// The index key of a request; `None` for a block request.
    pub fn of_request(request: &Request) -> (r: Option<IndexKey>)
        ensures
            r == index_key_of(*request),
    {
        match request {
            Request::RootNode { writer_id, .. } => Some(IndexKey::RootNode(*writer_id)),
            Request::ChildNodes(hash, disambiguator, _) => Some(IndexKey::ChildNodes(*hash, *disambiguator)),
            Request::Block(..) => None,
        }
    }

    pub fn same(&self, other: &Self) -> (r: bool)
        ensures
            r == (*self == *other),
    {
        match (self, other) {
            (IndexKey::RootNode(a), IndexKey::RootNode(b)) => bytes32_eq(&a.0, &b.0),
            (IndexKey::ChildNodes(a, p), IndexKey::ChildNodes(b, q)) => bytes32_eq(&a.0, &b.0) && p.0.same(&q.0),
            _ => false,
        }
    }
}

/// The pending index requests, each with the time it was sent (milliseconds of the tracker's
/// clock).
pub struct PendingIndexRequests {
    entries: Vec<(IndexKey, u64)>,
    clock: MonotonicClock,
}

impl PendingIndexRequests {
    /// Each pending request with the time it was sent.
    pub closed spec fn view(&self) -> Map<IndexKey, u64> {
        kv_view(self.entries@)
    }

    pub closed spec fn wf(&self) -> bool {
        distinct_keys(self.entries@)
    }

    pub fn new() -> (r: Self)
        ensures
            r.wf(),
            r.view() == Map::<IndexKey, u64>::empty(),
    {
        let r = PendingIndexRequests { entries: Vec::new(), clock: MonotonicClock::new() };
        assert(r.view() =~= Map::<IndexKey, u64>::empty());
        r
    }

    fn find(&self, key: &IndexKey) -> (r: Option<usize>)
        ensures
            r matches Some(i) ==> i < self.entries@.len() && self.entries@[i as int].0 == *key,
            r is None ==> !has_key(self.entries@, *key),
    {
        let mut i: usize = 0;
        while i < self.entries.len()
            invariant
                i <= self.entries@.len(),
                forall|j: int| 0 <= j < i ==> self.entries@[j].0 != *key,
            decreases self.entries@.len() - i,
        {
            if self.entries[i].0.same(key) {
                return Some(i);
            }
            i = i + 1;
        }
        None
    }

    /// Notes the request for `key` as sent at `sent`, unless one is pending already; returns
    /// whether it was noted (and so is to be sent).
    pub fn try_insert_at(&mut self, key: IndexKey, sent: u64) -> (r: bool)
        requires
            old(self).wf(),
        ensures
            final(self).wf(),
            r == !old(self).view().contains_key(key),
            final(self).view() == if r {
                old(self).view().insert(key, sent)
            } else {
                old(self).view()
            },
    {
        match self.find(&key) {
            Some(i) => {
                proof {
                    lemma_kv_at(self.entries@, i as int);
                }
                false
            },
            None => {
                proof {
                    lemma_kv_push(self.entries@, key, sent);
                }
                self.entries.push((key, sent));
                true
            },
        }
    }

    /// Notes the request for `key` as sent now, unless one is pending already; returns whether it
    /// was noted (and so is to be sent).
    pub fn try_insert(&mut self, key: IndexKey) -> (r: bool)
        requires
            old(self).wf(),
        ensures
            final(self).wf(),
            r == !old(self).view().contains_key(key),
            r ==> final(self).view().dom() == old(self).view().dom().insert(key),
            !r ==> final(self).view() == old(self).view(),
    {
        let now = self.clock.millis();
        self.try_insert_at(key, now)
    }

    /// The response to the request for `key` came: it is no longer pending. Returns when it was
    /// sent, if it was pending.
    pub fn remove(&mut self, key: &IndexKey) -> (r: Option<u64>)
        requires
            old(self).wf(),
        ensures
            final(self).wf(),
            r == if old(self).view().contains_key(*key) {
                Some(old(self).view()[*key])
            } else {
                None
            },
            final(self).view() == old(self).view().remove(*key),
    {
        match self.find(key) {
            Some(i) => {
                proof {
                    lemma_kv_at(self.entries@, i as int);
                    lemma_kv_remove(self.entries@, i as int);
                }
                let (_, sent) = self.entries.remove(i);
                Some(sent)
            },
            None => {
                proof {
                    assert(self.view().remove(*key) =~= self.view());
                }
                None
            },
        }
    }

    /// Notes the index request as sent now, unless one for the same node is pending: returns
    /// whether to send it. A block request is left to the block requests.
    pub fn insert_request(&mut self, request: &Request) -> (r: Option<bool>)
        requires
            old(self).wf(),
        ensures
            final(self).wf(),
            index_key_of(*request) is None ==> r is None && final(self).view() == old(self).view(),
            index_key_of(*request) matches Some(k) ==> r == Some(!old(self).view().contains_key(k))
                && final(self).view().dom() == old(self).view().dom().insert(k),
    {
        match IndexKey::of_request(request) {
            Some(key) => Some(self.try_insert(key)),
            None => None,
        }
    }
}

} // verus!
