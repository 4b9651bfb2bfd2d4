//! Limit on the number of requests sent and not yet answered.

use crate::clock::MonotonicClock;
use crate::message::Request;
use vstd::prelude::*;

verus! {

/// Maximum number of sent requests for which no response has been received yet. Higher values
/// give better performance but too high risks congesting the network.
pub const MAX_PENDING_REQUESTS: usize = 32;

/// Seconds after which a pending request expires, so that it does not block other requests.
pub const PENDING_REQUEST_EXPIRY_SECS: u64 = 10;

/// Milliseconds after which a pending request expires.
pub const PENDING_REQUEST_EXPIRY_MILLIS: u64 = 10000;

/// The pending requests, each with the time it was sent, in milliseconds of the limiter's
/// monotonic clock.
pub struct RequestLimiter {
    entries: Vec<(Request, u64)>,
    clock: MonotonicClock,
}

/// The time, in milliseconds, at which a request sent at `sent` expires.
pub open spec fn expiry(sent: u64) -> int {
    sent + PENDING_REQUEST_EXPIRY_MILLIS
}

/// The requests of the entries at indices below `n` are distinct.
pub open spec fn distinct_requests(entries: Seq<(Request, u64)>) -> bool {
    forall|i: int, j: int| 0 <= i < j < entries.len() ==> entries[i].0 != entries[j].0
}

impl RequestLimiter {
    /// The pending requests are distinct, and no more than `MAX_PENDING_REQUESTS`.
    pub closed spec fn wf(&self) -> bool {
        &&& distinct_requests(self.entries@)
        &&& self.entries@.len() <= MAX_PENDING_REQUESTS
    }

    /// A limiter never holds more than `MAX_PENDING_REQUESTS` pending requests: `new` makes a
    /// well-formed limiter, and every operation keeps it so.
    pub proof fn lemma_bounded(&self)
        requires
            self.wf(),
        ensures
            self.view().dom().finite(),
            self.view().dom().len() <= MAX_PENDING_REQUESTS,
    {
        self.lemma_count();
    }

    /// Each pending request with the time it was sent.
    pub closed spec fn view(&self) -> Map<Request, u64> {
        Map::new(
            |r: Request| exists|i: int| 0 <= i < self.entries@.len() && self.entries@[i].0 == r,
            |r: Request|
                self.entries@[choose|i: int| 0 <= i < self.entries@.len() && self.entries@[i].0 == r].1,
        )
    }

    /// Number of pending requests.
    pub closed spec fn count(&self) -> nat {
        self.entries@.len()
    }

    proof fn lemma_count(&self)
        requires
            self.wf(),
        ensures
            self.view().dom().finite(),
            self.view().dom().len() == self.count(),
    {
        let s = self.entries@.map_values(|e: (Request, u64)| e.0);
        assert(s.no_duplicates());
        s.unique_seq_to_set();
        assert(self.view().dom() =~= s.to_set()) by {
            assert forall|r: Request| self.view().dom().contains(r) implies s.to_set().contains(r) by {
                let i = choose|i: int| 0 <= i < self.entries@.len() && self.entries@[i].0 == r;
                assert(s[i] == r);
            }
            assert forall|r: Request| s.to_set().contains(r) implies self.view().dom().contains(r) by {
                let i = choose|i: int| 0 <= i < s.len() && s[i] == r;
                assert(self.entries@[i].0 == r);
            }
        }
    }

    pub fn new() -> (r: Self)
        ensures
            r.wf(),
            r.view() == Map::<Request, u64>::empty(),
    {
        let r = RequestLimiter { entries: Vec::new(), clock: MonotonicClock::new() };
        assert(r.view() =~= Map::<Request, u64>::empty());
        r
    }

    /// The index of the entry of `request`, if it is pending.
    fn position(&self, request: &Request) -> (r: Option<usize>)
        requires
            self.wf(),
        ensures
            r matches Some(i) ==> i < self.entries@.len() && self.entries@[i as int].0 == *request,
            r is None ==> !self.view().contains_key(*request),
    {
        let mut i: usize = 0;
        while i < self.entries.len()
            invariant
                i <= self.entries@.len(),
                forall|j: int| 0 <= j < i ==> self.entries@[j].0 != *request,
            decreases self.entries@.len() - i,
        {
            if self.entries[i].0.same(request) {
                return Some(i);
            }
            i = i + 1;
        }
        None
    }

    /// Whether another request may be sent now: the number of pending requests is below the
    /// limit. The entry it returns inserts it.
    pub fn vacant_entry(&mut self) -> (r: Option<VacantEntry<'_>>)
        requires
            old(self).wf(),
        ensures
            r is Some <==> old(self).view().dom().len() < MAX_PENDING_REQUESTS,
            r matches Some(e) ==> e.limiter() == *old(self) && *final(self) == *final(e.0),
            r is None ==> *final(self) == *old(self),
    {
        proof {
            self.lemma_count();
        }
        if self.entries.len() < MAX_PENDING_REQUESTS {
            Some(VacantEntry(self))
        } else {
            None
        }
    }

    /// Removes the request; returns whether it was pending.
    pub fn remove(&mut self, request: &Request) -> (r: bool)
        requires
            old(self).wf(),
        ensures
            final(self).wf(),
            r == old(self).view().contains_key(*request),
            final(self).view() == old(self).view().remove(*request),
    {
        match self.position(request) {
            Some(i) => {
                let ghost before = self.entries@;
                self.entries.remove(i);
                proof {
                    assert(before.contains(before[i as int]));
                    assert(old(self).view().contains_key(*request));
                    assert forall|a: int, b: int| 0 <= a < b < self.entries@.len() implies self.entries@[a].0
                        != self.entries@[b].0 by {
                        let a0 = if a < i { a } else { a + 1 };
                        let b0 = if b < i { b } else { b + 1 };
                        assert(self.entries@[a] == before[a0]);
                        assert(self.entries@[b] == before[b0]);
                    }
                    assert forall|q: Request| #[trigger] self.view().contains_key(q) <==> old(self).view().remove(*request).contains_key(q) by {
                        if self.view().contains_key(q) {
                            let j = choose|j: int| 0 <= j < self.entries@.len() && self.entries@[j].0 == q;
                            let j0 = if j < i { j } else { j + 1 };
                            assert(before[j0].0 == q);
                            assert(q != *request);
                        }
                        if old(self).view().remove(*request).contains_key(q) {
                            let j = choose|j: int| 0 <= j < before.len() && before[j].0 == q;
                            assert(j != i);
                            if j < i {
                                assert(self.entries@[j].0 == q);
                            } else {
                                assert(self.entries@[j - 1].0 == q);
                            }
                        }
                    }
                    assert forall|q: Request| #[trigger] self.view().contains_key(q) implies self.view()[q]
                        == old(self).view()[q] by {
                        let j = choose|j: int| 0 <= j < self.entries@.len() && self.entries@[j].0 == q;
                        let j0 = if j < i { j } else { j + 1 };
                        assert(before[j0].0 == q);
                        let k = choose|k: int| 0 <= k < before.len() && before[k].0 == q;
                        assert(k == j0);
                    }
                    assert(self.view() =~= old(self).view().remove(*request));
                }
                true
            },
            None => {
                assert(self.view() =~= old(self).view().remove(*request));
                false
            },
        }
    }

    /// The pending request that was sent first, with the time it was sent, if any request is
    /// pending. It is the one to expire next.
    pub fn oldest(&self) -> (r: Option<(Request, u64)>)
        requires
            self.wf(),
        ensures
            r is None <==> self.view().dom().len() == 0,
            r matches Some(e) ==> self.view().contains_key(e.0) && self.view()[e.0] == e.1,
            r matches Some(e) ==> forall|q: Request| #[trigger] self.view().contains_key(q) ==> e.1 <= self.view()[q],
    {
        proof {
            self.lemma_count();
        }
        if self.entries.len() == 0 {
            return None;
        }
        let mut best: usize = 0;
        let mut i: usize = 1;
        while i < self.entries.len()
            invariant
                1 <= i <= self.entries@.len(),
                best < self.entries@.len(),
                forall|j: int| 0 <= j < i ==> self.entries@[best as int].1 <= #[trigger] self.entries@[j].1,
            decreases self.entries@.len() - i,
        {
            if self.entries[i].1 < self.entries[best].1 {
                best = i;
            }
            i = i + 1;
        }
        let e = self.entries[best];
        proof {
            self.lemma_entry(best as int);
            assert forall|q: Request| #[trigger] self.view().contains_key(q) implies e.1 <= self.view()[q] by {
                let j = choose|j: int| 0 <= j < self.entries@.len() && self.entries@[j].0 == q;
                self.lemma_entry(j);
            }
        }
        Some(e)
    }

    /// The time (in milliseconds of the limiter's clock) at which the next pending request
    /// expires, if any is pending.
    pub fn next_expiry(&self) -> (r: Option<u64>)
        requires
            self.wf(),
        ensures
            r is None <==> self.view().dom().len() == 0,
            r matches Some(t) ==> exists|q: Request| {
                &&& #[trigger] self.view().contains_key(q)
                &&& t == if expiry(self.view()[q]) > u64::MAX { u64::MAX as int } else { expiry(self.view()[q]) }
                &&& forall|x: Request| #[trigger] self.view().contains_key(x) ==> self.view()[q] <= self.view()[x]
            },
    {
        match self.oldest() {
            Some((_, sent)) => Some(sent.saturating_add(PENDING_REQUEST_EXPIRY_MILLIS)),
            None => None,
        }
    }

    /// Removes the pending request that has expired at `now` (milliseconds of the limiter's
    /// clock), if there is one: the one sent first, once `PENDING_REQUEST_EXPIRY_MILLIS` have
    /// passed since it was sent.
    pub fn expire(&mut self, now: u64) -> (r: Option<Request>)
        requires
            old(self).wf(),
        ensures
            final(self).wf(),
            r matches Some(q) ==> {
                &&& old(self).view().contains_key(q)
                &&& expiry(old(self).view()[q]) <= now
                &&& forall|x: Request|
                    #[trigger] old(self).view().contains_key(x) ==> old(self).view()[q] <= old(self).view()[x]
                &&& final(self).view() == old(self).view().remove(q)
            },
            r is None ==> final(self).view() == old(self).view() && forall|x: Request|
                #[trigger] old(self).view().contains_key(x) ==> now < expiry(old(self).view()[x]),
    {
        match self.oldest() {
            Some((request, sent)) => {
                if sent as u128 + PENDING_REQUEST_EXPIRY_MILLIS as u128 <= now as u128 {
                    self.remove(&request);
                    Some(request)
                } else {
                    None
                }
            },
            None => {
                proof {
                    self.lemma_count();
                    assert forall|x: Request| #[trigger] old(self).view().contains_key(x) implies now < expiry(
                        old(self).view()[x],
                    ) by {
                        assert(old(self).view().dom().contains(x));
                    }
                }
                None
            },
        }
    }

    /// The current time of the limiter's clock, in milliseconds.
    pub fn now(&self) -> u64 {
        self.clock.millis()
    }

    proof fn lemma_entry(&self, i: int)
        requires
            self.wf(),
            0 <= i < self.entries@.len(),
        ensures
            self.view().contains_key(self.entries@[i].0),
            self.view()[self.entries@[i].0] == self.entries@[i].1,
    {
        let r = self.entries@[i].0;
        assert(self.view().contains_key(r));
        let k = choose|k: int| 0 <= k < self.entries@.len() && self.entries@[k].0 == r;
        assert(k == i);
    }
}

/// The right to insert one more pending request.
pub struct VacantEntry<'a>(pub &'a mut RequestLimiter);

impl<'a> VacantEntry<'a> {
    pub open spec fn limiter(&self) -> RequestLimiter {
        *self.0
    }

    /// Inserts the request as sent now; returns whether it was not pending already.
    pub fn insert(self, request: Request) -> (r: bool)
        requires
            self.limiter().wf(),
            self.limiter().view().dom().len() < MAX_PENDING_REQUESTS,
        ensures
            final(self.0).wf(),
            r == !self.limiter().view().contains_key(request),
            final(self.0).view() == self.limiter().view().insert(request, final(self.0).view()[request]),
    {
        let limiter = self.0;
        let ghost before = limiter.entries@;
        let ghost old_view = limiter.view();
        let timestamp = limiter.clock.millis();
        proof {
            limiter.lemma_count();
        }
        match limiter.position(&request) {
            Some(i) => {
                limiter.entries.set(i, (request, timestamp));
                proof {
                    limiter.lemma_entry(i as int);
                    assert forall|q: Request| #[trigger] limiter.view().contains_key(q) <==> old_view.insert(request, timestamp).contains_key(q) by {
                        if limiter.view().contains_key(q) {
                            let j = choose|j: int| 0 <= j < limiter.entries@.len() && limiter.entries@[j].0 == q;
                            if j != i {
                                assert(before[j].0 == q);
                            }
                        }
                        if old_view.contains_key(q) {
                            let j = choose|j: int| 0 <= j < before.len() && before[j].0 == q;
                            if j != i {
                                assert(limiter.entries@[j].0 == q);
                            }
                        }
                    }
                    assert forall|q: Request| #[trigger] limiter.view().contains_key(q) implies limiter.view()[q]
                        == old_view.insert(request, timestamp)[q] by {
                        let j = choose|j: int| 0 <= j < limiter.entries@.len() && limiter.entries@[j].0 == q;
                        limiter.lemma_entry(j);
                        if q != request {
                            let k = choose|k: int| 0 <= k < before.len() && before[k].0 == q;
                            assert(k == j);
                        }
                    }
                    assert(limiter.view() =~= old_view.insert(request, timestamp));
                    limiter.lemma_count();
                    self.limiter().lemma_count();
                }
                false
            },
            None => {
                limiter.entries.push((request, timestamp));
                proof {
                    let n = before.len() as int;
                    assert forall|a: int, b: int| 0 <= a < b < limiter.entries@.len() implies limiter.entries@[a].0
                        != limiter.entries@[b].0 by {
                        if b == n {
                            assert(limiter.entries@[a] == before[a]);
                            assert(before.contains(before[a]));
                            if before[a].0 == request {
                                assert(old_view.contains_key(request));
                            }
                        }
                    }
                    assert(limiter.wf());
                    limiter.lemma_entry(n);
                    assert forall|q: Request| #[trigger] limiter.view().contains_key(q) <==> old_view.insert(request, timestamp).contains_key(q) by {
                        if limiter.view().contains_key(q) {
                            let j = choose|j: int| 0 <= j < limiter.entries@.len() && limiter.entries@[j].0 == q;
                            if j != n {
                                assert(before[j].0 == q);
                            }
                        }
                        if old_view.contains_key(q) {
                            let j = choose|j: int| 0 <= j < before.len() && before[j].0 == q;
                            assert(limiter.entries@[j].0 == q);
                        }
                    }
                    assert forall|q: Request| #[trigger] limiter.view().contains_key(q) implies limiter.view()[q]
                        == old_view.insert(request, timestamp)[q] by {
                        let j = choose|j: int| 0 <= j < limiter.entries@.len() && limiter.entries@[j].0 == q;
                        limiter.lemma_entry(j);
                        if q != request {
                            let k = choose|k: int| 0 <= k < before.len() && before[k].0 == q;
                            assert(limiter.entries@[k].0 == q);
                            assert(k == j);
                        }
                    }
                    assert(limiter.view() =~= old_view.insert(request, timestamp));
                    limiter.lemma_count();
                    self.limiter().lemma_count();
                }
                true
            },
        }
    }
}

} // verus!
