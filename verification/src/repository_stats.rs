//! Counters of a repository's network activity.

use crate::clock::as_millis;
use std::time::Duration;
use vstd::prelude::*;

verus! {

/// How many durations fell in each range.
#[derive(Clone, Copy, PartialEq, Eq, Debug, Structural)]
pub struct DurationRanges {
    pub below_200ms: u64,
    pub from_200ms_to_500ms: u64,
    pub from_500ms_to_1s: u64,
    pub from_1s_to_3s: u64,
    pub from_3s_to_10s: u64,
    pub from_10s_to_30s: u64,
    pub more_than_30s: u64,
}

/// The index of the range a duration of `ms` milliseconds falls in.
pub open spec fn range_index(ms: int) -> int {
    if ms < 200 {
        0
    } else if ms < 500 {
        1
    } else if ms < 1000 {
        2
    } else if ms < 3000 {
        3
    } else if ms < 10000 {
        4
    } else if ms < 30000 {
        5
    } else {
        6
    }
}

/// `new` is `old` with one more duration of `ms` milliseconds noted.
pub open spec fn noted(old: DurationRanges, new: DurationRanges, ms: int) -> bool {
    forall|i: int|
        0 <= i < 7 ==> #[trigger] new.count(i) == old.count(i) + if i == range_index(ms) {
            1int
        } else {
            0int
        }
}

/// `new` is `old` with one more duration noted, of some length.
pub open spec fn noted_any(old: DurationRanges, new: DurationRanges) -> bool {
    exists|ms: int| #[trigger] noted(old, new, ms)
}

impl DurationRanges {
    pub fn new() -> (r: Self)
        ensures
            r == Self::new_spec(),
    {
        DurationRanges {
            below_200ms: 0,
            from_200ms_to_500ms: 0,
            from_500ms_to_1s: 0,
            from_1s_to_3s: 0,
            from_3s_to_10s: 0,
            from_10s_to_30s: 0,
            more_than_30s: 0,
        }
    }

    /// The count of the range with index `i`, from the shortest to the longest.
    pub open spec fn count(&self, i: int) -> int {
        if i == 0 {
            self.below_200ms as int
        } else if i == 1 {
            self.from_200ms_to_500ms as int
        } else if i == 2 {
            self.from_500ms_to_1s as int
        } else if i == 3 {
            self.from_1s_to_3s as int
        } else if i == 4 {
            self.from_3s_to_10s as int
        } else if i == 5 {
            self.from_10s_to_30s as int
        } else {
            self.more_than_30s as int
        }
    }

    /// No count is at its maximum, so that one more can be noted.
    pub open spec fn has_room(&self) -> bool {
        forall|i: int| 0 <= i < 7 ==> #[trigger] self.count(i) < u64::MAX
    }

    /// Notes a duration of `ms` milliseconds: the count of its range goes up by one.
    pub fn note_millis(&mut self, ms: u128)
        requires
            old(self).has_room(),
        ensures
            noted(*old(self), *final(self), ms as int),
    {
        proof {
            assert(self.count(0) < u64::MAX);
            assert(self.count(1) < u64::MAX);
            assert(self.count(2) < u64::MAX);
            assert(self.count(3) < u64::MAX);
            assert(self.count(4) < u64::MAX);
            assert(self.count(5) < u64::MAX);
            assert(self.count(6) < u64::MAX);
        }
        if ms < 200 {
            self.below_200ms = self.below_200ms + 1;
        } else if ms < 500 {
            self.from_200ms_to_500ms = self.from_200ms_to_500ms + 1;
        } else if ms < 1000 {
            self.from_500ms_to_1s = self.from_500ms_to_1s + 1;
        } else if ms < 3000 {
            self.from_1s_to_3s = self.from_1s_to_3s + 1;
        } else if ms < 10000 {
            self.from_3s_to_10s = self.from_3s_to_10s + 1;
        } else if ms < 30000 {
            self.from_10s_to_30s = self.from_10s_to_30s + 1;
        } else {
            self.more_than_30s = self.more_than_30s + 1;
        }
    }

    /// Notes a duration: the count of the range of its whole milliseconds goes up by one.
    pub fn note_duration(&mut self, duration: Duration)
        requires
            old(self).has_room(),
        ensures
            noted_any(*old(self), *final(self)),
    {
        let ms = as_millis(duration);
        self.note_millis(ms);
        assert(noted(*old(self), *self, ms as int));
    }
}

/// The statistics of a repository.
#[derive(Clone, Copy, Debug)]
pub struct Values {
    /// How many requests for index nodes are currently in flight. It is used by the UI to
    /// indicate that the index is being synchronized.
    pub index_requests_inflight: u64,
    pub block_requests_inflight: u64,
    pub total_requests_cummulative: u64,
    pub request_timeouts: u64,
    pub db_acquire_durations: DurationRanges,
    pub db_read_begin_durations: DurationRanges,
    pub db_write_begin_durations: DurationRanges,
}

impl Values {
    pub fn new() -> (r: Self)
        ensures
            r.index_requests_inflight == 0,
            r.block_requests_inflight == 0,
            r.total_requests_cummulative == 0,
            r.request_timeouts == 0,
            r.db_acquire_durations == DurationRanges::new_spec(),
            r.db_read_begin_durations == DurationRanges::new_spec(),
            r.db_write_begin_durations == DurationRanges::new_spec(),
    {
        Values {
            index_requests_inflight: 0,
            block_requests_inflight: 0,
            total_requests_cummulative: 0,
            request_timeouts: 0,
            db_acquire_durations: DurationRanges::new(),
            db_read_begin_durations: DurationRanges::new(),
            db_write_begin_durations: DurationRanges::new(),
        }
    }

    pub fn note_db_acquire_duration(&mut self, duration: Duration)
        requires
            old(self).db_acquire_durations.has_room(),
        ensures
            final(self).db_read_begin_durations == old(self).db_read_begin_durations,
            final(self).db_write_begin_durations == old(self).db_write_begin_durations,
            noted_any(old(self).db_acquire_durations, final(self).db_acquire_durations),
            final(self).index_requests_inflight == old(self).index_requests_inflight,
            final(self).block_requests_inflight == old(self).block_requests_inflight,
            final(self).total_requests_cummulative == old(self).total_requests_cummulative,
            final(self).request_timeouts == old(self).request_timeouts,
    {
        self.db_acquire_durations.note_duration(duration);
    }

    pub fn note_db_read_begin_duration(&mut self, duration: Duration)
        requires
            old(self).db_read_begin_durations.has_room(),
        ensures
            final(self).db_acquire_durations == old(self).db_acquire_durations,
            final(self).db_write_begin_durations == old(self).db_write_begin_durations,
            noted_any(old(self).db_read_begin_durations, final(self).db_read_begin_durations),
            final(self).index_requests_inflight == old(self).index_requests_inflight,
            final(self).block_requests_inflight == old(self).block_requests_inflight,
            final(self).total_requests_cummulative == old(self).total_requests_cummulative,
            final(self).request_timeouts == old(self).request_timeouts,
    {
        self.db_read_begin_durations.note_duration(duration);
    }

    pub fn note_db_write_begin_duration(&mut self, duration: Duration)
        requires
            old(self).db_write_begin_durations.has_room(),
        ensures
            final(self).db_acquire_durations == old(self).db_acquire_durations,
            final(self).db_read_begin_durations == old(self).db_read_begin_durations,
            noted_any(old(self).db_write_begin_durations, final(self).db_write_begin_durations),
            final(self).index_requests_inflight == old(self).index_requests_inflight,
            final(self).block_requests_inflight == old(self).block_requests_inflight,
            final(self).total_requests_cummulative == old(self).total_requests_cummulative,
            final(self).request_timeouts == old(self).request_timeouts,
    {
        self.db_write_begin_durations.note_duration(duration);
    }
}

/// The statistics of a repository, updated in place by its writers.
pub struct RepositoryStats {
    values: Values,
}

impl RepositoryStats {
    pub closed spec fn spec_values(&self) -> Values {
        self.values
    }

    pub fn new() -> (r: Self)
        ensures
            r.spec_values() == Values::new_spec(),
    {
        RepositoryStats { values: Values::new() }
    }

    /// The current values.
    pub fn read(&self) -> (r: Values)
        ensures
            r == self.spec_values(),
    {
        self.values
    }

    /// Access for updating the values.
    pub fn write(&mut self) -> (r: &mut Values)
        ensures
            *r == old(self).spec_values(),
            final(self).spec_values() == *final(r),
    {
        &mut self.values
    }
}

impl DurationRanges {
    pub open spec fn new_spec() -> Self {
        DurationRanges {
            below_200ms: 0,
            from_200ms_to_500ms: 0,
            from_500ms_to_1s: 0,
            from_1s_to_3s: 0,
            from_3s_to_10s: 0,
            from_10s_to_30s: 0,
            more_than_30s: 0,
        }
    }
}

impl Values {
    pub open spec fn new_spec() -> Self {
        Values {
            index_requests_inflight: 0,
            block_requests_inflight: 0,
            total_requests_cummulative: 0,
            request_timeouts: 0,
            db_acquire_durations: DurationRanges::new_spec(),
            db_read_begin_durations: DurationRanges::new_spec(),
            db_write_begin_durations: DurationRanges::new_spec(),
        }
    }
}

} // verus!
