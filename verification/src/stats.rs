//! Network traffic statistics: byte counters and throughput.

use crate::clock::MonotonicClock;
use std::sync::atomic::AtomicU64;
use std::sync::Arc;
use vstd::prelude::*;

verus! {

/// Network traffic statistics.
#[derive(Clone, Copy, PartialEq, Eq, Debug, Structural)]
pub struct Stats {
    /// Total number of bytes sent.
    pub bytes_tx: u64,
    /// Total number of bytes received.
    pub bytes_rx: u64,
    /// Current send throughput in bytes per second.
    pub throughput_tx: u64,
    /// Current receive throughput in bytes per second.
    pub throughput_rx: u64,
}

impl Default for Stats {
    fn default() -> (r: Self)
        ensures
            r == (Stats { bytes_tx: 0, bytes_rx: 0, throughput_tx: 0, throughput_rx: 0 }),
    {
        Stats { bytes_tx: 0, bytes_rx: 0, throughput_tx: 0, throughput_rx: 0 }
    }
}

/// Counter of sent/received bytes, shared by the readers and writers of a connection and the
/// tracker that reports them. The counters wrap around on overflow.
pub struct ByteCounters {
    tx: AtomicU64,
    rx: AtomicU64,
}

impl ByteCounters {
    pub fn new() -> Self {
        ByteCounters { tx: AtomicU64::new(0), rx: AtomicU64::new(0) }
    }

    pub fn increment_tx(&self, by: u64) {
        self.tx.fetch_add(by, std::sync::atomic::Ordering::Relaxed);
    }

    pub fn increment_rx(&self, by: u64) {
        self.rx.fetch_add(by, std::sync::atomic::Ordering::Relaxed);
    }

    pub fn read_tx(&self) -> u64 {
        self.tx.load(std::sync::atomic::Ordering::Relaxed)
    }

    pub fn read_rx(&self) -> u64 {
        self.rx.load(std::sync::atomic::Ordering::Relaxed)
    }
}

/// An IO object that splits into a read half and a write half.
pub trait IntoSplit: Sized {
    type ReadHalf;
    type WriteHalf;

    fn into_split(self) -> (Self::ReadHalf, Self::WriteHalf);
}

/// Wrapper for an IO object (reader or writer) that counts the transferred bytes.
pub struct Instrumented<T> {
    inner: T,
    counters: Arc<ByteCounters>,
}

impl<T> Instrumented<T> {
    pub closed spec fn spec_inner(&self) -> T {
        self.inner
    }

    pub closed spec fn spec_counters(&self) -> Arc<ByteCounters> {
        self.counters
    }

    pub fn new(inner: T, counters: Arc<ByteCounters>) -> (r: Self)
        ensures
            r.spec_inner() == inner,
            r.spec_counters() == counters,
    {
        Instrumented { inner, counters }
    }

    pub fn as_ref(&self) -> (r: &T)
        ensures
            *r == self.spec_inner(),
    {
        &self.inner
    }

    pub fn as_mut(&mut self) -> (r: &mut T)
        ensures
            *r == old(self).spec_inner(),
            final(self).spec_inner() == *final(r),
            final(self).spec_counters() == old(self).spec_counters(),
    {
        &mut self.inner
    }

    pub fn counters(&self) -> (r: &ByteCounters)
        ensures
            *r == *self.spec_counters(),
    {
        &*self.counters
    }

    /// Counts the bytes that a read added to a buffer that held `before` bytes and now holds
    /// `after` bytes, and returns that count.
    pub fn note_read(&self, before: usize, after: usize) -> (r: u64)
        ensures
            r == if after > before { after - before } else { 0 },
    {
        let n = after.saturating_sub(before) as u64;
        self.counters.increment_rx(n);
        n
    }

    /// Counts `written` bytes as sent, and returns that count.
    pub fn note_written(&self, written: usize) -> (r: u64)
        ensures
            r == written,
    {
        let n = written as u64;
        self.counters.increment_tx(n);
        n
    }
}

impl<T: IntoSplit> Instrumented<T> {
    /// Splits the wrapped object; both halves count into the same counters.
    pub fn into_split(self) -> (r: (Instrumented<T::ReadHalf>, Instrumented<T::WriteHalf>))
        ensures
            r.0.spec_counters() == self.spec_counters(),
            r.1.spec_counters() == self.spec_counters(),
    {
        let (reader, writer) = self.inner.into_split();
        let counters = self.counters;
        let shared = Arc::clone(&counters);
        (Instrumented::new(reader, shared), Instrumented::new(writer, counters))
    }
}

/// The previous sample of a throughput calculation.
pub struct ThroughputSample {
    /// When it was taken, in whole nanoseconds of a monotonic clock.
    pub timestamp: u64,
    pub bytes: u64,
    pub throughput: u64,
}

/// Throughput in bytes per second from the byte total `bytes` after `millis` milliseconds, the
/// previous sample having seen `prev_bytes` bytes and computed `prev_throughput`. When no time has
/// passed the previous throughput is kept; when the total went down, the throughput is zero.
pub open spec fn rate(prev_bytes: u64, prev_throughput: u64, bytes: u64, millis: u64) -> int {
    if millis == 0 {
        prev_throughput as int
    } else if bytes <= prev_bytes {
        0
    } else {
        (bytes - prev_bytes) * 1000 / millis as int
    }
}

/// Nanoseconds in a millisecond.
pub const NANOS_PER_MILLI: u64 = 1_000_000;

/// The whole milliseconds from `earlier` to `later` (timestamps in nanoseconds), zero when the
/// clock went backwards.
pub open spec fn elapsed(later: u64, earlier: u64) -> u64 {
    if later >= earlier {
        ((later - earlier) / (NANOS_PER_MILLI as int)) as u64
    } else {
        0
    }
}

/// The throughput that a sample of `bytes` at `timestamp` (nanoseconds) gives after the previous
/// sample `prev`: zero for the first sample, else the [`rate`] over the whole milliseconds
/// elapsed.
pub open spec fn sample_rate(prev: Option<ThroughputSample>, bytes: u64, timestamp: u64) -> int {
    match prev {
        None => 0,
        Some(p) => rate(p.bytes, p.throughput, bytes, elapsed(timestamp, p.timestamp)),
    }
}

/// Whether the byte difference since `prev_bytes`, in thousandths, fits in a `u64`.
pub open spec fn rate_fits(prev_bytes: u64, bytes: u64) -> bool {
    bytes <= prev_bytes || (bytes - prev_bytes) * 1000 <= u64::MAX
}

/// The rate of [`rate`], computed.
pub fn compute_rate(prev_bytes: u64, prev_throughput: u64, bytes: u64, millis: u64) -> (r: u64)
    requires
        rate_fits(prev_bytes, bytes),
    ensures
        r == rate(prev_bytes, prev_throughput, bytes, millis),
{
    if millis == 0 {
        prev_throughput
    } else {
        let delta = bytes.saturating_sub(prev_bytes);
        assert(delta * 1000 / (millis as int) <= delta * 1000) by (nonlinear_arith)
            requires
                millis >= 1,
                delta >= 0,
        ;
        delta * 1000 / millis
    }
}

/// Throughput calculator.
pub struct Throughput {
    pub prev: Option<ThroughputSample>,
}

impl Throughput {
    pub fn new() -> (r: Self)
        ensures
            r.prev is None,
    {
        Throughput { prev: None }
    }

    /// Whether a sample of `bytes` cannot overflow the computation.
    pub open spec fn can_sample(&self, bytes: u64) -> bool {
        self.prev matches Some(p) ==> rate_fits(p.bytes, bytes)
    }

    /// Returns the current throughput (in bytes per second), given the current total amount of
    /// bytes (sent or received) and the current time in whole nanoseconds. The first sample
    /// gives zero; later ones give the [`rate`] over the whole milliseconds elapsed since the
    /// previous sample (none when the clock went backwards).
    pub fn sample(&mut self, bytes: u64, timestamp: u64) -> (r: u64)
        requires
            old(self).can_sample(bytes),
        ensures
            r == sample_rate(old(self).prev, bytes, timestamp),
            final(self).prev matches Some(s) && s.timestamp == timestamp && s.bytes == bytes && s.throughput == r,
    {
        let prev = self.prev.take();
        let throughput = match prev {
            Some(prev) => {
                let millis = timestamp.saturating_sub(prev.timestamp) / NANOS_PER_MILLI;
                compute_rate(prev.bytes, prev.throughput, bytes, millis)
            },
            None => 0,
        };
        self.prev = Some(ThroughputSample { timestamp, bytes, throughput });
        throughput
    }
}

/// Send and receive throughput calculators.
pub struct Throughputs {
    pub tx: Throughput,
    pub rx: Throughput,
}

/// `b` is tracker `a` after reading totals `tx` and `rx` at `timestamp`: where they can be
/// sampled, each side's previous sample is the new one; else nothing changed.
pub open spec fn read_as(a: StatsTracker, b: StatsTracker, tx: u64, rx: u64, timestamp: u64) -> bool {
    &&& b.bytes == a.bytes
    &&& b.clock == a.clock
    &&& if a.can_read(tx, rx) {
        &&& b.throughput.tx.prev == Some(
            ThroughputSample {
                timestamp,
                bytes: tx,
                throughput: sample_rate(a.throughput.tx.prev, tx, timestamp) as u64,
            },
        )
        &&& b.throughput.rx.prev == Some(
            ThroughputSample {
                timestamp,
                bytes: rx,
                throughput: sample_rate(a.throughput.rx.prev, rx, timestamp) as u64,
            },
        )
    } else {
        b.throughput == a.throughput
    }
}

/// Reports the statistics of a connection or a whole network.
pub struct StatsTracker {
    pub bytes: Arc<ByteCounters>,
    pub throughput: Throughputs,
    /// The clock the samples are timed by.
    pub clock: MonotonicClock,
}

impl StatsTracker {
    pub fn new() -> (r: Self)
        ensures
            r.throughput.tx.prev is None,
            r.throughput.rx.prev is None,
            r.reads_always(),
    {
        StatsTracker {
            bytes: Arc::new(ByteCounters::new()),
            throughput: Throughputs { tx: Throughput::new(), rx: Throughput::new() },
            clock: MonotonicClock::new(),
        }
    }

    /// The statistics that totals `tx` and `rx` read at `timestamp` give: `None` where they
    /// cannot be sampled.
    pub open spec fn stats_at(&self, tx: u64, rx: u64, timestamp: u64) -> Option<Stats> {
        if self.can_read(tx, rx) {
            Some(
                Stats {
                    bytes_tx: tx,
                    bytes_rx: rx,
                    throughput_tx: sample_rate(self.throughput.tx.prev, tx, timestamp) as u64,
                    throughput_rx: sample_rate(self.throughput.rx.prev, rx, timestamp) as u64,
                },
            )
        } else {
            None
        }
    }

    /// Whether the byte totals `tx` and `rx` can be sampled.
    pub open spec fn can_read(&self, tx: u64, rx: u64) -> bool {
        self.throughput.tx.can_sample(tx) && self.throughput.rx.can_sample(rx)
    }

    /// Whether whatever totals the counters hold can be sampled, as before the first reading.
    pub open spec fn reads_always(&self) -> bool {
        forall|tx: u64, rx: u64| #[trigger] self.can_read(tx, rx)
    }

    /// The current statistics: the byte totals as the counters hold them now, and the
    /// throughputs sampled from them at the current time (see [`StatsTracker::read_totals`]).
    pub fn read(&mut self) -> (r: Option<Stats>)
        ensures
            exists|tx: u64, rx: u64, t: u64|
                r == old(self).stats_at(tx, rx, t) && #[trigger] read_as(*old(self), *final(self), tx, rx, t),
            // It succeeds on whatever totals where every reading can be sampled, as on the first.
            old(self).reads_always() ==> r is Some,
    {
        let bytes_tx = self.bytes.read_tx();
        let bytes_rx = self.bytes.read_rx();
        let now = self.clock.nanos();
        self.read_totals(bytes_tx, bytes_rx, now)
    }

    /// The statistics for the byte totals `tx` and `rx` read at `timestamp` (nanoseconds of the
    /// tracker's clock): the totals and the throughputs sampled from them. Returns `None`,
    /// changing nothing, where a total has grown by more than a thousandth of `u64::MAX` since
    /// the previous reading, as the throughput cannot be computed then.
    pub fn read_totals(&mut self, tx: u64, rx: u64, timestamp: u64) -> (r: Option<Stats>)
        ensures
            r == old(self).stats_at(tx, rx, timestamp),
            read_as(*old(self), *final(self), tx, rx, timestamp),
    {
        if !self.fits(tx, rx) {
            return None;
        }
        let throughput_tx = self.throughput.tx.sample(tx, timestamp);
        let throughput_rx = self.throughput.rx.sample(rx, timestamp);
        Some(Stats { bytes_tx: tx, bytes_rx: rx, throughput_tx, throughput_rx })
    }

    fn fits(&self, tx: u64, rx: u64) -> (r: bool)
        ensures
            r == self.can_read(tx, rx),
    {
        let tx_ok = match &self.throughput.tx.prev {
            Some(p) => tx <= p.bytes || (tx - p.bytes) <= u64::MAX / 1000,
            None => true,
        };
        let rx_ok = match &self.throughput.rx.prev {
            Some(p) => rx <= p.bytes || (rx - p.bytes) <= u64::MAX / 1000,
            None => true,
        };
        tx_ok && rx_ok
    }
}

} // verus!
