use ouisync_network::stats::{ByteCounters, StatsTracker, Throughput};

/// `value` seconds, in the nanoseconds the throughput is timed by.
fn s(value: u64) -> u64 {
    value * 1_000_000_000
}

/// `value` milliseconds, in nanoseconds.
fn ms(value: u64) -> u64 {
    value * 1_000_000
}

#[test]
fn throughput_sanity_check() {
    let mut throughput = Throughput::new();
    let start: u64 = 0;

    assert_eq!(throughput.sample(1024, start), 0);
    assert_eq!(throughput.sample(1024, start + s(1)), 0);
    assert_eq!(throughput.sample(2 * 1024, start + s(2)), 1024);
    assert_eq!(throughput.sample(3 * 1024, start + s(3)), 1024);
}

#[test]
fn throughput_zero_duration() {
    let mut throughput = Throughput::new();
    let start: u64 = 0;

    assert_eq!(throughput.sample(1024, start), 0);
    assert_eq!(throughput.sample(1024, start), 0);
    assert_eq!(throughput.sample(2048, start), 0);

    assert_eq!(throughput.sample(2048, start + s(1)), 0);
    assert_eq!(throughput.sample(3072, start + s(1)), 0);

    assert_eq!(throughput.sample(4096, start + s(2)), 1024);
    assert_eq!(throughput.sample(5120, start + s(2)), 1024);
}

#[test]
fn throughput_negative_duration() {
    let mut throughput = Throughput::new();
    let start: u64 = 0;

    assert_eq!(throughput.sample(1024, start), 0);
    assert_eq!(throughput.sample(2048, start + s(1)), 1024);
    assert_eq!(throughput.sample(3072, start), 1024);
}

#[test]
fn throughput_non_monotonic_bytes() {
    let mut throughput = Throughput::new();
    let start: u64 = 0;

    assert_eq!(throughput.sample(1024, start), 0);
    assert_eq!(throughput.sample(2048, start + s(1)), 1024);
    assert_eq!(throughput.sample(1024, start + s(2)), 0);
}

#[test]
fn throughput_over_given_millis() {
    let mut throughput = Throughput::new();
    assert_eq!(throughput.sample(0, ms(1000)), 0);
    // 500 bytes in 250 ms is 2000 bytes per second.
    assert_eq!(throughput.sample(500, ms(1250)), 2000);
    // No time passed: the previous throughput is kept.
    assert_eq!(throughput.sample(900, ms(1250)), 2000);
}

#[test]
fn throughput_times_by_the_difference_of_instants() {
    let mut throughput = Throughput::new();
    assert_eq!(throughput.sample(0, ms(1) - 1), 0);
    // From just before 1 ms to just past 2 ms is one whole millisecond: 3 bytes in it are
    // 3000 bytes per second.
    assert_eq!(throughput.sample(3, ms(2) + 1), 3000);
    // Less than a whole millisecond later: no time passed, the previous throughput is kept.
    assert_eq!(throughput.sample(10, ms(3)), 3000);
}

#[test]
fn stats_tracker_reads_given_totals() {
    let mut tracker = StatsTracker::new();
    let first = tracker.read_totals(1000, 0, ms(5000)).unwrap();
    assert_eq!((first.bytes_tx, first.throughput_tx), (1000, 0));
    let second = tracker.read_totals(3000, 10, ms(7000)).unwrap();
    assert_eq!((second.bytes_tx, second.bytes_rx, second.throughput_tx, second.throughput_rx), (3000, 10, 1000, 5));
    // A total grown by more than a thousandth of u64::MAX cannot be sampled.
    assert_eq!(tracker.read_totals(u64::MAX, 10, ms(8000)), None);
}

#[test]
fn byte_counters_count() {
    let counters = ByteCounters::new();
    counters.increment_tx(10);
    counters.increment_tx(5);
    counters.increment_rx(7);
    assert_eq!(counters.read_tx(), 15);
    assert_eq!(counters.read_rx(), 7);
}

#[test]
fn stats_tracker_reads_counters() {
    let mut tracker = StatsTracker::new();
    tracker.bytes.increment_tx(100);
    tracker.bytes.increment_rx(200);
    let stats = tracker.read().unwrap();
    assert_eq!(stats.bytes_tx, 100);
    assert_eq!(stats.bytes_rx, 200);
    assert_eq!(stats.throughput_tx, 0);
    assert_eq!(stats.throughput_rx, 0);
}
