use lsm_snapshot::seqno::SequenceNumberCounter;
use lsm_snapshot::seqno::advance_seqno;
use lsm_snapshot::seqno::current_monotonic_ns;
use lsm_snapshot::seqno::get_epoch_offset;
use lsm_snapshot::seqno::monotonic_ns_from;

#[test]
fn new_counter_holds_its_seed() {
    let c = SequenceNumberCounter::new(5);
    assert_eq!(c.get(), 5);
}

#[test]
fn next_is_strictly_greater_than_seed() {
    let mut c = SequenceNumberCounter::new(5);
    let v = c.next();
    assert!(v > 5);
    assert_eq!(c.get(), v);
}

#[test]
fn repeated_next_is_strictly_increasing_with_no_duplicates() {
    let mut c = SequenceNumberCounter::new(0);
    let before = c.get();
    let mut issued = Vec::new();
    for _ in 0..1000 {
        issued.push(c.next());
    }
    for w in issued.windows(2) {
        assert!(w[0] < w[1]);
    }
    for v in &issued {
        assert!(*v > before);
    }
    let mut sorted = issued.clone();
    sorted.sort();
    sorted.dedup();
    assert_eq!(sorted.len(), issued.len());
}

#[test]
fn get_never_exceeds_most_recent_next() {
    let mut c = SequenceNumberCounter::new(7);
    for _ in 0..100 {
        let v = c.next();
        assert!(c.get() <= v);
        assert_eq!(c.get(), v);
    }
}

#[test]
fn get_does_not_advance_the_counter() {
    let mut c = SequenceNumberCounter::new(3);
    let v = c.next();
    assert_eq!(c.get(), v);
    assert_eq!(c.get(), v);
    assert_eq!(c.get(), v);
}

#[test]
fn default_counter_is_seeded_from_the_clock() {
    let mut c = SequenceNumberCounter::default();
    // a nanosecond timestamp of the current era is far above zero
    assert!(c.get() > 0);
    let v = c.next();
    assert!(v > 0);
}

#[test]
fn advance_takes_the_clock_when_it_is_ahead() {
    assert_eq!(advance_seqno(10, 20), 20);
}

#[test]
fn advance_falls_back_to_the_successor_when_the_clock_lags() {
    assert_eq!(advance_seqno(20, 7), 21);
    assert_eq!(advance_seqno(20, 20), 21);
}

#[test]
fn advance_reaches_the_last_usable_value() {
    // the documented hard limit: the step just below the top of the
    // sequence space still succeeds
    assert_eq!(advance_seqno(u64::MAX - 1, 5), u64::MAX);
    assert_eq!(advance_seqno(u64::MAX - 1, u64::MAX), u64::MAX);
}

#[test]
fn monotonic_ns_adds_exactly() {
    assert_eq!(monotonic_ns_from(5, 7), 12);
    assert_eq!(monotonic_ns_from(0, 0), 0);
}

#[test]
fn monotonic_ns_saturates_at_the_sequence_space_limit() {
    assert_eq!(monotonic_ns_from(u64::MAX as u128, 1), u64::MAX);
    assert_eq!(monotonic_ns_from(u64::MAX as u128 + 77, 0), u64::MAX);
}

#[test]
fn clock_readings_never_decrease() {
    let offset = get_epoch_offset();
    let v1 = current_monotonic_ns(&offset);
    let v2 = current_monotonic_ns(&offset);
    assert!(v2 >= v1);
    assert!(v1 > 0);
}
