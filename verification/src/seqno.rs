//! Monotonic sequence-number generation.
//!
//! A counter hands out strictly increasing 64-bit sequence numbers. Each
//! call reads the current wall-clock-derived nanosecond timestamp and takes
//! it when it is ahead of the last issued value, falling back to
//! `last + 1` otherwise, so the issued values stay loosely correlated with
//! wall-clock time without ever repeating or decreasing.
//!
//! The timestamp is derived from a monotonic clock reading added to an
//! epoch offset captured when the counter (or offset pair) was created, so
//! it keeps increasing even if the system wall clock is adjusted backward.
//! The counter is modeled as exclusively owned state; callers that share
//! one counter do so behind their own synchronization.
//!
//! Hard limit, not a failure mode: the sequence space is 64 bits wide, and
//! issuing past `u64::MAX` is ruled out by precondition rather than
//! recovered from.

use std::time::Instant;
use std::time::SystemTime;
use std::time::UNIX_EPOCH;
use vstd::prelude::*;

verus! {

#[verifier::external_type_specification]
#[verifier::external_body]
pub struct ExInstant(Instant);

/// Relies on `std::time::Instant::now`: an opaque reading of the
/// monotonic clock. Nothing is assumed of the value.
#[verifier::external_body]
fn instant_now() -> (r: Instant) {
    Instant::now()
}

/// Relies on `std::time::SystemTime::now` (converted to nanoseconds since
/// the Unix epoch through `duration_since` and `as_nanos`). Nothing is
/// assumed of the value. A system clock standing before the Unix epoch has
/// no sensible seqno basis; that fatal case aborts here rather than
/// returning.
#[verifier::external_body]
fn epoch_nanos_now() -> (r: u128) {
    SystemTime::now().duration_since(UNIX_EPOCH).expect(
        "system clock stands before the Unix epoch",
    ).as_nanos()
}

/// Relies on `std::time::Instant::elapsed` (converted to nanoseconds
/// through `as_nanos`): the time passed since `start` was captured.
/// Nothing is assumed of the value.
#[verifier::external_body]
fn elapsed_nanos(start: &Instant) -> (r: u128) {
    start.elapsed().as_nanos()
}

/// Captures the pairing of a monotonic-clock reading with the wall-clock
/// nanosecond timestamp it corresponds to. Timestamps derived from the
/// pair are monotonic even if the system wall clock is later adjusted.
pub fn get_epoch_offset() -> (Instant, u128) {
    (instant_now(), epoch_nanos_now())
}

/// A sum clamped to the 64-bit range.
pub open spec fn sat_add_u64(a: int, b: int) -> int {
    if a + b > u64::MAX as int {
        u64::MAX as int
    } else {
        a + b
    }
}

/// The epoch timestamp advanced by an elapsed duration, saturating at the
/// end of the 64-bit sequence space instead of wrapping.
pub fn monotonic_ns_from(epoch_ns: u128, elapsed_ns: u128) -> (r: u64)
    ensures
        r as int == sat_add_u64(epoch_ns as int, elapsed_ns as int),
{
    if epoch_ns > u64::MAX as u128 || elapsed_ns > u64::MAX as u128 - epoch_ns {
        u64::MAX
    } else {
        (epoch_ns + elapsed_ns) as u64
    }
}

/// The current time in nanoseconds since the Unix epoch, read as the
/// monotonic-clock time elapsed since `offset` was captured added to the
/// wall-clock timestamp captured with it.
pub fn current_monotonic_ns(offset: &(Instant, u128)) -> (r: u64)
    ensures
        r as int >= sat_add_u64(offset.1 as int, 0),
{
    let e = elapsed_nanos(&offset.0);
    monotonic_ns_from(offset.1, e)
}

/// The value a counter that last issued `last` hands out when the clock
/// reads `now`: the timestamp when it is ahead, the successor otherwise.
pub open spec fn next_val(last: int, now: int) -> int {
    if now > last {
        now
    } else {
        last + 1
    }
}

/// One step of the counter, on plain values. The returned sequence number
/// is strictly greater than `last` whatever the clock reading was.
pub fn advance_seqno(last: u64, now: u64) -> (r: u64)
    requires
        last < u64::MAX,
    ensures
        r as int == next_val(last as int, now as int),
        r > last,
{
    if now > last {
        now
    } else {
        last + 1
    }
}

/// The values issued by successive counter steps from `seed` under the
/// clock readings `nows`.
pub open spec fn issued(seed: int, nows: Seq<int>) -> Seq<int>
    decreases nows.len(),
{
    if nows.len() == 0 {
        Seq::<int>::empty()
    } else {
        let r = next_val(seed, nows[0]);
        seq![r] + issued(r, nows.skip(1))
    }
}

/// However many counter steps are taken and whatever the clock reads at
/// each, the issued values are strictly increasing — so they hold no
/// duplicate — and every one of them is strictly greater than the value
/// the counter held before the first step.
pub proof fn lemma_issued_strictly_increasing(seed: int, nows: Seq<int>)
    ensures
        issued(seed, nows).len() == nows.len(),
        forall|i: int| 0 <= i < nows.len() ==> #[trigger] issued(seed, nows)[i] > seed,
        forall|i: int, j: int|
            0 <= i < j < nows.len() ==> #[trigger] issued(seed, nows)[i] < #[trigger] issued(
                seed,
                nows,
            )[j],
    decreases nows.len(),
{
    if nows.len() > 0 {
        let r = next_val(seed, nows[0]);
        let tail = issued(r, nows.skip(1));
        lemma_issued_strictly_increasing(r, nows.skip(1));
        assert(issued(seed, nows) == seq![r] + tail);
        assert(issued(seed, nows)[0] == r);
        assert(forall|i: int|
            1 <= i < nows.len() ==> #[trigger] issued(seed, nows)[i] == tail[i - 1]);
    }
}

/// A process-wide generator of strictly increasing sequence numbers,
/// hybridizing wall-clock time with a fallback increment.
pub struct SequenceNumberCounter {
    last: u64,
    clock_start: Instant,
    clock_epoch_ns: u128,
}

impl View for SequenceNumberCounter {
    type V = u64;

    /// The last issued sequence number.
    closed spec fn view(&self) -> u64 {
        self.last
    }
}

impl SequenceNumberCounter {
    /// A counter resuming from `prev`, typically a value persisted before
    /// a restart: every later `next` stays strictly above it.
    pub fn new(prev: u64) -> (c: Self)
        ensures
            c@ == prev,
    {
        let (start, epoch_ns) = get_epoch_offset();
        SequenceNumberCounter { last: prev, clock_start: start, clock_epoch_ns: epoch_ns }
    }

    /// A counter seeded from an explicit clock-offset pair, for callers
    /// that inject their own captured offset.
    pub fn with_offset(prev: u64, start: Instant, epoch_ns: u128) -> (c: Self)
        ensures
            c@ == prev,
    {
        SequenceNumberCounter { last: prev, clock_start: start, clock_epoch_ns: epoch_ns }
    }

    /// The last issued value, without advancing. Since `next` leaves the
    /// counter holding exactly the value it returned, `get` never returns
    /// a value greater than the most recent result of `next`.
    pub fn get(&self) -> (r: u64)
        ensures
            r == self@,
    {
        self.last
    }

    /// Issues a new sequence number, strictly greater than every value
    /// issued before: the current wall-clock-derived timestamp when that
    /// is ahead of the last issued value, its successor otherwise.
    pub fn next(&mut self) -> (r: u64)
        requires
            old(self)@ < u64::MAX,
        ensures
            r == final(self)@,
            r > old(self)@,
    {
        let elapsed = elapsed_nanos(&self.clock_start);
        let now = monotonic_ns_from(self.clock_epoch_ns, elapsed);
        let c = advance_seqno(self.last, now);
        self.last = c;
        c
    }
}

impl Default for SequenceNumberCounter {
    /// A counter seeded with the current wall-clock-derived nanosecond
    /// timestamp, from a freshly captured epoch offset.
    fn default() -> (c: Self) {
        let (start, epoch_ns) = get_epoch_offset();
        let elapsed = elapsed_nanos(&start);
        let seed = monotonic_ns_from(epoch_ns, elapsed);
        SequenceNumberCounter { last: seed, clock_start: start, clock_epoch_ns: epoch_ns }
    }
}

/// Instantiates the contracts of `next` and `get` on one counter: a
/// `next` call that returned `issued_value` left the counter holding that
/// very value, so a following `get` reads back `got == issued_value` and
/// in particular never a greater value.
pub proof fn lemma_get_never_exceeds_last_issued(issued_value: u64, counter_after: u64, got: u64)
    requires
        counter_after == issued_value,
        got == counter_after,
    ensures
        got <= issued_value,
{
}

} // verus!
