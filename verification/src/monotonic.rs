//! The monotonic clock.
use crate::clock::{Steered, SystemClock};
use crate::traits::{Asked, NtpSource};
use std::time::Instant;
use vstd::prelude::*;

verus! {

/// `std::time::Instant`: a reading of the monotonic clock.
#[verifier::external_type_specification]
#[verifier::external_body]
pub struct ExInstant(Instant);

/// `Instant::now`: the present reading of the monotonic clock, any whatever.
#[verifier::external_body]
fn start_of_time() -> Instant {
    Instant::now()
}

/// `Instant::elapsed`: the nanoseconds since a reading of the monotonic clock,
/// any number whatever.
#[verifier::external_body]
fn nanos_since(start: &Instant) -> u64 {
    start.elapsed().as_nanos() as u64
}

/// A monotonic time was read.
pub closed spec fn was_read(start: Instant, nanos: u64) -> bool {
    call_ensures(nanos_since, (&start,), nanos)
}

/// A monotonic time that was read, with how often UTC had been asked for by then, and
/// how much had been asked of the local clock.
pub struct Reading {
    pub nanos: u64,
    pub asks: nat,
    pub requests: nat,
}

/// The monotonic clock, with a record of what was read.
pub struct Monotonic {
    start: Instant,
    record: Ghost<Seq<Reading>>,
}

impl Monotonic {
    /// The origin of the times.
    pub closed spec fn start(&self) -> Instant {
        self.start
    }

    /// Everything read so far.
    pub closed spec fn readings(&self) -> Seq<Reading> {
        self.record@
    }

    /// The readings were made since another point in time.
    pub open spec fn told(&self, o: &Self, readings: Seq<Reading>) -> bool {
        &&& self.start() == o.start()
        &&& self.readings() == o.readings() + readings
        &&& forall|i: int|
            0 <= i < readings.len() ==> was_read(o.start(), (#[trigger] readings[i]).nanos)
    }

    /// The times count from now on.
    pub fn new() -> (r: Monotonic)
        ensures
            r.readings() == Seq::<Reading>::empty(),
    {
        Monotonic { start: start_of_time(), record: Ghost(Seq::empty()) }
    }

    /// The time (ns), at this point in the course of the clock and the source of UTC.
    pub fn read<C: SystemClock, S: NtpSource>(
        &mut self,
        clock: &Steered<C>,
        ntp: &Asked<S>,
    ) -> (r: u64)
        ensures
            final(self).told(
                old(self),
                seq![Reading { nanos: r, asks: ntp.asks(), requests: clock.requests().len() }],
            ),
    {
        let nanos = nanos_since(&self.start);
        let ghost reading = Reading {
            nanos,
            asks: ntp.asks(),
            requests: clock.requests().len(),
        };
        self.record = Ghost(self.record@ + seq![reading]);
        nanos
    }
}

/// Readings made one after the other.
pub proof fn lemma_told_both(
    first: Monotonic,
    early: Seq<Reading>,
    middle: Monotonic,
    late: Seq<Reading>,
    last: Monotonic,
)
    requires
        middle.told(&first, early),
        last.told(&middle, late),
    ensures
        last.told(&first, early + late),
{
    let all = early + late;
    assert(last.readings() == first.readings() + all);
    assert forall|i: int| 0 <= i < all.len() implies was_read(
        first.start(),
        (#[trigger] all[i]).nanos,
    ) by {
        if i < early.len() {
            assert(all[i] == early[i]);
        } else {
            assert(all[i] == late[i - early.len()]);
        }
    }
}

} // verus!
