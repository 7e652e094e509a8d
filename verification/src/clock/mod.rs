//! Control of the local clock.
pub mod linux;
pub mod windows;

use crate::ieee::double::Double;
use crate::time::Span;
use crate::traits::Failure;
use vstd::prelude::*;

verus! {

/// Something asked of a clock.
#[derive(Clone, Copy, Debug, PartialEq, Eq, Structural)]
pub enum ClockRequest {
    /// Run at this multiple of the nominal rate.
    Frequency(Double),
    /// Step by this much in the direction of the sign.
    Step(Span, i8),
}

/// A clock that can be steered.
pub trait SystemClock {
    /// Runs the clock at a multiple of its nominal rate.
    fn adjust_frequency(&mut self, factor: Double) -> (r: Result<(), Failure>);

    /// Steps the clock, forwards if the sign is positive.
    fn step_clock(&mut self, offset: Span, sign: i8) -> (r: Result<(), Failure>);
}

/// A call through a reference asked a clock to run at a multiple of its nominal rate,
/// and told whether it does.
pub open spec fn adjusted_by<C: SystemClock>(
    m: &mut C,
    clock: C,
    factor: Double,
    done: bool,
) -> bool {
    *m == clock && exists|r: Result<(), Failure>| #[trigger]
        call_ensures(C::adjust_frequency, (m, factor), r) && done == (r is Ok)
}

/// A call through a reference asked a clock to step, and told whether it did.
pub open spec fn stepped_by<C: SystemClock>(
    m: &mut C,
    clock: C,
    offset: Span,
    sign: i8,
    done: bool,
) -> bool {
    *m == clock && exists|r: Result<(), Failure>| #[trigger]
        call_ensures(C::step_clock, (m, offset, sign), r) && done == (r is Ok)
}

/// A call through a reference made a request on a clock, and told whether the clock
/// did so. What the reference holds in the end is what the call made of the clock.
pub open spec fn made_by<C: SystemClock>(
    m: &mut C,
    clock: C,
    request: ClockRequest,
    done: bool,
) -> bool {
    match request {
        ClockRequest::Frequency(factor) => adjusted_by(m, clock, factor, done),
        ClockRequest::Step(offset, sign) => stepped_by(m, clock, offset, sign, done),
    }
}

/// A call made a request on a clock, and told whether the clock did so.
pub open spec fn made<C: SystemClock>(clock: C, request: ClockRequest, done: bool) -> bool {
    exists|m: &mut C| #[trigger] made_by(m, clock, request, done)
}

/// A call made a request on a clock as it was at some time.
pub open spec fn made_once<C: SystemClock>(request: ClockRequest, done: bool) -> bool {
    exists|clock: C| #[trigger] made(clock, request, done)
}

/// Calls made the requests on a clock, the first one on the clock as it is, and
/// told whether the clock did so.
pub open spec fn performed<C: SystemClock>(
    clock: C,
    requests: Seq<ClockRequest>,
    done: Seq<bool>,
) -> bool {
    &&& done.len() == requests.len()
    &&& requests.len() > 0 ==> made(clock, requests[0], done[0])
    &&& forall|i: int| 0 <= i < requests.len() ==> made_once::<C>(#[trigger] requests[i], done[i])
}

/// A clock with a record of what was asked of it, and of whether it did so.
pub struct Steered<C: SystemClock> {
    clock: C,
    record: Ghost<Seq<ClockRequest>>,
    result_record: Ghost<Seq<bool>>,
}

impl<C: SystemClock> Steered<C> {
    /// The clock.
    pub closed spec fn clock(&self) -> C {
        self.clock
    }

    /// Everything asked of the clock so far.
    pub closed spec fn requests(&self) -> Seq<ClockRequest> {
        self.record@
    }

    /// Whether the clock did what was asked, request by request.
    pub closed spec fn outcomes(&self) -> Seq<bool> {
        self.result_record@
    }

    /// The requests were made since another point in time, with these outcomes. If
    /// there are none, the clock is untouched.
    pub open spec fn did(&self, o: &Self, requests: Seq<ClockRequest>, done: Seq<bool>) -> bool {
        &&& requests.len() == 0 ==> *self == *o
        &&& self.requests() == o.requests() + requests
        &&& self.outcomes() == o.outcomes() + done
        &&& performed(o.clock(), requests, done)
    }

    pub fn new(clock: C) -> (r: Steered<C>)
        ensures
            r.clock() == clock,
            r.requests() == Seq::<ClockRequest>::empty(),
            r.outcomes() == Seq::<bool>::empty(),
    {
        Steered { clock, record: Ghost(Seq::empty()), result_record: Ghost(Seq::empty()) }
    }

    /// Runs the clock at a multiple of its nominal rate.
    pub fn adjust_frequency(&mut self, factor: Double) -> (r: Result<(), Failure>)
        ensures
            final(self).did(old(self), seq![ClockRequest::Frequency(factor)], seq![r is Ok]),
            exists|m: &mut C| #[trigger]
                made_by(m, old(self).clock(), ClockRequest::Frequency(factor), r is Ok)
                    && *final(m) == final(self).clock(),
    {
        let ghost before = self.clock();
        let ghost request = ClockRequest::Frequency(factor);
        let r = self.clock.adjust_frequency(factor);
        self.record = Ghost(self.record@ + seq![request]);
        self.result_record = Ghost(self.result_record@ + seq![r is Ok]);
        assert(exists|m: &mut C| #[trigger]
            call_ensures(C::adjust_frequency, (m, factor), r) && *m == before && *final(m)
                == self.clock());
        assert(exists|m: &mut C| #[trigger]
            made_by(m, before, request, r is Ok) && *final(m) == self.clock()) by {
            let m = choose|m: &mut C| #[trigger]
                call_ensures(C::adjust_frequency, (m, factor), r) && *m == before && *final(m)
                    == self.clock();
            assert(made_by(m, before, request, r is Ok));
        }
        assert(made(before, request, r is Ok));
        r
    }

    /// Steps the clock, forwards if the sign is positive.
    pub fn step_clock(&mut self, offset: Span, sign: i8) -> (r: Result<(), Failure>)
        ensures
            final(self).did(old(self), seq![ClockRequest::Step(offset, sign)], seq![r is Ok]),
            exists|m: &mut C| #[trigger]
                made_by(m, old(self).clock(), ClockRequest::Step(offset, sign), r is Ok)
                    && *final(m) == final(self).clock(),
    {
        let ghost before = self.clock();
        let ghost request = ClockRequest::Step(offset, sign);
        let r = self.clock.step_clock(offset, sign);
        self.record = Ghost(self.record@ + seq![request]);
        self.result_record = Ghost(self.result_record@ + seq![r is Ok]);
        assert(exists|m: &mut C| #[trigger]
            call_ensures(C::step_clock, (m, offset, sign), r) && *m == before && *final(m)
                == self.clock());
        assert(exists|m: &mut C| #[trigger]
            made_by(m, before, request, r is Ok) && *final(m) == self.clock()) by {
            let m = choose|m: &mut C| #[trigger]
                call_ensures(C::step_clock, (m, offset, sign), r) && *m == before && *final(m)
                    == self.clock();
            assert(made_by(m, before, request, r is Ok));
        }
        assert(made(before, request, r is Ok));
        r
    }
}

/// What was done in two goes was done.
pub proof fn lemma_did_both<C: SystemClock>(
    a: Steered<C>,
    first: Seq<ClockRequest>,
    first_done: Seq<bool>,
    b: Steered<C>,
    second: Seq<ClockRequest>,
    second_done: Seq<bool>,
    c: Steered<C>,
)
    requires
        b.did(&a, first, first_done),
        c.did(&b, second, second_done),
    ensures
        c.did(&a, first + second, first_done + second_done),
{
    let (requests, done) = (first + second, first_done + second_done);
    assert forall|i: int| 0 <= i < requests.len() implies made_once::<C>(
        #[trigger] requests[i],
        done[i],
    ) by {
        if i < first.len() {
            assert(made_once::<C>(first[i], first_done[i]));
        } else {
            assert(made_once::<C>(second[i - first.len()], second_done[i - first.len()]));
        }
    }
    assert(c.requests() == a.requests() + (first + second));
    assert(c.outcomes() == a.outcomes() + (first_done + second_done));
}

} // verus!
