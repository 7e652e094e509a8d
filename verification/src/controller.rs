//! The controller: drives the state machine with a clock, a network and a
//! source of UTC.
use crate::clock::{lemma_did_both, made_by, ClockRequest, Steered, SystemClock};
use crate::config::SystemConfig;
use crate::monotonic::{lemma_told_both, Monotonic, Reading};
use crate::ptp::HEADER_SIZE;
use crate::rate_servo::{drift_max, lemma_initial_sound, lemma_restarted_sound, within};
use crate::status::SyncStatus;
use crate::sync_state::{
    handled, lemma_packets_moderate, moderate, signed_micros, step_for, Action, Model, SyncState,
    NTP_STEP_THRESHOLD_US,
};
use crate::time::{Span, WallTime};
use crate::traits::{
    answered_by, outcome, received_by, reception, reset_by, Asked, Failure, Listened, NtpSource,
    Packet, PtpNetwork, Reception,
};
use std::sync::{Arc, RwLock, RwLockWriteGuard};
use std::time::SystemTime;
use vstd::prelude::*;
use vstd::slice::slice_subrange;

verus! {

/// `std::sync::RwLock`: what it holds is shared with other threads, so nothing
/// is said of it.
#[verifier::external_type_specification]
#[verifier::external_body]
#[verifier::reject_recursive_types(T)]
pub struct ExRwLock<T: ?Sized>(RwLock<T>);

/// `std::sync::RwLockWriteGuard`: the sole access to what a lock holds.
#[verifier::external_type_specification]
#[verifier::external_body]
#[verifier::reject_recursive_types(T)]
pub struct ExRwLockWriteGuard<'a, T: ?Sized + 'a>(RwLockWriteGuard<'a, T>);

/// `SystemTime::now`: the present reading of the wall clock, any whatever: the
/// nanoseconds since 1970, or, as an error, those before it.
#[verifier::external_body]
fn wall_reading() -> Result<u128, u128> {
    match SystemTime::now().duration_since(SystemTime::UNIX_EPOCH) {
        Ok(d) => Ok(d.as_nanos()),
        Err(e) => Err(e.duration().as_nanos()),
    }
}

/// `RwLock::write`: the sole access to the shared status; `None` if a thread died
/// while it had it.
#[verifier::external_body]
fn lock_status(shared: &Arc<RwLock<SyncStatus>>) -> Option<RwLockWriteGuard<'_, SyncStatus>> {
    shared.write().ok()
}

/// `RwLockWriteGuard::deref`: the shared status, any whatever.
#[verifier::external_body]
fn held_status<'a>(guard: &'a RwLockWriteGuard<'_, SyncStatus>) -> &'a SyncStatus {
    guard
}

/// `RwLockWriteGuard::deref_mut`: replaces the shared status.
#[verifier::external_body]
fn put_status(guard: &mut RwLockWriteGuard<'_, SyncStatus>, status: SyncStatus) {
    **guard = status;
}

/// The nanoseconds since 1970 that a reading of the wall clock tells.
pub open spec fn reading_nanos(reading: Result<u128, u128>) -> int {
    match reading {
        Ok(n) => if n <= i128::MAX {
            n as int
        } else {
            i128::MAX as int
        },
        Err(n) => if n <= i128::MAX {
            -(n as int)
        } else {
            -(i128::MAX as int)
        },
    }
}

/// The point in time that a reading of the wall clock tells.
pub fn time_of_reading(reading: Result<u128, u128>) -> (r: WallTime)
    ensures
        r.nanos == reading_nanos(reading),
{
    let most: u128 = i128::MAX as u128;
    match reading {
        Ok(n) => WallTime {
            nanos: (if n <= most {
                n
            } else {
                most
            }) as i128,
        },
        Err(n) => WallTime {
            nanos: -((if n <= most {
                n
            } else {
                most
            }) as i128),
        },
    }
}

/// A point in time is what a reading of the wall clock told.
pub closed spec fn was_present(wall: WallTime) -> bool {
    exists|reading: Result<u128, u128>| #[trigger]
        call_ensures(wall_reading, (), reading) && wall.nanos == reading_nanos(reading)
}

/// The present: the point in time that the wall clock's reading tells, whatever it
/// is.
fn wall_clock() -> (r: WallTime)
    ensures
        was_present(r),
        exists|reading: Result<u128, u128>| r.nanos == #[trigger] reading_nanos(reading),
{
    let reading = wall_reading();
    time_of_reading(reading)
}

/// A lock was tried, and gave access or not.
closed spec fn was_locked(lock: Arc<RwLock<SyncStatus>>, open: bool) -> bool {
    exists|g: Option<RwLockWriteGuard<'_, SyncStatus>>| #[trigger]
        call_ensures(lock_status, (&lock,), g) && open == (g is Some)
}

/// A status was copied out of a lock.
closed spec fn was_copied(status: SyncStatus) -> bool {
    exists|g: &RwLockWriteGuard<'_, SyncStatus>, held: &SyncStatus| #[trigger]
        call_ensures(held_status, (g,), held) && status.copies(held)
}

/// A status was put into a lock.
closed spec fn was_put(status: SyncStatus) -> bool {
    exists|g: &mut RwLockWriteGuard<'_, SyncStatus>| #[trigger]
        call_ensures(put_status, (g, status), ())
}

/// The status that is shared with other threads, with a record of what was read
/// from it and of what was published in it.
pub struct Shared {
    pub lock: Arc<RwLock<SyncStatus>>,
    pub read_record: Ghost<Seq<Option<SyncStatus>>>,
    pub record: Ghost<Seq<SyncStatus>>,
}

impl Shared {
    /// What came of every attempt to read so far; `None` where it failed.
    pub open spec fn reads(&self) -> Seq<Option<SyncStatus>> {
        self.read_record@
    }

    /// Everything published so far.
    pub open spec fn published(&self) -> Seq<SyncStatus> {
        self.record@
    }

    pub fn new(lock: Arc<RwLock<SyncStatus>>) -> (r: Shared)
        ensures
            r.lock == lock,
            r.reads() == Seq::<Option<SyncStatus>>::empty(),
            r.published() == Seq::<SyncStatus>::empty(),
    {
        Shared { lock, read_record: Ghost(Seq::empty()), record: Ghost(Seq::empty()) }
    }

    /// Publishes the state, in one go with reading what was published before.
    pub fn tell_state(&mut self, state: &SyncState)
        ensures
            final(self).lock == old(self).lock,
            told_state(*old(self), state@, *final(self)),
    {
        match lock_status(&self.lock) {
            Some(mut guard) => {
                let mut status = held_status(&guard).clone();
                let ghost base = status;
                let wall = wall_clock();
                state.report(&mut status, wall);
                let ghost told = status;
                put_status(&mut guard, status);
                self.read_record = Ghost(self.read_record@.push(Some(base)));
                self.record = Ghost(self.record@.push(told));
                assert(was_put(told));
                assert(was_copied(base));
                assert(was_locked(old(self).lock, true));
                assert(state@.reported(base, wall, self.published().last()));
            },
            None => {
                self.read_record = Ghost(self.read_record@.push(None));
                assert(was_locked(old(self).lock, false));
            },
        }
    }

    /// Publishes the offset to UTC (us), or that there is none, in one go with
    /// reading what was published before.
    pub fn tell_offset(&mut self, offset_us: Option<i64>)
        ensures
            final(self).lock == old(self).lock,
            told_offset(*old(self), offset_us, *final(self)),
    {
        match lock_status(&self.lock) {
            Some(mut guard) => {
                let mut status = held_status(&guard).clone();
                let ghost base = status;
                match offset_us {
                    Some(us) => {
                        status.ntp_offset_us = us;
                        status.ntp_failed = false;
                    },
                    None => {
                        status.ntp_failed = true;
                    },
                }
                let ghost told = status;
                put_status(&mut guard, status);
                self.read_record = Ghost(self.read_record@.push(Some(base)));
                self.record = Ghost(self.record@.push(told));
                assert(was_put(told));
                assert(was_copied(base));
                assert(was_locked(old(self).lock, true));
            },
            None => {
                self.read_record = Ghost(self.read_record@.push(None));
                assert(was_locked(old(self).lock, false));
            },
        }
    }
}

/// Nothing was read and nothing was published.
pub open spec fn silent(before: Shared, after: Shared) -> bool {
    after.reads() == before.reads() && after.published() == before.published()
}

/// The lock was taken, the status copied out, and another one put in.
pub closed spec fn exchanged(
    lock: Arc<RwLock<SyncStatus>>,
    read: SyncStatus,
    put: SyncStatus,
) -> bool {
    was_locked(lock, true) && was_copied(read) && was_put(put)
}

/// The lock gave no access.
pub closed spec fn refused(lock: Arc<RwLock<SyncStatus>>) -> bool {
    was_locked(lock, false)
}

/// The status was read once. If that worked, one status was published in the same
/// go; else none was.
pub open spec fn updated(before: Shared, after: Shared) -> bool {
    &&& after.reads() == before.reads().push(after.reads().last())
    &&& match after.reads().last() {
        Some(base) => {
            &&& after.published() == before.published().push(after.published().last())
            &&& exchanged(before.lock, base, after.published().last())
        },
        None => after.published() == before.published() && refused(before.lock),
    }
}

/// A report of the state at the present was published on top of the status that
/// was read; none, if it could not be read.
pub open spec fn told_state(before: Shared, m: Model, after: Shared) -> bool {
    &&& updated(before, after)
    &&& after.reads().last() matches Some(base) ==> exists|wall: WallTime| #[trigger]
        m.reported(base, wall, after.published().last()) && was_present(wall)
}

/// A status tells an offset to UTC, or that there is none; the rest of it is that of
/// the status before.
pub open spec fn offset_told(
    before: SyncStatus,
    offset_us: Option<i64>,
    after: SyncStatus,
) -> bool {
    after == match offset_us {
        Some(us) => SyncStatus { ntp_offset_us: us, ntp_failed: false, ..before },
        None => SyncStatus { ntp_failed: true, ..before },
    }
}

/// An offset to UTC was published on top of the status that was read, or that there
/// is none; nothing, if the status could not be read.
pub open spec fn told_offset(before: Shared, offset_us: Option<i64>, after: Shared) -> bool {
    &&& updated(before, after)
    &&& after.reads().last() matches Some(base) ==> offset_told(
        base,
        offset_us,
        after.published().last(),
    )
}

/// What was published for an action: the state, if there is something to do.
pub open spec fn told_action(before: Shared, m: Model, action: Action, after: Shared) -> bool {
    if action is Nothing {
        silent(before, after)
    } else {
        told_state(before, m, after)
    }
}

/// An answer as an offset in microseconds.
pub open spec fn answer_micros(answer: Option<(Span, i8)>) -> Option<i64> {
    match answer {
        Some((offset, sign)) => Some(signed_micros(offset, sign) as i64),
        None => None,
    }
}

/// What was published when UTC was asked for, or was not: the offset, or that the
/// source failed.
pub open spec fn told_answer(
    before: Shared,
    asked: bool,
    answer: Option<(Span, i8)>,
    after: Shared,
) -> bool {
    if asked {
        told_offset(before, answer_micros(answer), after)
    } else {
        silent(before, after)
    }
}

/// Whether the clock is stepped at the start, by its offset to UTC.
pub fn needs_initial_step(offset: Span) -> (r: bool)
    ensures
        r == (offset.total_nanos() / 1_000_000 > 50),
{
    offset.as_millis() > 50
}

/// The step at the start that an answer calls for.
pub open spec fn initial_steps(answer: Option<(Span, i8)>) -> Seq<ClockRequest> {
    match answer {
        Some((offset, sign)) => if offset.total_nanos() / 1_000_000 > 50 {
            seq![ClockRequest::Step(offset, sign)]
        } else {
            Seq::empty()
        },
        None => Seq::empty(),
    }
}

/// What happened when UTC was asked for.
pub struct Query {
    /// When it was decided whether to ask.
    pub now: u64,
    /// The answer, if there was one.
    pub answer: Option<(Span, i8)>,
    /// The clock took the step that the answer calls for.
    pub taken: bool,
    /// The time after that.
    pub later: u64,
}

/// The steps that an answer calls for, as requests on the clock.
pub open spec fn requested_steps(answer: Option<(Span, i8)>, requests: Seq<ClockRequest>) -> bool {
    match answer {
        Some((offset, sign)) => match step_for(signed_micros(offset, sign)) {
            Some((micros, s)) => requests.len() == 1 && (requests[0] matches ClockRequest::Step(
                span,
                t,
            ) && span.total_nanos() == micros * 1000 && t == s),
            None => requests.len() == 0,
        },
        None => requests.len() == 0,
    }
}

/// What the clock did of the steps that were asked for: there is one at most.
pub open spec fn outcomes_of(requests: Seq<ClockRequest>, taken: bool) -> Seq<bool> {
    Seq::new(requests.len(), |i: int| taken)
}

/// The answer without the word on whether the clock was stepped.
pub open spec fn answer_of(r: Option<(Span, i8, bool)>) -> Option<(Span, i8)> {
    match r {
        Some((offset, sign, _)) => Some((offset, sign)),
        None => None,
    }
}

/// The word on whether the clock was stepped.
pub open spec fn taken_in(r: Option<(Span, i8, bool)>) -> bool {
    r matches Some((_, _, taken)) && taken
}

/// The state after UTC was asked for, if it was due, and the requests on the clock.
pub open spec fn aligned(
    before: Model,
    due: bool,
    q: Query,
    after: Model,
    requests: Seq<ClockRequest>,
) -> bool {
    if !due {
        after == before && requests.len() == 0 && !q.taken
    } else {
        let m = Model { last_ntp_check: q.now, ..before };
        let n = match q.answer {
            Some((offset, sign)) => m.answered(offset, sign),
            None => m,
        };
        &&& requested_steps(q.answer, requests)
        &&& q.taken ==> requests.len() == 1
        &&& after == if q.taken {
            n.stepped(q.later)
        } else {
            n
        }
    }
}

/// The source of UTC was asked if that was due, and then gave the answer.
pub open spec fn heard<S: NtpSource>(
    due: bool,
    q: Query,
    source_before: Asked<S>,
    source: Asked<S>,
) -> bool {
    if due {
        &&& q.answer == source.answer()
        &&& source.source() == source_before.source()
        &&& source.asks() == source_before.asks() + 1
        &&& answered_by(source_before.source(), q.answer)
    } else {
        source == source_before
    }
}

/// The times that are read for a query: when it is decided whether to ask, and again
/// once the source was asked and the clock took the step.
pub open spec fn query_readings(q: Query, asks: nat, requests: nat) -> Seq<Reading> {
    if q.taken {
        seq![
            Reading { nanos: q.now, asks, requests },
            Reading { nanos: q.later, asks: asks + 1, requests: requests + 1 },
        ]
    } else {
        seq![Reading { nanos: q.now, asks, requests }]
    }
}

/// The requests on the clock that an action makes.
pub open spec fn requested(action: Action) -> Seq<ClockRequest> {
    match action {
        Action::Adjust(factor) => seq![ClockRequest::Frequency(factor)],
        _ => Seq::empty(),
    }
}

/// The resets of the network that an action makes.
pub open spec fn requested_resets(action: Action) -> nat {
    if action is Reset {
        1
    } else {
        0
    }
}

/// How one turn with a PTP message came out: the message was handled, stale
/// messages were dropped, and UTC was asked for.
pub struct Turn<C: SystemClock, N: PtpNetwork> {
    pub now: u64,
    pub wall: WallTime,
    pub action: Action,
    pub handled: Model,
    /// Whether the clock did what the action asks for.
    pub adjusted: Seq<bool>,
    pub query: Query,
    pub steps: Seq<ClockRequest>,
    /// The network once the message was received.
    pub network: N,
    /// The clock once the message was handled.
    pub clock: Steered<C>,
    /// The shared status once the message was handled.
    pub shared: Shared,
}

impl<C: SystemClock, N: PtpNetwork> Turn<C, N> {
    /// It was time to ask for UTC once the message was handled.
    pub open spec fn due(self) -> bool {
        self.handled.pruned(self.wall).ntp_due(self.query.now)
    }
}

/// What was published in a turn: the state, then the offset to UTC.
pub open spec fn told_turn<C: SystemClock, N: PtpNetwork>(
    before: Shared,
    t: Turn<C, N>,
    after: Shared,
) -> bool {
    &&& told_action(before, t.handled, t.action, t.shared)
    &&& told_answer(t.shared, t.due(), t.query.answer, after)
}

/// The times that are read in a turn: before the message is handled, and those of the
/// query.
pub open spec fn turn_readings<C: SystemClock, N: PtpNetwork>(
    t: Turn<C, N>,
    asks: nat,
    requests: nat,
) -> Seq<Reading> {
    seq![Reading { nanos: t.now, asks, requests }] + query_readings(
        t.query,
        asks,
        requests + requested(t.action).len(),
    )
}

/// A turn leads from one state to the other, and makes the requests.
pub open spec fn turned<C: SystemClock, N: PtpNetwork>(
    before: Model,
    p: Packet,
    t: Turn<C, N>,
    after: Model,
    requests: Seq<ClockRequest>,
) -> bool {
    &&& handled(before, p.data, p.arrival, t.now, t.handled, t.action)
    &&& aligned(t.handled.pruned(t.wall), t.due(), t.query, after, t.steps)
    &&& requests == requested(t.action) + t.steps
}

/// Main PTP synchronisation controller.
pub struct PtpController<C: SystemClock, N: PtpNetwork, S: NtpSource> {
    pub clock: Steered<C>,
    pub network: Listened<N>,
    pub ntp: Asked<S>,
    pub state: SyncState,
    pub status_shared: Shared,
    pub time: Monotonic,
}

impl<C: SystemClock, N: PtpNetwork, S: NtpSource> PtpController<C, N, S> {
    /// The shared status and the origin of time are those of another controller.
    pub open spec fn same_surroundings(&self, o: &Self) -> bool {
        self.status_shared.lock == o.status_shared.lock && self.time.start() == o.time.start()
    }

    /// The state is that of another controller, no more was asked of the clock, of
    /// the network and of UTC, and no more was published.
    pub open spec fn unmoved(&self, o: &Self) -> bool {
        &&& self.state@ == o.state@
        &&& self.clock == o.clock
        &&& self.network.resets() == o.network.resets()
        &&& self.ntp == o.ntp
        &&& silent(o.status_shared, self.status_shared)
    }

    /// UTC was asked for since another point in time, if that was due: the clock made
    /// the steps, the source gave the answer, it was published, and the times were
    /// read.
    pub open spec fn kept_to_utc(
        &self,
        o: &Self,
        due: bool,
        q: Query,
        steps: Seq<ClockRequest>,
    ) -> bool {
        &&& self.clock.did(&o.clock, steps, outcomes_of(steps, q.taken))
        &&& heard(due, q, o.ntp, self.ntp)
        &&& told_answer(o.status_shared, due, q.answer, self.status_shared)
        &&& self.time.told(
            &o.time,
            query_readings(q, o.ntp.asks(), o.clock.requests().len()),
        )
    }

    /// A turn with a PTP message was taken since another point in time. The clock made
    /// the requests, and the network was reset, as the message asks for; the source of
    /// UTC was asked if that was due; all was published, and the times were read.
    pub open spec fn took_turn(
        &self,
        o: &Self,
        p: Packet,
        t: Turn<C, N>,
        requests: Seq<ClockRequest>,
    ) -> bool {
        &&& turned(o.state@, p, t, self.state@, requests)
        &&& t.clock.did(&o.clock, requested(t.action), t.adjusted)
        &&& self.clock.did(&t.clock, t.steps, outcomes_of(t.steps, t.query.taken))
        &&& self.clock.did(
            &o.clock,
            requests,
            t.adjusted + outcomes_of(t.steps, t.query.taken),
        )
        &&& self.network.resets() == o.network.resets() + requested_resets(t.action)
        &&& !(t.action is Reset) ==> self.network.network() == t.network
        &&& heard(t.due(), t.query, o.ntp, self.ntp)
        &&& told_turn(o.status_shared, t, self.status_shared)
        &&& was_present(t.wall)
        &&& self.time.told(
            &o.time,
            turn_readings(t, o.ntp.asks(), o.clock.requests().len()),
        )
    }

    /// A controller that has not seen a packet.
    pub fn new(
        clock: C,
        network: N,
        ntp: S,
        status_shared: Arc<RwLock<SyncStatus>>,
        config: SystemConfig,
    ) -> (r: Self)
        ensures
            r.clock.clock() == clock,
            r.clock.requests() == Seq::<ClockRequest>::empty(),
            r.clock.outcomes() == Seq::<bool>::empty(),
            r.network.network() == network,
            r.network.resets() == 0,
            r.network.receptions() == Seq::<Reception>::empty(),
            r.ntp.source() == ntp,
            r.ntp.asks() == 0,
            r.status_shared.lock == status_shared,
            r.status_shared.reads() == Seq::<Option<SyncStatus>>::empty(),
            r.status_shared.published() == Seq::<SyncStatus>::empty(),
            r.time.readings() == Seq::<Reading>::empty(),
            r.state@ == Model::initial(config, 0),
            r.state@.wf(),
            r.state@.has_headroom(),
    {
        PtpController {
            clock: Steered::new(clock),
            network: Listened::new(network),
            ntp: Asked::new(ntp),
            state: SyncState::new(config, 0),
            status_shared: Shared::new(status_shared),
            time: Monotonic::new(),
        }
    }

    pub fn get_status_shared(&self) -> (r: Arc<RwLock<SyncStatus>>)
        ensures
            r == self.status_shared.lock,
    {
        self.status_shared.lock.clone()
    }

    /// Steps the clock once to UTC, if it is far from it.
    pub fn run_ntp_sync(&mut self, skip: bool)
        ensures
            final(self).state == old(self).state,
            final(self).network == old(self).network,
            final(self).status_shared == old(self).status_shared,
            final(self).time == old(self).time,
            skip ==> final(self).clock == old(self).clock && final(self).ntp == old(self).ntp,
            !skip ==> final(self).ntp.asks() == old(self).ntp.asks() + 1,
            final(self).ntp.source() == old(self).ntp.source(),
            !skip ==> answered_by(old(self).ntp.source(), final(self).ntp.answer()),
            !skip ==> exists|done: Seq<bool>| #[trigger]
                final(self).clock.did(
                    &old(self).clock,
                    initial_steps(final(self).ntp.answer()),
                    done,
                ) && (initial_steps(final(self).ntp.answer()).len() == 1 ==> exists|m: &mut C|
                 #[trigger]
                    made_by(
                        m,
                        old(self).clock.clock(),
                        initial_steps(final(self).ntp.answer())[0],
                        done[0],
                    ) && *final(m) == final(self).clock.clock()),
    {
        if skip {
            return;
        }
        let ghost before = self.clock;
        match self.ntp.get_offset() {
            Ok((offset, sign)) => {
                if needs_initial_step(offset) {
                    let outcome = self.clock.step_clock(offset, sign);
                    assert(self.clock.did(
                        &before,
                        initial_steps(self.ntp.answer()),
                        seq![outcome is Ok],
                    ));
                } else {
                    assert(self.clock.did(
                        &before,
                        initial_steps(self.ntp.answer()),
                        Seq::empty(),
                    ));
                }
            },
            Err(_) => {
                assert(self.clock.did(&before, initial_steps(self.ntp.answer()), Seq::empty()));
            },
        }
    }

    /// Asks for UTC, and steps the clock to it if it is off: `None` if no answer came,
    /// else the answer, and whether the clock took a step.
    fn ask_utc(&mut self) -> (r: Option<(Span, i8, bool)>)
        requires
            old(self).state@.wf(),
        ensures
            final(self).state@.wf(),
            final(self).network == old(self).network,
            final(self).same_surroundings(old(self)),
            final(self).time == old(self).time,
            told_answer(
                old(self).status_shared,
                true,
                answer_of(r),
                final(self).status_shared,
            ),
            final(self).ntp.source() == old(self).ntp.source(),
            final(self).ntp.asks() == old(self).ntp.asks() + 1,
            answer_of(r) == final(self).ntp.answer(),
            answered_by(old(self).ntp.source(), answer_of(r)),
            final(self).state@ == match answer_of(r) {
                Some((offset, sign)) => old(self).state@.answered(offset, sign),
                None => old(self).state@,
            },
            exists|requests: Seq<ClockRequest>| #[trigger]
                requested_steps(answer_of(r), requests) && final(self).clock.did(
                    &old(self).clock,
                    requests,
                    outcomes_of(requests, taken_in(r)),
                ) && (taken_in(r) ==> requests.len() == 1) && (requests.len() == 1 ==> exists|
                    m: &mut C,
                | #[trigger]
                    made_by(m, old(self).clock.clock(), requests[0], taken_in(r)) && *final(m)
                        == final(self).clock.clock()),
    {
        let ghost before = self.clock;
        let ghost none: Seq<ClockRequest> = Seq::empty();
        assert(before.did(&before, none, Seq::empty()));
        assert(outcomes_of(none, false) == Seq::<bool>::empty());
        match self.ntp.get_offset() {
            Ok((offset, sign)) => {
                let ghost answer: Option<(Span, i8)> = Some((offset, sign));
                let (offset_us, step) = self.state.ntp_answer(offset, sign);
                self.status_shared.tell_offset(Some(offset_us));
                match step {
                    Some((span, s)) => {
                        let outcome = self.clock.step_clock(span, s);
                        let taken = match outcome {
                            Ok(_) => true,
                            Err(_) => false,
                        };
                        let r = Some((offset, sign, taken));
                        proof {
                            let steps = seq![ClockRequest::Step(span, s)];
                            assert(outcomes_of(steps, taken) == seq![taken]);
                            assert(steps[0] == ClockRequest::Step(span, s));
                            assert(taken_in(r) == taken && taken == (outcome is Ok));
                            assert(exists|m: &mut C| #[trigger]
                                made_by(m, before.clock(), steps[0], taken_in(r)) && *final(m)
                                    == self.clock.clock()) by {
                                let m = choose|m: &mut C| #[trigger]
                                    made_by(
                                        m,
                                        before.clock(),
                                        ClockRequest::Step(span, s),
                                        outcome is Ok,
                                    ) && *final(m) == self.clock.clock();
                                assert(made_by(m, before.clock(), steps[0], taken_in(r)));
                            }
                            assert(self.clock.did(&before, steps, outcomes_of(steps, taken_in(r))));
                            assert(requested_steps(answer_of(r), steps));
                        }
                        r
                    },
                    None => {
                        assert(requested_steps(answer, none));
                        Some((offset, sign, false))
                    },
                }
            },
            Err(_) => {
                self.status_shared.tell_offset(None);
                assert(requested_steps(None, none));
                None
            },
        }
    }

    /// Asks for UTC at a monotonic time, if it is due, and steps the clock to it
    /// if it is off: `None` if nothing was asked or no answer came, else the
    /// answer, and whether the clock took a step.
    pub fn query_ntp_at(&mut self, now: u64) -> (r: Option<(Span, i8, bool)>)
        requires
            old(self).state@.wf(),
        ensures
            final(self).state@.wf(),
            final(self).network == old(self).network,
            final(self).same_surroundings(old(self)),
            final(self).time == old(self).time,
            !old(self).state@.ntp_due(now) ==> {
                &&& r is None
                &&& final(self).state@ == old(self).state@
                &&& final(self).clock == old(self).clock
                &&& final(self).ntp == old(self).ntp
            },
            told_answer(
                old(self).status_shared,
                old(self).state@.ntp_due(now),
                answer_of(r),
                final(self).status_shared,
            ),
            old(self).state@.ntp_due(now) ==> {
                let m = Model { last_ntp_check: now, ..old(self).state@ };
                &&& final(self).ntp.source() == old(self).ntp.source()
                &&& final(self).ntp.asks() == old(self).ntp.asks() + 1
                &&& answer_of(r) == final(self).ntp.answer()
                &&& answered_by(old(self).ntp.source(), answer_of(r))
                &&& final(self).state@ == match answer_of(r) {
                    Some((offset, sign)) => m.answered(offset, sign),
                    None => m,
                }
                &&& exists|requests: Seq<ClockRequest>| #[trigger]
                    requested_steps(answer_of(r), requests) && final(self).clock.did(
                        &old(self).clock,
                        requests,
                        outcomes_of(requests, taken_in(r)),
                    ) && (taken_in(r) ==> requests.len() == 1) && (requests.len() == 1 ==> exists|
                        m: &mut C,
                    | #[trigger]
                        made_by(m, old(self).clock.clock(), requests[0], taken_in(r)) && *final(m)
                            == final(self).clock.clock())
            },
    {
        if self.state.ntp_due(now) {
            self.ask_utc()
        } else {
            None
        }
    }

    /// Looks at a monotonic time whether a master is there. If none is, asks for UTC as
    /// above, if that is due, though the servo may not be locked.
    pub fn query_fallback_at(&mut self, now: u64) -> (r: Option<(Span, i8, bool)>)
        requires
            old(self).state@.wf(),
        ensures
            final(self).state@.wf(),
            final(self).network == old(self).network,
            final(self).same_surroundings(old(self)),
            final(self).time == old(self).time,
            !old(self).state@.watched(now).fallback_due(now) ==> {
                &&& r is None
                &&& final(self).state@ == old(self).state@.watched(now)
                &&& final(self).clock == old(self).clock
                &&& final(self).ntp == old(self).ntp
            },
            told_answer(
                old(self).status_shared,
                old(self).state@.watched(now).fallback_due(now),
                answer_of(r),
                final(self).status_shared,
            ),
            old(self).state@.watched(now).fallback_due(now) ==> {
                let m = Model { last_ntp_check: now, ..old(self).state@.watched(now) };
                &&& final(self).ntp.source() == old(self).ntp.source()
                &&& final(self).ntp.asks() == old(self).ntp.asks() + 1
                &&& answer_of(r) == final(self).ntp.answer()
                &&& answered_by(old(self).ntp.source(), answer_of(r))
                &&& final(self).state@ == match answer_of(r) {
                    Some((offset, sign)) => m.answered(offset, sign),
                    None => m,
                }
                &&& exists|requests: Seq<ClockRequest>| #[trigger]
                    requested_steps(answer_of(r), requests) && final(self).clock.did(
                        &old(self).clock,
                        requests,
                        outcomes_of(requests, taken_in(r)),
                    ) && (taken_in(r) ==> requests.len() == 1) && (requests.len() == 1 ==> exists|
                        m: &mut C,
                    | #[trigger]
                        made_by(m, old(self).clock.clock(), requests[0], taken_in(r)) && *final(m)
                            == final(self).clock.clock())
            },
    {
        let _ = self.state.watch(now);
        if self.state.fallback_due(now) {
            self.ask_utc()
        } else {
            None
        }
    }

    /// Starts the measurement afresh at the present, if the clock took a step: the
    /// present, else nothing.
    fn settle(&mut self, answer: Option<(Span, i8, bool)>) -> (later: u64)
        requires
            old(self).state@.wf(),
        ensures
            final(self).state@.wf(),
            final(self).clock == old(self).clock,
            final(self).network == old(self).network,
            final(self).ntp == old(self).ntp,
            final(self).status_shared == old(self).status_shared,
            if taken_in(answer) {
                &&& final(self).state@ == old(self).state@.stepped(later)
                &&& final(self).time.told(
                    &old(self).time,
                    seq![
                        Reading {
                            nanos: later,
                            asks: old(self).ntp.asks(),
                            requests: old(self).clock.requests().len(),
                        },
                    ],
                )
            } else {
                final(self).state@ == old(self).state@ && final(self).time == old(self).time
            },
    {
        match answer {
            Some((_, _, true)) => {
                let later = self.time.read(&self.clock, &self.ntp);
                self.state.ntp_step_done(true, later);
                later
            },
            Some((_, _, false)) => {
                self.state.ntp_step_done(false, 0);
                0
            },
            None => 0,
        }
    }

    /// Periodic UTC alignment: asks every 30 seconds while locked, and steps the
    /// clock if it is off. A step sets the time and leaves the frequency alone.
    pub fn check_ntp_utc_tracking(&mut self)
        requires
            old(self).state@.wf(),
        ensures
            final(self).state@.wf(),
            final(self).network == old(self).network,
            final(self).same_surroundings(old(self)),
            exists|q: Query, steps: Seq<ClockRequest>| #[trigger]
                aligned(
                    old(self).state@,
                    old(self).state@.ntp_due(q.now),
                    q,
                    final(self).state@,
                    steps,
                ) && final(self).kept_to_utc(
                    old(self),
                    old(self).state@.ntp_due(q.now),
                    q,
                    steps,
                ) && (steps.len() == 1 ==> exists|m: &mut C| #[trigger]
                    made_by(m, old(self).clock.clock(), steps[0], q.taken) && *final(m)
                        == final(self).clock.clock()),
    {
        let now = self.time.read(&self.clock, &self.ntp);
        let ghost timed = *self;
        let ghost due = timed.state@.ntp_due(now);
        let answer = self.query_ntp_at(now);
        let ghost asked = *self;
        let later = self.settle(answer);
        proof {
            let q = Query { now, answer: answer_of(answer), taken: taken_in(answer), later };
            let steps = if due {
                choose|requests: Seq<ClockRequest>| #[trigger]
                    requested_steps(q.answer, requests) && asked.clock.did(
                        &timed.clock,
                        requests,
                        outcomes_of(requests, q.taken),
                    ) && (q.taken ==> requests.len() == 1) && (requests.len() == 1 ==> exists|
                        m: &mut C,
                    | #[trigger]
                        made_by(m, timed.clock.clock(), requests[0], q.taken) && *final(m)
                            == asked.clock.clock())
            } else {
                Seq::empty()
            };
            Self::lemma_query(*old(self), timed, due, q, steps, asked, *self);
            assert(aligned(old(self).state@, due, q, self.state@, steps));
        }
    }

    /// Looks whether a master is there. While none is, UTC alone is kept to: it is
    /// asked for every 30 seconds, and the clock is stepped if it is off.
    pub fn watch_ptp(&mut self)
        requires
            old(self).state@.wf(),
        ensures
            final(self).state@.wf(),
            final(self).network == old(self).network,
            final(self).same_surroundings(old(self)),
            exists|q: Query, steps: Seq<ClockRequest>| #[trigger]
                aligned(
                    old(self).state@.watched(q.now),
                    old(self).state@.watched(q.now).fallback_due(q.now),
                    q,
                    final(self).state@,
                    steps,
                ) && final(self).kept_to_utc(
                    old(self),
                    old(self).state@.watched(q.now).fallback_due(q.now),
                    q,
                    steps,
                ) && (steps.len() == 1 ==> exists|m: &mut C| #[trigger]
                    made_by(m, old(self).clock.clock(), steps[0], q.taken) && *final(m)
                        == final(self).clock.clock()),
    {
        let now = self.time.read(&self.clock, &self.ntp);
        let ghost timed = *self;
        let ghost watched = timed.state@.watched(now);
        let ghost due = watched.fallback_due(now);
        let answer = self.query_fallback_at(now);
        let ghost asked = *self;
        let later = self.settle(answer);
        proof {
            let q = Query { now, answer: answer_of(answer), taken: taken_in(answer), later };
            let steps = if due {
                choose|requests: Seq<ClockRequest>| #[trigger]
                    requested_steps(q.answer, requests) && asked.clock.did(
                        &timed.clock,
                        requests,
                        outcomes_of(requests, q.taken),
                    ) && (q.taken ==> requests.len() == 1) && (requests.len() == 1 ==> exists|
                        m: &mut C,
                    | #[trigger]
                        made_by(m, timed.clock.clock(), requests[0], q.taken) && *final(m)
                            == asked.clock.clock())
            } else {
                Seq::empty()
            };
            Self::lemma_query(*old(self), timed, due, q, steps, asked, *self);
            assert(aligned(watched, due, q, self.state@, steps));
        }
    }

    /// What a query that was read, asked and settled makes of the surroundings.
    proof fn lemma_query(
        before: Self,
        timed: Self,
        due: bool,
        q: Query,
        steps: Seq<ClockRequest>,
        asked: Self,
        after: Self,
    )
        requires
            before.clock == timed.clock,
            before.ntp == timed.ntp,
            before.status_shared == timed.status_shared,
            timed.time == asked.time,
            after.clock == asked.clock,
            after.ntp == asked.ntp,
            after.status_shared == asked.status_shared,
            timed.time.told(
                &before.time,
                seq![
                    Reading {
                        nanos: q.now,
                        asks: before.ntp.asks(),
                        requests: before.clock.requests().len(),
                    },
                ],
            ),
            if q.taken {
                after.time.told(
                    &timed.time,
                    seq![
                        Reading {
                            nanos: q.later,
                            asks: asked.ntp.asks(),
                            requests: asked.clock.requests().len(),
                        },
                    ],
                )
            } else {
                after.time == timed.time
            },
            told_answer(timed.status_shared, due, q.answer, asked.status_shared),
            if due {
                &&& asked.ntp.source() == timed.ntp.source()
                &&& asked.ntp.asks() == timed.ntp.asks() + 1
                &&& q.answer == asked.ntp.answer()
                &&& answered_by(timed.ntp.source(), q.answer)
                &&& asked.clock.did(&timed.clock, steps, outcomes_of(steps, q.taken))
                &&& q.taken ==> steps.len() == 1
            } else {
                asked.ntp == timed.ntp && asked.clock == timed.clock && !q.taken && steps.len() == 0
            },
        ensures
            after.kept_to_utc(&before, due, q, steps),
    {
        let first = Reading {
            nanos: q.now,
            asks: before.ntp.asks(),
            requests: before.clock.requests().len(),
        };
        let second = Reading {
            nanos: q.later,
            asks: asked.ntp.asks(),
            requests: asked.clock.requests().len(),
        };
        let readings = query_readings(q, first.asks, first.requests);
        if q.taken {
            lemma_told_both(before.time, seq![first], timed.time, seq![second], after.time);
            assert(seq![first] + seq![second] =~= readings);
        }
        if !due {
            assert(steps =~= Seq::<ClockRequest>::empty());
            assert(outcomes_of(steps, q.taken) =~= Seq::<bool>::empty());
            assert(before.clock.did(&before.clock, Seq::empty(), Seq::empty()));
        }
    }

    /// Enables or disables periodic UTC tracking.
    pub fn set_ntp_tracking(&mut self, enabled: bool)
        requires
            old(self).state@.wf(),
        ensures
            final(self).state@ == (Model { ntp_tracking_enabled: enabled, ..old(self).state@ }),
            final(self).state@.wf(),
            final(self).clock == old(self).clock,
            final(self).network == old(self).network,
            final(self).ntp == old(self).ntp,
            final(self).status_shared == old(self).status_shared,
            final(self).time == old(self).time,
    {
        self.state.set_ntp_tracking(enabled);
    }

    /// Publishes the state in the shared status.
    pub fn log_status(&mut self)
        ensures
            final(self).state == old(self).state,
            final(self).clock == old(self).clock,
            final(self).network == old(self).network,
            final(self).ntp == old(self).ntp,
            final(self).same_surroundings(old(self)),
            final(self).time == old(self).time,
            told_state(old(self).status_shared, old(self).state@, final(self).status_shared),
    {
        self.status_shared.tell_state(&self.state);
    }

    /// Handles a packet at a monotonic time: what was done; `None` if it is no PTP
    /// message.
    pub fn process_packet_at(
        &mut self,
        data: &[u8],
        arrival: WallTime,
        now: u64,
        wall: WallTime,
    ) -> (r: Option<Action>)
        requires
            old(self).state@.wf(),
            old(self).state@.has_headroom(),
        ensures
            final(self).state@.wf(),
            final(self).same_surroundings(old(self)),
            final(self).ntp == old(self).ntp,
            final(self).time == old(self).time,
            final(self).network.receptions() == old(self).network.receptions(),
            r is None <==> data@.len() < HEADER_SIZE,
            r is None ==> final(self).unmoved(old(self)),
            !(r matches Some(Action::Reset)) ==> final(self).network == old(self).network,
            r is Some && r->0 is Reset ==> exists|m: &mut N| #[trigger]
                reset_by(m, old(self).network.network()) && *final(m)
                    == final(self).network.network(),
            r is Some ==> {
                &&& final(self).network.resets() == old(self).network.resets()
                    + requested_resets(r->0)
                &&& !(r->0 is Adjust) ==> final(self).clock == old(self).clock
            },
            r is Some ==> exists|done: Seq<bool>| #[trigger]
                final(self).clock.did(&old(self).clock, requested(r->0), done) && (requested(
                    r->0,
                ).len() == 1 ==> exists|m: &mut C| #[trigger]
                    made_by(m, old(self).clock.clock(), requested(r->0)[0], done[0]) && *final(m)
                        == final(self).clock.clock()),
            r is Some ==> exists|m: Model| #[trigger]
                handled(old(self).state@, data@, arrival, now, m, r->0) && final(self).state@
                    == m.pruned(wall) && told_action(
                    old(self).status_shared,
                    m,
                    r->0,
                    final(self).status_shared,
                ),
    {
        let ghost before = self.clock;
        let action = match self.state.handle_packet(data, arrival, now) {
            Some(action) => action,
            None => {
                return None;
            },
        };
        let ghost m = self.state@;
        let ghost mut done: Seq<bool> = Seq::empty();
        match action {
            Action::Nothing => {},
            Action::Reset => {
                let _ = self.network.reset();
                self.log_status();
            },
            Action::Adjust(factor) => {
                let outcome = self.clock.adjust_frequency(factor);
                proof {
                    done = seq![outcome is Ok];
                }
                self.log_status();
            },
        }
        assert(handled(old(self).state@, data@, arrival, now, m, action));
        self.state.prune(wall);
        let r = Some(action);
        assert(self.clock.did(&old(self).clock, requested(r->0), done));
        r
    }

    /// One turn of the loop: receives a packet, if there is one, and handles it.
    pub fn process_loop_iteration(&mut self) -> (r: Result<(), Failure>)
        requires
            old(self).state@.wf(),
            old(self).state@.has_headroom(),
        ensures
            final(self).state@.wf(),
            final(self).same_surroundings(old(self)),
            final(self).network.receptions().len() == old(self).network.receptions().len() + 1,
            final(self).network.receptions().drop_last() == old(self).network.receptions(),
            r is Err <==> final(self).network.receptions().last() is Failed,
            match final(self).network.receptions().last() {
                Reception::Packet(p) => if p.data.len() < HEADER_SIZE {
                    final(self).unmoved(old(self)) && exists|m: &mut N| #[trigger]
                        received_by(
                            m,
                            old(self).network.network(),
                            final(self).network.receptions().last(),
                            r,
                        ) && *final(m) == final(self).network.network()
                } else {
                    exists|t: Turn<C, N>, requests: Seq<ClockRequest>| #[trigger]
                        final(self).took_turn(old(self), p, t, requests) && (requested(
                            t.action,
                        ).len() == 1 ==> exists|m: &mut C| #[trigger]
                            made_by(
                                m,
                                old(self).clock.clock(),
                                requested(t.action)[0],
                                t.adjusted[0],
                            ) && *final(m) == t.clock.clock()) && (t.steps.len() == 1 ==> exists|
                            m: &mut C,
                        | #[trigger]
                            made_by(m, t.clock.clock(), t.steps[0], t.query.taken) && *final(m)
                                == final(self).clock.clock()) && (exists|m: &mut N| #[trigger]
                            received_by(
                                m,
                                old(self).network.network(),
                                final(self).network.receptions().last(),
                                r,
                            ) && *final(m) == t.network) && (t.action is Reset ==> exists|
                            m: &mut N,
                        | #[trigger]
                            reset_by(m, t.network) && *final(m) == final(self).network.network())
                },
                _ => final(self).unmoved(old(self)) && final(self).time == old(self).time && exists|
                    m: &mut N,
                | #[trigger]
                    received_by(
                        m,
                        old(self).network.network(),
                        final(self).network.receptions().last(),
                        r,
                    ) && *final(m) == final(self).network.network(),
            },
    {
        let ghost before = self.state@;
        let ghost clock = self.clock;
        let ghost told = self.status_shared;
        let ghost time = self.time;
        let received = self.network.recv_packet();
        let ghost went = outcome(received);
        let ghost network = self.network.network();
        let ghost receptions = self.network.receptions();
        assert(receptions.last() == reception(received));
        assert(exists|m: &mut N| #[trigger]
            received_by(m, old(self).network.network(), receptions.last(), went) && *final(m)
                == network);
        let (data, size, arrival) = match received {
            Ok(Some(packet)) => packet,
            Ok(None) => {
                return Ok(());
            },
            Err(e) => {
                return Err(e);
            },
        };
        let ghost p = Packet { data: data@.take(size as int), arrival };
        assert(receptions.drop_last() == old(self).network.receptions());
        assert(went == Ok::<(), Failure>(()));
        let now = self.time.read(&self.clock, &self.ntp);
        let wall = wall_clock();
        let bytes = slice_subrange(data.as_slice(), 0, size);
        assert(bytes@ == p.data);
        match self.process_packet_at(bytes, arrival, now, wall) {
            Some(action) => {
                let ghost m = choose|m: Model| #[trigger]
                    handled(before, p.data, arrival, now, m, action) && self.state@ == m.pruned(
                        wall,
                    ) && told_action(told, m, action, self.status_shared);
                let ghost adjusted = choose|done: Seq<bool>| #[trigger]
                    self.clock.did(&clock, requested(action), done) && (requested(action).len()
                        == 1 ==> exists|m: &mut C| #[trigger]
                        made_by(m, clock.clock(), requested(action)[0], done[0]) && *final(m)
                            == self.clock.clock());
                let ghost middle = *self;
                assert(requested(action).len() == 1 ==> exists|m: &mut C| #[trigger]
                    made_by(m, clock.clock(), requested(action)[0], adjusted[0]) && *final(m)
                        == middle.clock.clock());
                assert(action is Reset ==> exists|m: &mut N| #[trigger]
                    reset_by(m, network) && *final(m) == middle.network.network());
                self.check_ntp_utc_tracking();
                proof {
                    let (q, steps) = choose|q: Query, steps: Seq<ClockRequest>| #[trigger]
                        aligned(
                            middle.state@,
                            middle.state@.ntp_due(q.now),
                            q,
                            self.state@,
                            steps,
                        ) && self.kept_to_utc(&middle, middle.state@.ntp_due(q.now), q, steps)
                            && (steps.len() == 1 ==> exists|m: &mut C| #[trigger]
                            made_by(m, middle.clock.clock(), steps[0], q.taken) && *final(m)
                                == self.clock.clock());
                    let t = Turn {
                        now,
                        wall,
                        action,
                        handled: m,
                        adjusted,
                        query: q,
                        steps,
                        network,
                        clock: middle.clock,
                        shared: middle.status_shared,
                    };
                    let requests = requested(action) + steps;
                    lemma_did_both(
                        clock,
                        requested(action),
                        adjusted,
                        middle.clock,
                        steps,
                        outcomes_of(steps, q.taken),
                        self.clock,
                    );
                    let (asks, made) = (old(self).ntp.asks(), clock.requests().len());
                    lemma_told_both(
                        time,
                        seq![Reading { nanos: now, asks, requests: made }],
                        middle.time,
                        query_readings(q, asks, made + requested(action).len()),
                        self.time,
                    );
                    assert(told_turn(told, t, self.status_shared));
                    assert(turned(before, p, t, self.state@, requests));
                    assert(self.took_turn(old(self), p, t, requests));
                    assert(t.steps.len() == 1 ==> exists|m: &mut C| #[trigger]
                        made_by(m, t.clock.clock(), t.steps[0], t.query.taken) && *final(m)
                            == self.clock.clock());
                    assert(requested(t.action).len() == 1 ==> exists|m: &mut C| #[trigger]
                        made_by(m, clock.clock(), requested(t.action)[0], t.adjusted[0])
                            && *final(m) == t.clock.clock());
                    assert(self.network.network() == middle.network.network());
                    if action is Reset {
                        let m = choose|m: &mut N| #[trigger]
                            reset_by(m, network) && *final(m) == middle.network.network();
                        assert(reset_by(m, t.network));
                    }
                }
            },
            None => {},
        }
        Ok(())
    }
}

/// A step that the clock did not take leaves everything as it was but the record of
/// UTC: no grace period starts, and nothing that was measured is dropped.
pub proof fn lemma_failed_step(
    before: Model,
    due: bool,
    q: Query,
    after: Model,
    requests: Seq<ClockRequest>,
)
    requires
        aligned(before, due, q, after, requests),
        !q.taken,
    ensures
        after.window == before.window,
        after.last_ntp_step == before.last_ntp_step,
        after.servo == before.servo,
        q.answer is None ==> requests.len() == 0 && after.ntp_samples == before.ntp_samples,
{
}

/// Keeping to UTC sets the time and leaves the frequency alone: every request on
/// the clock is a step, and what the servo learned stays.
pub proof fn lemma_tracking_leaves_frequency(
    before: Model,
    due: bool,
    q: Query,
    after: Model,
    requests: Seq<ClockRequest>,
)
    requires
        aligned(before, due, q, after, requests),
    ensures
        requests.len() <= 1,
        forall|i: int| 0 <= i < requests.len() ==> #[trigger] requests[i] is Step,
        after.servo.detached() == before.servo.detached(),
        after.servo.drift_baseline_ppm == before.servo.drift_baseline_ppm,
        after.servo.applied_freq_ppm == before.servo.applied_freq_ppm,
        after.servo.is_locked == before.servo.is_locked,
{
}

/// The clock is stepped exactly if it was off by more than the threshold, by as
/// much as it was off, towards UTC.
pub proof fn lemma_steps_match_offset(
    before: Model,
    due: bool,
    q: Query,
    after: Model,
    requests: Seq<ClockRequest>,
    offset: Span,
    sign: i8,
)
    requires
        aligned(before, due, q, after, requests),
        due,
        q.answer == Some((offset, sign)),
    ensures
        ({
            let us = signed_micros(offset, sign);
            if -NTP_STEP_THRESHOLD_US <= us <= NTP_STEP_THRESHOLD_US {
                requests.len() == 0
            } else {
                requests.len() == 1 && (requests[0] matches ClockRequest::Step(span, s)
                    && span.total_nanos() * s == us * 1000)
            }
        }),
{
    let us = signed_micros(offset, sign);
    if let Some((micros, s)) = step_for(us) {
        let n = (micros * 1000) as int;
        assert(n * s == us * 1000) by (nonlinear_arith)
            requires
                n == micros * 1000,
                (s == 1 && us == micros) || (s == -1 && us == -micros),
        ;
    }
}

/// One turn of the loop asks the clock for at most one change of frequency, of at
/// most 500 ppm, and at most one step.
pub proof fn lemma_turn_moderate<C: SystemClock, N: PtpNetwork>(
    before: Model,
    p: Packet,
    t: Turn<C, N>,
    after: Model,
    requests: Seq<ClockRequest>,
)
    requires
        before.servo.sound(),
        turned(before, p, t, after, requests),
    ensures
        after.servo.sound(),
        t.handled.servo.sound(),
        moderate(t.action),
        requests.len() <= 2,
        forall|i: int|
            0 <= i < requests.len() && #[trigger] requests[i] is Frequency ==> t.action
                == Action::Adjust(requests[i]->Frequency_0),
{
    lemma_packets_moderate(before, p.data, p.arrival, t.now, t.handled, t.action);
    lemma_tracking_leaves_frequency(
        t.handled.pruned(t.wall),
        t.due(),
        t.query,
        after,
        t.steps,
    );
    lemma_restarted_sound(t.handled.servo);
    let changes = requested(t.action);
    assert(changes.len() <= 1);
    assert forall|i: int| 0 <= i < requests.len() && requests[i] is Frequency implies t.action
        == Action::Adjust(#[trigger] requests[i]->Frequency_0) by {
        if i >= changes.len() {
            assert(requests[i] == t.steps[i - changes.len()]);
        } else {
            assert(requests[i] == changes[i]);
        }
    }
}

/// Something that happens to a controller.
pub enum Event<C: SystemClock, N: PtpNetwork> {
    /// A turn of the loop with a PTP message, and the requests on the clock.
    Message(Packet, Turn<C, N>, Seq<ClockRequest>),
    /// A look whether a master is there, and the steps of the clock.
    Watch(Query, Seq<ClockRequest>),
    /// Periodic UTC tracking was enabled or disabled.
    Tracking(bool),
}

/// An event leads from one state to the other.
pub open spec fn led<C: SystemClock, N: PtpNetwork>(
    before: Model,
    e: Event<C, N>,
    after: Model,
) -> bool {
    match e {
        Event::Message(p, t, requests) => turned(before, p, t, after, requests),
        Event::Watch(q, steps) => aligned(
            before.watched(q.now),
            before.watched(q.now).fallback_due(q.now),
            q,
            after,
            steps,
        ),
        Event::Tracking(enabled) => after == (Model { ntp_tracking_enabled: enabled, ..before }),
    }
}

/// Whatever is published of a state tells a correction within 500 ppm and a rate
/// within 500 us/s.
pub open spec fn tells_bounded(m: Model) -> bool {
    forall|before: SyncStatus, wall: WallTime, after: SyncStatus| #[trigger]
        m.reported(before, wall, after) ==> within(after.drift_ppm, drift_max()) && within(
            after.smoothed_rate_ppm,
            drift_max(),
        )
}

/// An event asks for at most 500 ppm, and what is published in it is bounded.
pub open spec fn event_bounded<C: SystemClock, N: PtpNetwork>(e: Event<C, N>) -> bool {
    e matches Event::Message(_, t, _) ==> moderate(t.action) && tells_bounded(t.handled)
}

/// From the start on, whatever packets come and whenever they come, with UTC or
/// without: the clock is never asked for more than 500 ppm, and every status tells a
/// correction within 500 ppm and a rate within 500 us/s.
pub proof fn lemma_course_bounded<C: SystemClock, N: PtpNetwork>(
    config: SystemConfig,
    now: u64,
    states: Seq<Model>,
    events: Seq<Event<C, N>>,
)
    requires
        states.len() == events.len() + 1,
        states[0] == Model::initial(config, now),
        forall|i: int|
            0 <= i < events.len() ==> led(states[i], #[trigger] events[i], states[i + 1]),
    ensures
        states.last().servo.sound(),
        tells_bounded(states.last()),
        forall|i: int| 0 <= i < events.len() ==> event_bounded(#[trigger] events[i]),
    decreases events.len(),
{
    let n = events.len() as int;
    if n == 0 {
        lemma_initial_sound();
    } else {
        let (earlier, last) = (events.drop_last(), events.last());
        assert forall|i: int| 0 <= i < earlier.len() implies led(
            states.drop_last()[i],
            #[trigger] earlier[i],
            states.drop_last()[i + 1],
        ) by {
            assert(earlier[i] == events[i]);
        }
        lemma_course_bounded(config, now, states.drop_last(), earlier);
        let (before, after) = (states[n - 1], states[n]);
        assert(led(before, events[n - 1], after));
        match last {
            Event::Message(p, t, requests) => {
                lemma_turn_moderate(before, p, t, after, requests);
            },
            Event::Watch(q, steps) => {
                lemma_restarted_sound(before.servo);
            },
            Event::Tracking(_) => {},
        }
        assert forall|i: int| 0 <= i < n implies event_bounded(#[trigger] events[i]) by {
            if i < n - 1 {
                assert(event_bounded(earlier[i]));
            }
        }
    }
}

/// A reading of the wall clock after 1970 is so many nanoseconds after it, and one before
/// it so many before.
pub proof fn lemma_wall_reading(reading: Result<u128, u128>, r: WallTime)
    requires
        call_ensures(time_of_reading, (reading,), r),
    ensures
        reading is Ok && reading->Ok_0 <= i128::MAX ==> r.nanos == reading->Ok_0,
        reading is Err && reading->Err_0 <= i128::MAX ==> r.nanos == -(reading->Err_0 as int),
{
}

} // verus!
