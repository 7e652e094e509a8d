//! What the controller asks of the clock and publishes, told by what it is given.
use crate::clock::{ClockRequest, Steered, SystemClock};
use crate::controller::{
    aligned, answer_of, initial_steps, lemma_tracking_leaves_frequency, outcomes_of, query_readings,
    requested, requested_steps, taken_in, told_action, told_answer, PtpController, Query, Turn,
};
use crate::config::SystemConfig;
use crate::ieee::double::Double;
use crate::rate_servo::Servo;
use crate::status::SyncStatus;
use crate::sync_laws::{lemma_answer_remembered, lemma_ntp_due, lemma_published};
use crate::sync_state::{handled, signed_micros, step_for, Action, Model};
use crate::time::{Span, WallTime};
use crate::traits::{Failure, NtpSource, PtpNetwork};
use std::sync::{Arc, RwLock};
use vstd::prelude::*;

verus! {

/// No more was asked of a clock.
pub open spec fn left_alone<C: SystemClock>(before: Steered<C>, after: Steered<C>) -> bool {
    after == before
}

/// One step was asked of a clock, and nothing else: so many nanoseconds, backwards if
/// negative.
pub open spec fn asked_to_step<C: SystemClock>(
    before: Steered<C>,
    after: Steered<C>,
    nanos: int,
) -> bool {
    let all = after.requests();
    &&& all.len() == before.requests().len() + 1
    &&& all.drop_last() == before.requests()
    &&& all.last() matches ClockRequest::Step(span, sign) && span.total_nanos() * sign == nanos
}

/// The step at the start has the length and the direction of the answer, for either
/// sign, if the answer is 51 milliseconds or more from UTC; else there is none.
pub proof fn lemma_first_step(offset: Span, sign: i8)
    ensures
        offset.total_nanos() >= 51_000_000 ==> initial_steps(Some((offset, sign))).len() == 1 && (
        initial_steps(Some((offset, sign)))[0] matches ClockRequest::Step(span, s)
            && span.total_nanos() * s == offset.total_nanos() * sign && (s > 0 <==> sign > 0)),
        offset.total_nanos() < 51_000_000 ==> initial_steps(Some((offset, sign))).len() == 0,
        initial_steps(None).len() == 0,
{
}

/// Every first synchronisation that is not skipped asks for UTC once. If the answer is
/// 51 milliseconds or more from it, the clock is asked for one step by the whole offset,
/// in the direction of the answer's sign; else, and without an answer, for nothing.
pub proof fn lemma_first_sync<C: SystemClock, N: PtpNetwork, S: NtpSource>(skip: bool)
    ensures
        forall|c: &mut PtpController<C, N, S>, r: ()| #[trigger]
            call_ensures(PtpController::<C, N, S>::run_ntp_sync, (c, skip), r) ==> {
                let (before, after) = (*c, *final(c));
                &&& skip ==> left_alone(before.clock, after.clock) && after.ntp == before.ntp
                &&& !skip ==> after.ntp.asks() == before.ntp.asks() + 1
                &&& !skip ==> match after.ntp.answer() {
                    Some((offset, sign)) => if offset.total_nanos() >= 51_000_000 {
                        asked_to_step(before.clock, after.clock, offset.total_nanos() * sign)
                    } else {
                        left_alone(before.clock, after.clock)
                    },
                    None => left_alone(before.clock, after.clock),
                }
            },
{
    assert forall|c: &mut PtpController<C, N, S>, r: ()| #[trigger]
        call_ensures(PtpController::<C, N, S>::run_ntp_sync, (c, skip), r) && !skip implies match
        (*final(c)).ntp.answer() {
        Some((offset, sign)) => if offset.total_nanos() >= 51_000_000 {
            asked_to_step((*c).clock, (*final(c)).clock, offset.total_nanos() * sign)
        } else {
            left_alone((*c).clock, (*final(c)).clock)
        },
        None => left_alone((*c).clock, (*final(c)).clock),
    } by {
        let (before, after) = (*c, *final(c));
        let steps = initial_steps(after.ntp.answer());
        assert(after.clock.requests() == before.clock.requests() + steps);
        match after.ntp.answer() {
            Some((offset, sign)) => {
                lemma_first_step(offset, sign);
            },
            None => {},
        }
        if steps.len() == 1 {
            assert((before.clock.requests() + steps).drop_last() =~= before.clock.requests());
        }
    }
}

/// The steps for an answer: one by the whole microseconds of the offset, in its
/// direction, if they are more than 500; else none.
pub proof fn lemma_steps_for(offset: Span, sign: i8, requests: Seq<ClockRequest>)
    requires
        offset.total_nanos() < 0x8000_0000_0000_0000,
        sign == 1 || sign == -1,
        requested_steps(Some((offset, sign)), requests),
    ensures
        ({
            let us = offset.total_nanos() as int / 1000;
            if us > 500 {
                &&& requests.len() == 1
                &&& requests[0] matches ClockRequest::Step(span, s) && span.total_nanos() * s == us
                    * 1000 * sign
            } else {
                requests.len() == 0
            }
        }),
{
    let us = offset.total_nanos() as int / 1000;
    let v = signed_micros(offset, sign);
    assert(v == if sign == 1 {
        us
    } else {
        -us
    }) by (nonlinear_arith)
        requires
            v == us * sign,
            sign == 1 || sign == -1,
    ;
    if us > 500 {
        let (micros, s) = step_for(v)->0;
        if let ClockRequest::Step(span, t) = requests[0] {
            let n = span.total_nanos() as int;
            assert(n * t == us * 1000 * sign) by (nonlinear_arith)
                requires
                    n == us * 1000,
                    t == sign,
            ;
        }
    }
}

/// Every query of UTC at a given time: nothing happens unless it is due. If it is, the
/// source is asked once. An answer is published in microseconds with its sign, and the
/// clock is asked for one step by them if they are more than 500, and for nothing else.
/// Without an answer the clock is left alone, and it is published that there is none.
pub proof fn lemma_utc_query<C: SystemClock, N: PtpNetwork, S: NtpSource>(now: u64)
    ensures
        forall|c: &mut PtpController<C, N, S>, r: Option<(Span, i8, bool)>| #[trigger]
            call_ensures(PtpController::<C, N, S>::query_ntp_at, (c, now), r)
                && (*c).state@.wf() ==> {
                let (before, after) = (*c, *final(c));
                let m = before.state@;
                let due = m.servo.is_locked && m.ntp_tracking_enabled && now >= m.last_ntp_check
                    + 30_000_000_000;
                query_effect(before, due, m, r, now, after)
            },
        forall|c: &mut PtpController<C, N, S>, r: Option<(Span, i8, bool)>| #[trigger]
            call_ensures(PtpController::<C, N, S>::query_fallback_at, (c, now), r)
                && (*c).state@.wf() ==> {
                let (before, after) = (*c, *final(c));
                let m = before.state@;
                let offline = now >= m.last_sync + 30_000_000_000;
                let due = offline && m.ntp_tracking_enabled && now >= m.last_ntp_check
                    + 30_000_000_000;
                query_effect(before, due, Model { ptp_offline: offline, ..m }, r, now, after)
            },
{
    assert forall|c: &mut PtpController<C, N, S>, r: Option<(Span, i8, bool)>| #[trigger]
        call_ensures(PtpController::<C, N, S>::query_ntp_at, (c, now), r)
            && (*c).state@.wf() implies ({
        let (before, after) = (*c, *final(c));
        let m = before.state@;
        let due = m.servo.is_locked && m.ntp_tracking_enabled && now >= m.last_ntp_check
            + 30_000_000_000;
        query_effect(before, due, m, r, now, after)
    }) by {
        let (before, after) = (*c, *final(c));
        lemma_ntp_due(before.state@, now);
        let due = before.state@.ntp_due(now);
        if due {
            let requests = choose|requests: Seq<ClockRequest>| #[trigger]
                requested_steps(answer_of(r), requests) && after.clock.did(
                    &before.clock,
                    requests,
                    outcomes_of(requests, taken_in(r)),
                ) && (taken_in(r) ==> requests.len() == 1);
            lemma_query_effect(before, before.state@, r, now, requests, after);
        }
    }
    assert forall|c: &mut PtpController<C, N, S>, r: Option<(Span, i8, bool)>| #[trigger]
        call_ensures(PtpController::<C, N, S>::query_fallback_at, (c, now), r)
            && (*c).state@.wf() implies ({
        let (before, after) = (*c, *final(c));
        let m = before.state@;
        let offline = now >= m.last_sync + 30_000_000_000;
        let due = offline && m.ntp_tracking_enabled && now >= m.last_ntp_check + 30_000_000_000;
        query_effect(before, due, Model { ptp_offline: offline, ..m }, r, now, after)
    }) by {
        let (before, after) = (*c, *final(c));
        let m = before.state@.watched(now);
        lemma_ntp_due(before.state@, now);
        lemma_ntp_due(m, now);
        if m.fallback_due(now) {
            let requests = choose|requests: Seq<ClockRequest>| #[trigger]
                requested_steps(answer_of(r), requests) && after.clock.did(
                    &before.clock,
                    requests,
                    outcomes_of(requests, taken_in(r)),
                ) && (taken_in(r) ==> requests.len() == 1);
            lemma_query_effect(before, m, r, now, requests, after);
        }
    }
}

/// What a query of UTC does, if it is due.
pub open spec fn query_effect<C: SystemClock, N: PtpNetwork, S: NtpSource>(
    before: PtpController<C, N, S>,
    due: bool,
    m: Model,
    r: Option<(Span, i8, bool)>,
    now: u64,
    after: PtpController<C, N, S>,
) -> bool {
    let (told, tells) = (before.status_shared.published(), after.status_shared.published());
    let read = after.status_shared.reads();
    if !due {
        &&& r is None
        &&& left_alone(before.clock, after.clock) && after.ntp == before.ntp
        &&& after.state@ == m && tells == told
    } else {
        &&& after.ntp.asks() == before.ntp.asks() + 1
        &&& after.state@ == (Model {
            last_ntp_check: now,
            ntp_samples: after.state@.ntp_samples,
            ..m
        })
        &&& match r {
            None => {
                &&& after.ntp.answer() is None
                &&& left_alone(before.clock, after.clock)
                &&& after.state@.ntp_samples == m.ntp_samples
                &&& read.last() is Some ==> tells.len() == told.len() + 1
                    && tells.last().ntp_failed && tells.last().ntp_offset_us
                    == read.last()->0.ntp_offset_us
            },
            Some((offset, sign, taken)) => {
                let us = offset.total_nanos() as int / 1000 * sign;
                &&& after.ntp.answer() == Some((offset, sign))
                &&& offset.total_nanos() < 0x8000_0000_0000_0000 && (sign == 1 || sign == -1) ==> {
                    &&& after.state@.ntp_samples.len() > 0 && after.state@.ntp_samples.last() == us
                    &&& if us > 500 || us < -500 {
                        asked_to_step(before.clock, after.clock, us * 1000) && (taken
                            <==> after.clock.outcomes().last())
                    } else {
                        left_alone(before.clock, after.clock) && !taken
                    }
                    &&& read.last() is Some ==> tells.len() == told.len() + 1
                        && !tells.last().ntp_failed && tells.last().ntp_offset_us == us
                }
            },
        }
    }
}

/// A query that is due does so.
proof fn lemma_query_effect<C: SystemClock, N: PtpNetwork, S: NtpSource>(
    before: PtpController<C, N, S>,
    m: Model,
    r: Option<(Span, i8, bool)>,
    now: u64,
    requests: Seq<ClockRequest>,
    after: PtpController<C, N, S>,
)
    requires
        m.wf(),
        after.ntp.asks() == before.ntp.asks() + 1,
        answer_of(r) == after.ntp.answer(),
        after.state@ == match answer_of(r) {
            Some((offset, sign)) => (Model { last_ntp_check: now, ..m }).answered(offset, sign),
            None => Model { last_ntp_check: now, ..m },
        },
        requested_steps(answer_of(r), requests),
        after.clock.did(
            &before.clock,
            requests,
            outcomes_of(requests, taken_in(r)),
        ),
        taken_in(r) ==> requests.len() == 1,
        told_answer(
            before.status_shared,
            true,
            answer_of(r),
            after.status_shared,
        ),
    ensures
        query_effect(before, true, m, r, now, after),
{
    let all = before.clock.requests() + requests;
    match r {
        Some((offset, sign, taken)) => {
            if offset.total_nanos() < 0x8000_0000_0000_0000 && (sign == 1 || sign == -1) {
                let q = offset.total_nanos() as int / 1000;
                let us = q * sign;
                lemma_answer_remembered(Model { last_ntp_check: now, ..m }, offset, sign);
                lemma_steps_for(offset, sign, requests);
                assert(us == if sign == 1 {
                    q
                } else {
                    -q
                }) by (nonlinear_arith)
                    requires
                        us == q * sign,
                        sign == 1 || sign == -1,
                ;
                assert(q * 1000 * sign == us * 1000) by (nonlinear_arith)
                    requires
                        us == q * sign,
                ;
                if requests.len() == 1 {
                    assert(all.drop_last() =~= before.clock.requests());
                    assert(all.last() == requests[0]);
                    let done = outcomes_of(requests, taken);
                    assert((before.clock.outcomes() + done).last() == done[0]);
                }
            }
        },
        None => {},
    }
}

/// A message that has the clock adjusted asks it for that factor and for nothing else,
/// and what is then published tells the correction that makes the factor.
pub proof fn lemma_adjusted_and_told<C: SystemClock, N: PtpNetwork, S: NtpSource>(
    data: &[u8],
    arrival: WallTime,
    now: u64,
    wall: WallTime,
    factor: Double,
)
    ensures
        forall|c: &mut PtpController<C, N, S>, r: Option<Action>| #[trigger]
            call_ensures(
                PtpController::<C, N, S>::process_packet_at,
                (c, data, arrival, now, wall),
                r,
            ) && (*c).state@.wf() && (*c).state@.has_headroom() && r == Some(
                Action::Adjust(factor),
            ) ==> {
                let (before, after) = (*c, *final(c));
                let tells = after.status_shared.published();
                &&& after.clock.requests() == before.clock.requests().push(
                    ClockRequest::Frequency(factor),
                )
                &&& after.status_shared.reads().last() is Some ==> factor == Double::integer(1).plus(
                    tells.last().drift_ppm.over(Double::integer(1_000_000)),
                )
            },
        forall|c: &mut PtpController<C, N, S>, r: Option<Action>| #[trigger]
            call_ensures(
                PtpController::<C, N, S>::process_packet_at,
                (c, data, arrival, now, wall),
                r,
            ) && (*c).state@.wf() && (*c).state@.has_headroom() && !(r is Some && r->0 is Adjust)
                ==> left_alone((*c).clock, (*final(c)).clock),
{
    assert forall|c: &mut PtpController<C, N, S>, r: Option<Action>| #[trigger]
        call_ensures(
            PtpController::<C, N, S>::process_packet_at,
            (c, data, arrival, now, wall),
            r,
        ) && (*c).state@.wf() && (*c).state@.has_headroom() && r == Some(
            Action::Adjust(factor),
        ) implies ({
        let (before, after) = (*c, *final(c));
        let tells = after.status_shared.published();
        &&& after.clock.requests() == before.clock.requests().push(
            ClockRequest::Frequency(factor),
        )
        &&& after.status_shared.reads().last() is Some ==> factor == Double::integer(1).plus(
            tells.last().drift_ppm.over(Double::integer(1_000_000)),
        )
    }) by {
        let (before, after) = (*c, *final(c));
        assert(requested(r->0) == seq![ClockRequest::Frequency(factor)]);
        assert(before.clock.requests() + seq![ClockRequest::Frequency(factor)]
            =~= before.clock.requests().push(ClockRequest::Frequency(factor)));
        let m = choose|m: Model| #[trigger]
            handled(before.state@, data@, arrival, now, m, r->0) && after.state@ == m.pruned(wall)
                && told_action(
                before.status_shared,
                m,
                r->0,
                after.status_shared,
            );
        lemma_factor_of_state(before.state@, data@, arrival, now, m, factor);
    }
}

/// A state that has the clock adjusted holds the correction that makes the factor.
proof fn lemma_factor_of_state(
    before: Model,
    data: Seq<u8>,
    arrival: WallTime,
    now: u64,
    m: Model,
    factor: Double,
)
    requires
        handled(before, data, arrival, now, m, Action::Adjust(factor)),
    ensures
        factor == Double::integer(1).plus(
            m.servo.last_adj_ppm.over(Double::integer(1_000_000)),
        ),
{
}

/// Every report of the state is published with each thing under its own name.
pub proof fn lemma_status_told<C: SystemClock, N: PtpNetwork, S: NtpSource>()
    ensures
        forall|c: &mut PtpController<C, N, S>, r: ()| #[trigger]
            call_ensures(PtpController::<C, N, S>::log_status, (c,), r) ==> {
                let (m, shared) = ((*c).state@, (*final(c)).status_shared);
                let status = shared.published().last();
                shared.reads().last() is Some ==> {
                    &&& shared.published().len() == (*c).status_shared.published().len() + 1
                    &&& status.drift_ppm == m.servo.last_adj_ppm
                    &&& status.smoothed_rate_ppm == m.servo.smoothed_rate_ppm
                    &&& status.offset_ns == m.last_phase_offset_ns
                    &&& status.is_locked == m.servo.is_locked
                    &&& status.settled == m.clock_settled
                    &&& status.gm_uuid == m.gm
                    &&& status.ntp_offset_us == shared.reads().last()->0.ntp_offset_us
                    &&& status.ntp_failed == shared.reads().last()->0.ntp_failed
                    &&& status.mode@ == "NANO"@ <==> !m.ptp_offline && m.servo.nano.active
                    &&& status.mode@ == "NTP-only"@ <==> m.ptp_offline
                }
            },
{
    assert forall|c: &mut PtpController<C, N, S>, r: ()| #[trigger]
        call_ensures(PtpController::<C, N, S>::log_status, (c,), r) && (
    *final(c)).status_shared.reads().last() is Some implies ({
        let m = (*c).state@;
        let status = (*final(c)).status_shared.published().last();
        &&& status.mode@ == "NANO"@ <==> !m.ptp_offline && m.servo.nano.active
        &&& status.mode@ == "NTP-only"@ <==> m.ptp_offline
    }) by {
        let (m, shared) = ((*c).state@, (*final(c)).status_shared);
        let (base, status) = (shared.reads().last()->0, shared.published().last());
        let wall = choose|wall: WallTime| #[trigger] m.reported(base, wall, status);
        lemma_published(m, base, wall, status);
    }
}

/// What keeping to UTC does to a controller: at most one step is asked of the clock, and
/// nothing else. A step that it took drops what was measured, and starts the time in which
/// pairs do not count; without one, the measurement goes on as it was. The frequency, the
/// lock and the modes stay in any case. What was asked and published tell of no more than
/// one question.
pub open spec fn kept_to_utc_effect<C: SystemClock, N: PtpNetwork, S: NtpSource>(
    before: PtpController<C, N, S>,
    m: Model,
    after: PtpController<C, N, S>,
) -> bool {
    let n = after.state@;
    let asked = after.ntp.asks() - before.ntp.asks();
    let (all, done) = (after.clock.requests(), after.clock.outcomes());
    let steps = all.len() - before.clock.requests().len();
    let taken = steps == 1 && done.len() > 0 && done.last();
    &&& 0 <= steps <= asked <= 1
    &&& steps == 0 ==> left_alone(before.clock, after.clock)
    &&& steps == 1 ==> all.drop_last() == before.clock.requests() && all.last() is Step
    &&& asked == 0 ==> n == m && after.status_shared.published()
        == before.status_shared.published() && after.ntp == before.ntp
    &&& !taken ==> n == (Model {
        last_ntp_check: n.last_ntp_check,
        ntp_samples: n.ntp_samples,
        ..m
    })
    &&& taken ==> n.window.len() == 0 && n.ntp_samples.len() == 0 && n.last_ntp_step is Some
        && n.servo == (Servo { last_offset_us: None, last_offset_time: None, ..m.servo }) && n == (
    Model {
        last_ntp_check: n.last_ntp_check,
        ntp_samples: n.ntp_samples,
        window: n.window,
        last_ntp_step: n.last_ntp_step,
        servo: n.servo,
        ..m
    })
}

/// Every periodic alignment keeps to UTC so, and does nothing while the servo is not
/// locked or tracking is disabled. So does every look at the masters, which also notes
/// whether one is there.
pub proof fn lemma_alignment<C: SystemClock, N: PtpNetwork, S: NtpSource>()
    ensures
        forall|c: &mut PtpController<C, N, S>, r: ()| #[trigger]
            call_ensures(PtpController::<C, N, S>::check_ntp_utc_tracking, (c,), r)
                && (*c).state@.wf() ==> {
                let (before, after) = (*c, *final(c));
                let m = before.state@;
                &&& kept_to_utc_effect(before, m, after)
                &&& !m.servo.is_locked || !m.ntp_tracking_enabled ==> after.ntp.asks()
                    == before.ntp.asks()
            },
        forall|c: &mut PtpController<C, N, S>, r: ()| #[trigger]
            call_ensures(PtpController::<C, N, S>::watch_ptp, (c,), r) && (*c).state@.wf() ==> {
                let (before, after) = (*c, *final(c));
                let offline = after.state@.ptp_offline;
                let m = Model { ptp_offline: offline, ..before.state@ };
                &&& kept_to_utc_effect(before, m, after)
                &&& !offline || !m.ntp_tracking_enabled ==> after.ntp.asks() == before.ntp.asks()
            },
{
    assert forall|c: &mut PtpController<C, N, S>, r: ()| #[trigger]
        call_ensures(PtpController::<C, N, S>::check_ntp_utc_tracking, (c,), r)
            && (*c).state@.wf() implies ({
        let (before, after) = (*c, *final(c));
        let m = before.state@;
        &&& kept_to_utc_effect(before, m, after)
        &&& !m.servo.is_locked || !m.ntp_tracking_enabled ==> after.ntp.asks() == before.ntp.asks()
    }) by {
        let (before, after) = (*c, *final(c));
        let m = before.state@;
        let (q, steps) = choose|q: Query, steps: Seq<ClockRequest>| #[trigger]
            aligned(m, m.ntp_due(q.now), q, after.state@, steps) && after.kept_to_utc(
                &before,
                m.ntp_due(q.now),
                q,
                steps,
            );
        lemma_kept_effect(before, m, m.ntp_due(q.now), q, steps, after);
        lemma_ntp_due(m, q.now);
    }
    assert forall|c: &mut PtpController<C, N, S>, r: ()| #[trigger]
        call_ensures(PtpController::<C, N, S>::watch_ptp, (c,), r) && (*c).state@.wf() implies ({
        let (before, after) = (*c, *final(c));
        let offline = after.state@.ptp_offline;
        let m = Model { ptp_offline: offline, ..before.state@ };
        &&& kept_to_utc_effect(before, m, after)
        &&& !offline || !m.ntp_tracking_enabled ==> after.ntp.asks() == before.ntp.asks()
    }) by {
        let (before, after) = (*c, *final(c));
        let b = before.state@;
        let (q, steps) = choose|q: Query, steps: Seq<ClockRequest>| #[trigger]
            aligned(
                b.watched(q.now),
                b.watched(q.now).fallback_due(q.now),
                q,
                after.state@,
                steps,
            ) && after.kept_to_utc(
                &before,
                b.watched(q.now).fallback_due(q.now),
                q,
                steps,
            );
        let m = b.watched(q.now);
        lemma_kept_effect(before, m, m.fallback_due(q.now), q, steps, after);
        lemma_ntp_due(b, q.now);
        lemma_ntp_due(m, q.now);
        assert(m == Model { ptp_offline: after.state@.ptp_offline, ..b });
    }
}

/// A query that was aligned has that effect.
proof fn lemma_kept_effect<C: SystemClock, N: PtpNetwork, S: NtpSource>(
    before: PtpController<C, N, S>,
    m: Model,
    due: bool,
    q: Query,
    steps: Seq<ClockRequest>,
    after: PtpController<C, N, S>,
)
    requires
        aligned(m, due, q, after.state@, steps),
        after.kept_to_utc(&before, due, q, steps),
    ensures
        kept_to_utc_effect(before, m, after),
        !due ==> after.ntp.asks() == before.ntp.asks(),
{
    let all = before.clock.requests() + steps;
    let done = before.clock.outcomes() + outcomes_of(steps, q.taken);
    lemma_tracking_leaves_frequency(m, due, q, after.state@, steps);
    if steps.len() == 1 {
        assert(all.drop_last() =~= before.clock.requests());
        assert(all.last() == steps[0]);
        assert(done.last() == q.taken);
    } else {
        assert(all =~= before.clock.requests());
    }
}

/// Every turn of the loop without a PTP message does nothing; one with a message of 36
/// bytes or more handles it as the laws on messages say, asks the clock at most for the
/// factor that comes out and for one step, in this order, and hands a failure of the
/// network on.
pub proof fn lemma_turn<C: SystemClock, N: PtpNetwork, S: NtpSource>()
    ensures
        forall|c: &mut PtpController<C, N, S>, r: Result<(), Failure>| #[trigger]
            call_ensures(PtpController::<C, N, S>::process_loop_iteration, (c,), r)
                && (*c).state@.wf() && (*c).state@.has_headroom() ==> {
                let (before, after) = (*c, *final(c));
                let got = after.network.receptions().last();
                let all = after.clock.requests();
                let n = all.len() - before.clock.requests().len();
                &&& after.network.receptions().len() == before.network.receptions().len() + 1
                &&& r is Err <==> got is Failed
                &&& !(got is Packet && got->Packet_0.data.len() >= 36) ==> left_alone(
                    before.clock,
                    after.clock,
                ) && after.state@ == before.state@ && after.ntp == before.ntp
                    && after.status_shared.published() == before.status_shared.published()
                &&& 0 <= n <= 2
                &&& n == 2 ==> all[all.len() - 2] is Frequency && all.last() is Step
                &&& got is Packet && got->Packet_0.data.len() >= 36 ==> exists|
                    now: u64,
                    m: Model,
                    action: Action,
                | #[trigger]
                    handled(
                        before.state@,
                        got->Packet_0.data,
                        got->Packet_0.arrival,
                        now,
                        m,
                        action,
                    ) && (action is Adjust ==> n >= 1 && all[before.clock.requests().len() as int]
                        == ClockRequest::Frequency(action->Adjust_0)) && (!(action is Adjust)
                        ==> n <= 1) && after.network.resets() == before.network.resets() + (
                    if action is Reset {
                        1int
                    } else {
                        0
                    })
            },
{
    assert forall|c: &mut PtpController<C, N, S>, r: Result<(), Failure>| #[trigger]
        call_ensures(PtpController::<C, N, S>::process_loop_iteration, (c,), r) && (*c).state@.wf()
            && (*c).state@.has_headroom() && (
    *final(c)).network.receptions().last() is Packet && ((
    *final(c)).network.receptions().last()->Packet_0).data.len() >= 36 implies ({
        let (before, after) = (*c, *final(c));
        let got = after.network.receptions().last();
        let all = after.clock.requests();
        let n = all.len() - before.clock.requests().len();
        &&& 0 <= n <= 2
        &&& n == 2 ==> all[all.len() - 2] is Frequency && all.last() is Step
        &&& exists|now: u64, m: Model, action: Action| #[trigger]
            handled(before.state@, got->Packet_0.data, got->Packet_0.arrival, now, m, action) && (
            action is Adjust ==> n >= 1 && all[before.clock.requests().len() as int]
                == ClockRequest::Frequency(action->Adjust_0)) && (!(action is Adjust) ==> n <= 1)
                && after.network.resets() == before.network.resets() + (if action is Reset {
                1int
            } else {
                0
            })
    }) by {
        let (before, after) = (*c, *final(c));
        let p = after.network.receptions().last()->Packet_0;
        let (t, requests) = choose|t: Turn<C, N>, requests: Seq<ClockRequest>| #[trigger]
            after.took_turn(&before, p, t, requests);
        let all = before.clock.requests() + requests;
        lemma_tracking_leaves_frequency(
            t.handled.pruned(t.wall),
            t.due(),
            t.query,
            after.state@,
            t.steps,
        );
        assert(requests == requested(t.action) + t.steps);
        if t.action is Adjust {
            assert(requests[0] == ClockRequest::Frequency(t.action->Adjust_0));
        }
        if requests.len() == 2 {
            assert(requests[1] == t.steps[0]);
        }
        assert(handled(before.state@, p.data, p.arrival, t.now, t.handled, t.action));
    }
}

/// Every message that has the network reset has the state published; one that asks for
/// nothing has nothing published.
pub proof fn lemma_published_for<C: SystemClock, N: PtpNetwork, S: NtpSource>(
    data: &[u8],
    arrival: WallTime,
    now: u64,
    wall: WallTime,
)
    ensures
        forall|c: &mut PtpController<C, N, S>, r: Option<Action>| #[trigger]
            call_ensures(
                PtpController::<C, N, S>::process_packet_at,
                (c, data, arrival, now, wall),
                r,
            ) && (*c).state@.wf() && (*c).state@.has_headroom() ==> {
                let (before, after) = (*c, *final(c));
                let (b, a) = (before.status_shared, after.status_shared);
                &&& r is None <==> data@.len() < 36
                &&& r is Some && !(r->0 is Nothing) ==> a.reads().len() == b.reads().len() + 1 && (
                a.reads().last() is Some ==> a.published().len() == b.published().len() + 1)
                &&& r is None || r->0 is Nothing ==> a.published() == b.published()
                &&& after.network.resets() == before.network.resets() + (if r is Some
                    && r->0 is Reset {
                    1int
                } else {
                    0
                })
                &&& after.ntp == before.ntp
                &&& r is None ==> after.state@ == before.state@
                &&& r is Some ==> exists|m: Model| #[trigger]
                    handled(before.state@, data@, arrival, now, m, r->0) && after.state@
                        == m.pruned(wall)
            },
{
}

/// Every periodic alignment decides by a time that it reads first, and counts the next
/// 30 seconds from it. The time from which pairs do not count is read once the source was
/// asked and the clock took the step.
pub proof fn lemma_alignment_times<C: SystemClock, N: PtpNetwork, S: NtpSource>()
    ensures
        forall|c: &mut PtpController<C, N, S>, r: ()| #[trigger]
            call_ensures(PtpController::<C, N, S>::check_ntp_utc_tracking, (c,), r)
                && (*c).state@.wf() ==> {
                let (before, after) = (*c, *final(c));
                let m = before.state@;
                timed_effect(
                    before,
                    after,
                    |now: u64|
                        m.servo.is_locked && m.ntp_tracking_enabled && now >= m.last_ntp_check
                            + 30_000_000_000,
                )
            },
        forall|c: &mut PtpController<C, N, S>, r: ()| #[trigger]
            call_ensures(PtpController::<C, N, S>::watch_ptp, (c,), r) && (*c).state@.wf() ==> {
                let (before, after) = (*c, *final(c));
                let m = before.state@;
                let first = after.time.readings()[before.time.readings().len() as int].nanos;
                &&& timed_effect(
                    before,
                    after,
                    |now: u64|
                        now >= m.last_sync + 30_000_000_000 && m.ntp_tracking_enabled && now
                            >= m.last_ntp_check + 30_000_000_000,
                )
                &&& after.state@.ptp_offline <==> first >= m.last_sync + 30_000_000_000
            },
{
    assert forall|c: &mut PtpController<C, N, S>, r: ()| #[trigger]
        call_ensures(PtpController::<C, N, S>::check_ntp_utc_tracking, (c,), r)
            && (*c).state@.wf() implies ({
        let (before, after) = (*c, *final(c));
        let m = before.state@;
        timed_effect(
            before,
            after,
            |now: u64|
                m.servo.is_locked && m.ntp_tracking_enabled && now >= m.last_ntp_check
                    + 30_000_000_000,
        )
    }) by {
        let (before, after) = (*c, *final(c));
        let m = before.state@;
        let (q, steps) = choose|q: Query, steps: Seq<ClockRequest>| #[trigger]
            aligned(m, m.ntp_due(q.now), q, after.state@, steps) && after.kept_to_utc(
                &before,
                m.ntp_due(q.now),
                q,
                steps,
            );
        lemma_ntp_due(m, q.now);
        lemma_timed_effect(before, m, m.ntp_due(q.now), q, steps, after);
    }
    assert forall|c: &mut PtpController<C, N, S>, r: ()| #[trigger]
        call_ensures(PtpController::<C, N, S>::watch_ptp, (c,), r) && (*c).state@.wf() implies ({
        let (before, after) = (*c, *final(c));
        let m = before.state@;
        let first = after.time.readings()[before.time.readings().len() as int].nanos;
        &&& timed_effect(
            before,
            after,
            |now: u64|
                now >= m.last_sync + 30_000_000_000 && m.ntp_tracking_enabled && now
                    >= m.last_ntp_check + 30_000_000_000,
        )
        &&& after.state@.ptp_offline <==> first >= m.last_sync + 30_000_000_000
    }) by {
        let (before, after) = (*c, *final(c));
        let b = before.state@;
        let (q, steps) = choose|q: Query, steps: Seq<ClockRequest>| #[trigger]
            aligned(
                b.watched(q.now),
                b.watched(q.now).fallback_due(q.now),
                q,
                after.state@,
                steps,
            ) && after.kept_to_utc(
                &before,
                b.watched(q.now).fallback_due(q.now),
                q,
                steps,
            );
        let m = b.watched(q.now);
        lemma_ntp_due(b, q.now);
        lemma_ntp_due(m, q.now);
        lemma_timed_effect(before, m, m.fallback_due(q.now), q, steps, after);
    }
}

/// Whether UTC was asked for was decided by the time that was read first, and the time of a
/// step is the one that was read last, after everything else.
pub open spec fn timed_effect<C: SystemClock, N: PtpNetwork, S: NtpSource>(
    before: PtpController<C, N, S>,
    after: PtpController<C, N, S>,
    due: spec_fn(u64) -> bool,
) -> bool {
    let (old_readings, readings) = (before.time.readings(), after.time.readings());
    let first = readings[old_readings.len() as int];
    let asked = after.ntp.asks() - before.ntp.asks();
    let steps = after.clock.requests().len() - before.clock.requests().len();
    let taken = steps == 1 && after.clock.outcomes().len() > 0 && after.clock.outcomes().last();
    &&& readings.len() == old_readings.len() + (if taken {
        2int
    } else {
        1
    })
    &&& first.asks == before.ntp.asks() && first.requests == before.clock.requests().len()
    &&& asked == 1 <==> due(first.nanos)
    &&& asked == 1 ==> after.state@.last_ntp_check == first.nanos
    &&& taken ==> after.state@.last_ntp_step == Some(readings.last().nanos)
        && readings.last().asks == after.ntp.asks() && readings.last().requests
        == after.clock.requests().len()
}

/// A query that was aligned was timed so.
proof fn lemma_timed_effect<C: SystemClock, N: PtpNetwork, S: NtpSource>(
    before: PtpController<C, N, S>,
    m: Model,
    due: bool,
    q: Query,
    steps: Seq<ClockRequest>,
    after: PtpController<C, N, S>,
)
    requires
        aligned(m, due, q, after.state@, steps),
        after.kept_to_utc(&before, due, q, steps),
    ensures
        timed_effect(before, after, |now: u64| due),
        after.time.readings()[before.time.readings().len() as int].nanos == q.now,
{
    let done = before.clock.outcomes() + outcomes_of(steps, q.taken);
    lemma_tracking_leaves_frequency(m, due, q, after.state@, steps);
    let r = query_readings(q, before.ntp.asks(), before.clock.requests().len());
    let all = before.time.readings() + r;
    assert(all[before.time.readings().len() as int] == r[0]);
    assert(all.last() == r.last());
    if steps.len() == 1 {
        assert(done.last() == q.taken);
    }
}

/// Every new controller: nothing was asked of the clock, of the network or of UTC, nothing
/// was published, and the state is the one before the first packet.
pub proof fn lemma_new_controller<C: SystemClock, N: PtpNetwork, S: NtpSource>(
    clock: C,
    network: N,
    ntp: S,
    status: Arc<RwLock<SyncStatus>>,
    config: SystemConfig,
)
    ensures
        forall|c: PtpController<C, N, S>| #[trigger]
            call_ensures(
                PtpController::<C, N, S>::new,
                (clock, network, ntp, status, config),
                c,
            ) ==> {
                &&& c.clock.clock() == clock && c.clock.requests().len() == 0
                &&& c.network.network() == network && c.network.receptions().len() == 0
                &&& c.network.resets() == 0
                &&& c.ntp.source() == ntp && c.ntp.asks() == 0
                &&& c.status_shared.lock == status && c.status_shared.published().len() == 0
                &&& c.state@ == Model::initial(config, 0)
            },
{
}

} // verus!
