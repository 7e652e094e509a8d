//! What the synchronisation does, told by the bytes of messages and by times.
use crate::config::SystemConfig;
use crate::ieee::arith::magnitude_of_int;
use crate::ieee::double::Double;
use crate::ieee::rounding::binary64;
use crate::order::{count_less, integer_keys, least, lemma_least, lemma_median_of_integers};
use crate::ptp::{long, word};
use crate::rate_laws::{lemma_fresh_start, lemma_modes_of_rate};
use crate::rate_servo::Servo;
use crate::status::SyncStatus;
use crate::sync_state::{
    handled, lemma_offset_finite, phase_offset, signed_micros, Action, Model, SyncState,
};
use crate::time::{in_seconds, since, Span, WallTime};
use vstd::prelude::*;

verus! {

/// Two bytes as a number, the high one first.
pub open spec fn pair_at(data: Seq<u8>, i: int) -> int {
    data[i] * 0x100 + data[i + 1]
}

/// Four bytes as a number, the highest one first.
pub open spec fn quad_at(data: Seq<u8>, i: int) -> int {
    data[i] * 0x100_0000 + data[i + 1] * 0x1_0000 + data[i + 2] * 0x100 + data[i + 3]
}

/// A Follow_Up message of 52 bytes or more completes the Sync message that it names, if
/// that waits from the same source: the master's time that it tells and the arrival of
/// the Sync message are processed as a pair. Only a shorter one is ignored for its
/// length.
pub proof fn lemma_follow_up_message(
    before: Model,
    data: Seq<u8>,
    arrival: WallTime,
    now: u64,
    after: Model,
    action: Action,
)
    requires
        data.len() >= 36,
        data[32] == 2,
        handled(before, data, arrival, now, after, action),
    ensures
        data.len() < 52 ==> after == before && action == Action::Nothing,
        data.len() >= 52 ==> {
            let id = pair_at(data, 42) as u16;
            let left = Model { pending: before.pending.remove(id), ..before };
            let sent = quad_at(data, 44) * 1_000_000_000 + quad_at(data, 48);
            if !before.pending.contains_key(id) {
                after == before && action == Action::Nothing
            } else if before.pending[id].source_uuid.bytes@ != data.subrange(22, 28) {
                after == left && action == Action::Nothing
            } else {
                (after, action) == left.paired(
                    sent as i64,
                    before.pending[id].rx_time.epoch_nanos() as i64,
                    now,
                )
            }
        },
{
    let body = data.skip(36);
    if data.len() >= 52 {
        assert(body[6] == data[42] && body[7] == data[43]);
        assert(body[8] == data[44] && body[9] == data[45] && body[10] == data[46] && body[11]
            == data[47]);
        assert(body[12] == data[48] && body[13] == data[49] && body[14] == data[50] && body[15]
            == data[51]);
        assert(long(body, 8) == quad_at(data, 44));
        assert(long(body, 12) == quad_at(data, 48));
        assert(word(body, 6) == pair_at(data, 42));
    }
}

/// A Sync message waits for its Follow_Up under its number, with its source and its
/// arrival, and shows that a master is there. One of 55 bytes or more tells who the
/// grandmaster is: the first one is remembered, and another one than before makes a
/// fresh start.
pub proof fn lemma_sync_message(
    before: Model,
    data: Seq<u8>,
    arrival: WallTime,
    now: u64,
    after: Model,
    action: Action,
)
    requires
        data.len() >= 36,
        data[32] == 0,
        handled(before, data, arrival, now, after, action),
    ensures
        ({
            let id = pair_at(data, 30) as u16;
            let master = data.subrange(49, 55);
            let other = data.len() >= 55 && before.gm is Some && before.gm->0.bytes@ != master;
            &&& after.pending.contains_key(id) && after.pending[id].rx_time == arrival
            &&& after.pending[id].source_uuid.bytes@ == data.subrange(22, 28)
            &&& after.pending.remove(id) == before.pending.remove(id)
            &&& after.last_sync == now && !after.ptp_offline
            &&& action == if other {
                Action::Reset
            } else {
                Action::Nothing
            }
            &&& data.len() < 55 ==> after.gm == before.gm
            &&& data.len() >= 55 ==> after.gm is Some && after.gm->0.bytes@ == master
            &&& !other ==> after == (Model {
                pending: after.pending,
                gm: after.gm,
                last_sync: now,
                ptp_offline: false,
                ..before
            })
            &&& other ==> {
                &&& after.valid_count == 0 && !after.clock_settled && after.window.len() == 0
                &&& after.prev_t1_ns == 0 && after.prev_t2_ns == 0
                &&& after.warmup_start == now && !after.warmup_complete
                &&& after.ntp_samples.len() == 0 && after.last_ntp_check == now
                &&& after.last_ntp_step is None
                &&& after.servo == before.servo.restarted()
                &&& after == (Model {
                    pending: after.pending,
                    gm: after.gm,
                    last_sync: now,
                    ptp_offline: false,
                    valid_count: 0,
                    clock_settled: false,
                    window: after.window,
                    prev_t1_ns: 0,
                    prev_t2_ns: 0,
                    warmup_start: now,
                    warmup_complete: false,
                    ntp_samples: after.ntp_samples,
                    last_ntp_check: now,
                    last_ntp_step: None,
                    servo: after.servo,
                    ..before
                })
            }
        }),
{
    let id = pair_at(data, 30) as u16;
    let body = data.skip(36);
    if data.len() >= 55 {
        assert(body.subrange(13, 19) =~= data.subrange(49, 55));
    }
    assert(word(data, 30) == pair_at(data, 30));
    assert(after.pending.remove(id) =~= before.pending.remove(id));
}

/// Messages other than Sync and Follow_Up change nothing.
pub proof fn lemma_other_message(
    before: Model,
    data: Seq<u8>,
    arrival: WallTime,
    now: u64,
    after: Model,
    action: Action,
)
    requires
        data.len() >= 36,
        data[32] != 0,
        data[32] != 2,
        handled(before, data, arrival, now, after, action),
    ensures
        after == before,
        action == Action::Nothing,
{
}

/// After a Sync message of another grandmaster, the first offset measures no drift
/// whatever it is, the clock goes on at the frequency that was learned, and nothing
/// depends on the offset and the time that were measured last against the old one.
pub proof fn lemma_other_grandmaster(
    before: Model,
    data: Seq<u8>,
    arrival: WallTime,
    now: u64,
    after: Model,
    offset_us: Double,
    later: u64,
    old_offset: Option<Double>,
    old_time: Option<u64>,
)
    requires
        before.servo.sound(),
        data.len() >= 36,
        data[32] == 0,
        handled(before, data, arrival, now, after, Action::Reset),
    ensures
        ({
            let n = after.servo.after(offset_us, later);
            &&& n.smoothed_rate_ppm.value() == 0
            &&& n.drift_baseline_ppm.value() == before.servo.drift_baseline_ppm.value()
            &&& n.last_adj_ppm.value() == before.servo.drift_baseline_ppm.value()
            &&& after.servo.applied_freq_ppm == before.servo.applied_freq_ppm
            &&& (Servo {
                last_offset_us: old_offset,
                last_offset_time: old_time,
                ..before.servo
            }).restarted() == after.servo
        }),
{
    lemma_sync_message(before, data, arrival, now, after, Action::Reset);
    lemma_fresh_start(before.servo, old_offset, old_time, offset_us, later);
}

/// The phase offset is local minus master time up to whole seconds, and the least such
/// one.
pub proof fn lemma_phase_offset(t1_ns: int, t2_ns: int)
    requires
        0 <= t1_ns,
        0 <= t2_ns,
    ensures
        -500_000_000 <= phase_offset(t1_ns, t2_ns) <= 500_000_000,
        (phase_offset(t1_ns, t2_ns) - (t2_ns - t1_ns)) % 1_000_000_000 == 0,
{
}

/// While phase offsets are collected for the calibration, a pair adds its own and does
/// nothing else; the last one that is needed sets the calibration to their median.
pub proof fn lemma_calibrating_pair(m: Model, t1_ns: i64, t2_ns: i64, now: u64)
    requires
        !m.calibration_complete,
        m.config.filters.calibration_samples > 0,
    ensures
        ({
            let (n, action) = m.paired(t1_ns, t2_ns, now);
            let all = m.calibration.push(phase_offset(t1_ns as int, t2_ns as int) as i64);
            let done = all.len() >= m.config.filters.calibration_samples;
            let median = n.calibration_offset_ns;
            &&& action == Action::Nothing
            &&& n == (Model {
                calibration: all,
                calibration_complete: done,
                calibration_offset_ns: median,
                ..m
            })
            &&& !done ==> median == m.calibration_offset_ns
            &&& done ==> all.contains(median) && count_less(integer_keys(all), median as int)
                <= all.len() / 2 && count_less(integer_keys(all), median + 1) > all.len() / 2
        }),
{
    lemma_median_of_integers(
        m.calibration.push(phase_offset(t1_ns as int, t2_ns as int) as i64),
    );
}

/// A pair is ignored until the warm-up is over.
pub proof fn lemma_warming_pair(m: Model, t1_ns: i64, t2_ns: i64, now: u64)
    requires
        m.calibration_complete,
        !m.warmup_complete,
        Double::zero().below(m.config.filters.warmup_secs),
        in_seconds(since(m.warmup_start, now)).below(m.config.filters.warmup_secs),
    ensures
        m.paired(t1_ns, t2_ns, now) == (m, Action::Nothing),
{
    reveal(Double::value);
}

/// A pair that comes after the warm-up is counted, and settles the synchronisation.
/// Unless the clock was stepped within the last two seconds, or less than the least
/// distance lies between it and the last one in the master's time, its calibrated phase
/// offset goes into the window. A full window is emptied, its least offset is kept, and
/// it is handed to the servo in microseconds; the clock is asked to run at the factor of
/// the correction that comes out.
pub proof fn lemma_counted_pair(m: Model, t1_ns: i64, t2_ns: i64, now: u64)
    requires
        m.calibration_complete || m.config.filters.calibration_samples == 0,
        m.warmup_complete || m.config.filters.warmup_secs.at_most(Double::zero())
            || m.config.filters.warmup_secs.at_most(in_seconds(since(m.warmup_start, now))),
        m.valid_count < usize::MAX,
        m.settling_threshold <= 1,
    ensures
        ({
            let (n, action) = m.paired(t1_ns, t2_ns, now);
            let phase = phase_offset(t1_ns as int, t2_ns as int) as i64;
            let grace = m.last_ntp_step is Some && now - m.last_ntp_step->0 < 2_000_000_000;
            let distance = if m.config.filters.min_delta_ns > 0 {
                m.config.filters.min_delta_ns as int
            } else {
                100_000_000
            };
            let apart = m.prev_t1_ns == 0 || t1_ns - m.prev_t1_ns >= distance || m.prev_t1_ns
                - t1_ns >= distance;
            let w = if !grace && apart {
                m.window.push((phase - m.calibration_offset_ns) as i64)
            } else {
                m.window
            };
            let full = w.len() > 0 && w.len() >= m.config.filters.sample_window_size;
            let lucky = n.last_phase_offset_ns;
            let us = Double::integer(lucky as int).over(Double::integer(1000));
            &&& n.valid_count == m.valid_count + 1 && n.clock_settled && n.warmup_complete
            &&& n.prev_t1_ns == t1_ns && n.prev_t2_ns == t2_ns
            &&& !full ==> n.window == w && n.servo == m.servo && lucky == m.last_phase_offset_ns
                && action == Action::Nothing
            &&& full ==> n.window.len() == 0 && w.contains(lucky) && forall|i: int|
                0 <= i < w.len() ==> lucky <= #[trigger] w[i]
            &&& full && grace ==> n.servo == m.servo && action == Action::Nothing
            &&& full && !grace ==> {
                &&& n.servo == m.servo.after(us, now)
                &&& action == Action::Adjust(
                    Double::integer(1).plus(
                        n.servo.last_adj_ppm.over(Double::integer(1_000_000)),
                    ),
                )
            }
            &&& n == (Model {
                valid_count: n.valid_count,
                clock_settled: true,
                warmup_complete: true,
                prev_t1_ns: t1_ns,
                prev_t2_ns: t2_ns,
                window: n.window,
                last_phase_offset_ns: lucky,
                servo: n.servo,
                initial_epoch_offset_ns: n.initial_epoch_offset_ns,
                epoch_aligned: n.epoch_aligned,
                ..m
            })
            &&& m.clock_settled ==> n.initial_epoch_offset_ns == m.initial_epoch_offset_ns
                && n.epoch_aligned == m.epoch_aligned
            &&& !m.clock_settled ==> n.epoch_aligned && n.initial_epoch_offset_ns
                == t2_ns.wrapping_sub(t1_ns)
        }),
{
    let phase = phase_offset(t1_ns as int, t2_ns as int) as i64;
    let pushed = m.window.push((phase - m.calibration_offset_ns) as i64);
    lemma_least(pushed);
    if m.window.len() > 0 {
        lemma_least(m.window);
    }
}

/// UTC is asked for exactly while locked and enabled, once 30 seconds have passed.
pub proof fn lemma_ntp_due(m: Model, now: u64)
    ensures
        m.ntp_due(now) <==> m.servo.is_locked && m.ntp_tracking_enabled && now
            >= m.last_ntp_check + 30_000_000_000,
        m.fallback_due(now) <==> m.ptp_offline && m.ntp_tracking_enabled && now
            >= m.last_ntp_check + 30_000_000_000,
        m.watched(now) == (Model {
            ptp_offline: now >= m.last_sync + 30_000_000_000,
            ..m
        }),
{
}

/// An offset to UTC is remembered in whole microseconds with its sign, after the latest
/// ones before it, seven in all; nothing else changes.
pub proof fn lemma_answer_remembered(m: Model, offset: Span, sign: i8)
    requires
        m.ntp_samples.len() <= 7,
        offset.total_nanos() < 0x8000_0000_0000_0000,
        sign == 1 || sign == -1,
    ensures
        ({
            let n = m.answered(offset, sign);
            let us = n.ntp_samples.last() as int;
            &&& us * 1000 <= offset.total_nanos() * sign + 999
            &&& us * 1000 >= offset.total_nanos() * sign - 999
            &&& sign == 1 ==> us == offset.total_nanos() as int / 1000
            &&& sign == -1 ==> us == -(offset.total_nanos() as int / 1000)
            &&& signed_micros(offset, sign) == us
            &&& n.ntp_samples.drop_last() == if m.ntp_samples.len() < 7 {
                m.ntp_samples
            } else {
                m.ntp_samples.drop_first()
            }
            &&& n == (Model { ntp_samples: n.ntp_samples, ..m })
        }),
{
    let n = m.answered(offset, sign);
    assert(n.ntp_samples.drop_last() =~= if m.ntp_samples.len() < 7 {
        m.ntp_samples
    } else {
        m.ntp_samples.drop_first()
    });
    let t = offset.total_nanos() as int;
    assert((t / 1000) * sign == if sign == 1 {
        t / 1000
    } else {
        -(t / 1000)
    }) by (nonlinear_arith)
        requires
            sign == 1 || sign == -1,
    ;
    assert(t * sign == if sign == 1 {
        t
    } else {
        -t
    }) by (nonlinear_arith)
        requires
            sign == 1 || sign == -1,
    ;
}

/// A step of the clock drops what was measured before it, and starts the two seconds in
/// which pairs do not count. The frequency, the lock and the modes stay.
pub proof fn lemma_stepped(m: Model, now: u64, later: u64)
    ensures
        ({
            let n = m.stepped(now);
            &&& n.window.len() == 0 && n.ntp_samples.len() == 0
            &&& n.last_ntp_step == Some(now)
            &&& n.servo.last_offset_us is None && n.servo.last_offset_time is None
            &&& n.servo == (Servo { last_offset_us: None, last_offset_time: None, ..m.servo })
            &&& n == (Model {
                window: n.window,
                ntp_samples: n.ntp_samples,
                last_ntp_step: Some(now),
                servo: n.servo,
                ..m
            })
            &&& n.in_grace(later) <==> later < now + 2_000_000_000
        }),
{
}

/// What is published after a sample that adjusts the clock belongs together: the
/// correction is the one whose factor was asked of the clock, and the lock and the mode
/// are those that the published rate decides.
pub proof fn lemma_published_together(
    m: Model,
    t1_ns: i64,
    t2_ns: i64,
    now: u64,
    n: Model,
    factor: Double,
    base: SyncStatus,
    wall: WallTime,
    status: SyncStatus,
)
    requires
        m.servo.sound(),
        m.has_headroom(),
        m.paired(t1_ns, t2_ns, now) == (n, Action::Adjust(factor)),
        n.reported(base, wall, status),
        !n.ptp_offline,
    ensures
        factor == Double::integer(1).plus(status.drift_ppm.over(Double::integer(1_000_000))),
        ({
            let one = binary64().one() as int;
            let a = magnitude_of_int(status.smoothed_rate_ppm.value());
            let k = m.servo.lock_stable_count;
            &&& a < 5 * one ==> (status.is_locked <==> m.servo.is_locked || k + 1 >= 5)
            &&& a >= 5 * one ==> (status.is_locked <==> m.servo.is_locked && k >= 2)
            &&& a > 20 * one && !status.is_locked && !n.servo.nano.active ==> status.mode@
                == "ACQ"@
            &&& a < 5 * one && !status.is_locked && !n.servo.nano.active ==> status.mode@
                == "PROD"@
            &&& status.is_locked && !n.servo.nano.active ==> status.mode@ == "LOCK"@
            &&& n.servo.nano.active ==> status.mode@ == "NANO"@
            &&& m.servo.is_locked && a > one && !m.servo.nano.active ==> status.mode@ != "NANO"@
            &&& m.servo.is_locked && 2 * a < one && m.servo.nano.active ==> status.mode@ == "NANO"@
        }),
{
    let us = Double::integer(n.last_phase_offset_ns as int).over(Double::integer(1000));
    lemma_offset_finite(n.last_phase_offset_ns);
    lemma_modes_of_rate(m.servo, us, now);
    lemma_mode_names();
}

/// What is published of a state: each thing under its own name, and what the queries of
/// UTC told stays.
pub proof fn lemma_published(m: Model, base: SyncStatus, wall: WallTime, status: SyncStatus)
    requires
        m.reported(base, wall, status),
    ensures
        status.offset_ns == m.last_phase_offset_ns,
        status.gm_uuid == m.gm,
        status.settled == m.clock_settled,
        status.is_locked == m.servo.is_locked,
        status.ntp_offset_us == base.ntp_offset_us,
        status.ntp_failed == base.ntp_failed,
        0 <= wall.nanos < 0x1_0000_0000_0000_0000 ==> status.updated_ts * 1_000_000_000
            <= wall.nanos < (status.updated_ts + 1) * 1_000_000_000,
        status.mode@ == "NTP-only"@ <==> m.ptp_offline,
        status.mode@ == "NANO"@ <==> !m.ptp_offline && m.servo.nano.active,
        status.mode@ == "LOCK"@ <==> !m.ptp_offline && !m.servo.nano.active && m.servo.is_locked,
        status.mode@ == "PROD"@ <==> !m.ptp_offline && !m.servo.nano.active && !m.servo.is_locked
            && m.servo.in_production_mode,
        status.mode@ == "ACQ"@ <==> !m.ptp_offline && !m.servo.nano.active && !m.servo.is_locked
            && !m.servo.in_production_mode,
{
    lemma_mode_names();
}

/// The names of the modes differ.
proof fn lemma_mode_names()
    ensures
        "NTP-only"@ != "NANO"@,
        "NTP-only"@ != "LOCK"@,
        "NTP-only"@ != "PROD"@,
        "NTP-only"@ != "ACQ"@,
        "NANO"@ != "LOCK"@,
        "NANO"@ != "PROD"@,
        "NANO"@ != "ACQ"@,
        "LOCK"@ != "PROD"@,
        "LOCK"@ != "ACQ"@,
        "PROD"@ != "ACQ"@,
{
    reveal_strlit("NTP-only");
    reveal_strlit("NANO");
    reveal_strlit("LOCK");
    reveal_strlit("PROD");
    reveal_strlit("ACQ");
    assert("NTP-only"@.len() == 8 && "NANO"@.len() == 4 && "LOCK"@.len() == 4);
    assert("PROD"@.len() == 4 && "ACQ"@.len() == 3);
    assert("NANO"@[0] == 'N' && "LOCK"@[0] == 'L' && "PROD"@[0] == 'P');
}

/// Every packet of 36 bytes or more is handled as the laws above say; a shorter one
/// changes nothing.
pub proof fn lemma_handle_packet(data: &[u8], arrival: WallTime, now: u64)
    ensures
        forall|m: &mut SyncState, r: Option<Action>| #[trigger]
            call_ensures(SyncState::handle_packet, (m, data, arrival, now), r) && (*m)@.wf() && (
            *m)@.has_headroom() ==> {
                let (before, after) = ((*m)@, (*final(m))@);
                if data@.len() < 36 {
                    r is None && after == before
                } else {
                    r is Some && handled(before, data@, arrival, now, after, r->0)
                }
            },
{
}

/// Every Follow_Up of 52 bytes or more completes its Sync message, from the same source.
pub proof fn lemma_follow_up_handled(data: &[u8], arrival: WallTime, now: u64)
    requires
        data@.len() >= 52,
        data@[32] == 2,
    ensures
        forall|m: &mut SyncState, r: Option<Action>| #[trigger]
            call_ensures(SyncState::handle_packet, (m, data, arrival, now), r) && (*m)@.wf() && (
            *m)@.has_headroom() && (*m)@.pending.contains_key(pair_at(data@, 42) as u16) && (
            *m)@.pending[pair_at(data@, 42) as u16].source_uuid.bytes@ == data@.subrange(22, 28)
                ==> r is Some && ((*final(m))@, r->0) == (Model {
                pending: (*m)@.pending.remove(pair_at(data@, 42) as u16),
                ..(*m)@
            }).paired(
                (quad_at(data@, 44) * 1_000_000_000 + quad_at(data@, 48)) as i64,
                (*m)@.pending[pair_at(data@, 42) as u16].rx_time.epoch_nanos() as i64,
                now,
            ),
{
    assert forall|m: &mut SyncState, r: Option<Action>| #[trigger]
        call_ensures(SyncState::handle_packet, (m, data, arrival, now), r) && (*m)@.wf() && (
        *m)@.has_headroom() && (*m)@.pending.contains_key(pair_at(data@, 42) as u16) && (
        *m)@.pending[pair_at(data@, 42) as u16].source_uuid.bytes@ == data@.subrange(22, 28) implies
        r is Some && ((*final(m))@, r->0) == (Model {
        pending: (*m)@.pending.remove(pair_at(data@, 42) as u16),
        ..(*m)@
    }).paired(
        (quad_at(data@, 44) * 1_000_000_000 + quad_at(data@, 48)) as i64,
        (*m)@.pending[pair_at(data@, 42) as u16].rx_time.epoch_nanos() as i64,
        now,
    ) by {
        lemma_handle_packet(data, arrival, now);
        lemma_follow_up_message((*m)@, data@, arrival, now, (*final(m))@, r->0);
    }
}

/// Every report puts each thing under its own name.
pub proof fn lemma_report(state: &SyncState, wall: WallTime)
    ensures
        forall|s: &mut SyncStatus, r: ()| #[trigger]
            call_ensures(SyncState::report, (state, s, wall), r) ==> {
                let (m, base, status) = (state@, *s, *final(s));
                &&& status.drift_ppm == m.servo.last_adj_ppm
                &&& status.smoothed_rate_ppm == m.servo.smoothed_rate_ppm
                &&& status.offset_ns == m.last_phase_offset_ns
                &&& status.gm_uuid == m.gm && status.settled == m.clock_settled
                &&& status.is_locked == m.servo.is_locked
                &&& status.ntp_offset_us == base.ntp_offset_us
                &&& status.ntp_failed == base.ntp_failed
                &&& m.reported(base, wall, status)
            },
{
}

/// Every answer to a query of UTC: its whole microseconds with its sign, and a step by
/// them if they are more than 500.
pub proof fn lemma_ntp_answer(offset: Span, sign: i8)
    requires
        offset.total_nanos() < 0x8000_0000_0000_0000,
        sign == 1 || sign == -1,
    ensures
        forall|m: &mut SyncState, r: (i64, Option<(Span, i8)>)| #[trigger]
            call_ensures(SyncState::ntp_answer, (m, offset, sign), r) && (*m)@.wf() ==> {
                let us = offset.total_nanos() as int / 1000;
                &&& r.0 == us * sign
                &&& r.1 is Some <==> us > 500
                &&& r.1 is Some ==> (r.1->0).0.total_nanos() == us * 1000 && (r.1->0).1 == sign
                &&& (*final(m))@ == (*m)@.answered(offset, sign)
            },
{
    let us = offset.total_nanos() as int / 1000;
    assert(us * sign == if sign == 1 {
        us
    } else {
        -us
    }) by (nonlinear_arith)
        requires
            sign == 1 || sign == -1,
    ;
}

/// Every time stale messages are dropped: if more than a hundred wait, exactly those stay
/// that came less than five seconds before; else all of them. Nothing else changes.
pub proof fn lemma_prune(wall: WallTime)
    ensures
        forall|m: &mut SyncState, r: ()| #[trigger]
            call_ensures(SyncState::prune, (m, wall), r) && (*m)@.wf() ==> {
                let (b, a) = ((*m)@, (*final(m))@);
                &&& a == (Model { pending: a.pending, ..b })
                &&& b.pending.len() <= 100 ==> a.pending == b.pending
                &&& b.pending.len() > 100 ==> forall|id: u16|
                    #![trigger a.pending.contains_key(id)]
                    a.pending.contains_key(id) <==> b.pending.contains_key(id) && wall.nanos
                        < b.pending[id].rx_time.nanos + 5_000_000_000
                &&& forall|id: u16| #[trigger]
                    a.pending.contains_key(id) ==> a.pending[id] == b.pending[id]
            },
{
}

/// Every query of whether UTC is due counts the 30 seconds from the time that it was, and
/// changes nothing else. Every step that the clock took drops what was measured, every
/// other one leaves all as it was.
pub proof fn lemma_utc_state(now: u64, taken: bool, enabled: bool)
    ensures
        forall|m: &mut SyncState, r: bool| #[trigger]
            call_ensures(SyncState::ntp_due, (m, now), r) && (*m)@.wf() ==> {
                let (b, a) = ((*m)@, (*final(m))@);
                &&& r <==> b.servo.is_locked && b.ntp_tracking_enabled && now >= b.last_ntp_check
                    + 30_000_000_000
                &&& a == (Model {
                    last_ntp_check: if r {
                        now
                    } else {
                        b.last_ntp_check
                    },
                    ..b
                })
            },
        forall|m: &mut SyncState, r: bool| #[trigger]
            call_ensures(SyncState::fallback_due, (m, now), r) && (*m)@.wf() ==> {
                let (b, a) = ((*m)@, (*final(m))@);
                &&& r <==> b.ptp_offline && b.ntp_tracking_enabled && now >= b.last_ntp_check
                    + 30_000_000_000
                &&& a == (Model {
                    last_ntp_check: if r {
                        now
                    } else {
                        b.last_ntp_check
                    },
                    ..b
                })
            },
        forall|m: &mut SyncState, r: bool| #[trigger]
            call_ensures(SyncState::watch, (m, now), r) && (*m)@.wf() ==> r == (now >= (
            *m)@.last_sync + 30_000_000_000) && (*final(m))@ == (Model { ptp_offline: r, ..(*m)@ }),
        forall|m: &mut SyncState, r: ()| #[trigger]
            call_ensures(SyncState::ntp_step_done, (m, taken, now), r) && (*m)@.wf() ==> {
                let (b, a) = ((*m)@, (*final(m))@);
                &&& !taken ==> a == b
                &&& taken ==> a.window.len() == 0 && a.ntp_samples.len() == 0 && a.last_ntp_step
                    == Some(now) && a.servo == (Servo {
                    last_offset_us: None,
                    last_offset_time: None,
                    ..b.servo
                }) && a == (Model {
                    window: a.window,
                    ntp_samples: a.ntp_samples,
                    last_ntp_step: Some(now),
                    servo: a.servo,
                    ..b
                })
            },
        forall|m: &mut SyncState, r: ()| #[trigger]
            call_ensures(SyncState::set_ntp_tracking, (m, enabled), r) && (*m)@.wf() ==> (
            *final(m))@ == (Model { ntp_tracking_enabled: enabled, ..(*m)@ }),
{
}

/// Every new state: nothing waits, nothing was measured, calibration is over if none is
/// asked for, warm-up and all waiting start now, and UTC is tracked.
pub proof fn lemma_new_state(config: SystemConfig, now: u64)
    ensures
        forall|s: SyncState| #[trigger]
            call_ensures(SyncState::new, (config, now), s) ==> {
                let m = s@;
                &&& m.config == config && m.settling_threshold == 1 && m.valid_count == 0
                &&& m.pending.len() == 0 && m.window.len() == 0 && m.ntp_samples.len() == 0
                &&& m.gm is None && m.prev_t1_ns == 0 && m.prev_t2_ns == 0
                &&& !m.clock_settled && m.last_phase_offset_ns == 0
                &&& m.calibration.len() == 0 && m.calibration_offset_ns == 0
                &&& m.calibration_complete <==> config.filters.calibration_samples == 0
                &&& m.warmup_start == now && !m.warmup_complete
                &&& m.last_ntp_check == now && m.ntp_tracking_enabled && m.last_ntp_step is None
                &&& m.last_sync == now && !m.ptp_offline
                &&& m.servo == Servo::initial()
            },
{
}

/// Every sync pair that is processed is so as the laws on pairs say.
pub proof fn lemma_process_pair(t1_ns: i64, t2: WallTime, now: u64)
    requires
        0 <= t1_ns < 0x4000_0000_0000_0000,
    ensures
        forall|m: &mut SyncState, r: Action| #[trigger]
            call_ensures(SyncState::process_sync_pair, (m, t1_ns, t2, now), r) && (*m)@.wf() && (
            *m)@.has_headroom() ==> ((*final(m))@, r) == (*m)@.paired(
                t1_ns,
                t2.epoch_nanos() as i64,
                now,
            ),
        0 <= t2.nanos < 0x8000_0000_0000_0000 ==> t2.epoch_nanos() == t2.nanos,
        t2.nanos < 0 ==> t2.epoch_nanos() == 0,
{
}

/// Of more than a hundred messages that wait, exactly those stay that came less than five
/// seconds before; of fewer, all do. Nothing else changes.
pub proof fn lemma_pruned_exactly(m: Model, wall: WallTime, id: u16)
    ensures
        m.pruned(wall) == (Model { pending: m.pruned(wall).pending, ..m }),
        m.pending.len() <= 100 ==> m.pruned(wall) == m,
        m.pending.len() > 100 ==> (m.pruned(wall).pending.contains_key(id)
            <==> m.pending.contains_key(id) && wall.nanos < m.pending[id].rx_time.nanos
            + 5_000_000_000),
        m.pruned(wall).pending.contains_key(id) ==> m.pruned(wall).pending[id] == m.pending[id],
{
}

/// The state before the first packet.
pub proof fn lemma_initial_state(config: SystemConfig, now: u64)
    ensures
        ({
            let m = Model::initial(config, now);
            &&& m.config == config && m.settling_threshold == 1 && m.valid_count == 0
            &&& m.pending.len() == 0 && m.window.len() == 0 && m.ntp_samples.len() == 0
            &&& m.gm is None && m.prev_t1_ns == 0 && m.prev_t2_ns == 0
            &&& !m.clock_settled && m.last_phase_offset_ns == 0
            &&& m.calibration.len() == 0 && m.calibration_offset_ns == 0
            &&& m.calibration_complete <==> config.filters.calibration_samples == 0
            &&& m.warmup_start == now && !m.warmup_complete
            &&& m.last_ntp_check == now && m.ntp_tracking_enabled && m.last_ntp_step is None
            &&& m.last_sync == now && !m.ptp_offline
            &&& m.servo == Servo::initial()
        }),
{
}

} // verus!
