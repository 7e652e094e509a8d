//! Self-tuning servo from the rate of change of the phase offset to a frequency
//! correction.
//!
//! PTP timestamps are device uptime, so an offset means nothing by itself; its
//! rate of change is the frequency error. The servo smooths the measured rate,
//! answers it at once with a proportional term, and learns the natural drift of
//! the clock in a baseline.
use crate::ieee::arith::{lemma_nearest_zero, Parts};
use crate::ieee::constants::lemma_five_hundred;
use crate::ieee::double::{lemma_double_format, Double};
use crate::ieee::error::{
    average, lemma_average_falls, lemma_average_finite, lemma_average_lags, lemma_average_steady,
    lemma_weights, step_at_256,
};
use crate::ieee::exact::{
    lemma_integer_exact, lemma_integers_minus, lemma_mirror_negated, lemma_mirror_over,
    lemma_mirror_plus, lemma_mirror_times, mirror,
};
use crate::ieee::laws::{
    lemma_between_finite, lemma_clamped, lemma_encodes, lemma_negated, lemma_over_defined,
    lemma_over_monotone, lemma_over_shrinks, lemma_parts_of, lemma_plus_defined,
    lemma_plus_monotone, lemma_plus_nothing, lemma_ratio, lemma_ratio_finite, lemma_ratio_order,
    lemma_symmetric_range, lemma_times_defined, lemma_zero,
};
use crate::ieee::powers::tame;
use crate::ieee::rounding::binary64;
use crate::spike_filter::{
    lemma_alpha_range, lemma_close_rates, lemma_deviation_number, lemma_mirror_deviation, negations,
    slid, standard_deviation, usual, Jitter, JitterEstimator,
};
use crate::time::{elapsed, in_seconds, lemma_in_seconds, seconds, since};
use vstd::arithmetic::power2::*;
use vstd::prelude::*;

verus! {

/// Samples in a row below the entry rate before NANO mode is entered.
pub const NANO_SUSTAIN_COUNT: usize = 15;

/// Samples in a row above the exit rate before NANO mode is left.
pub const NANO_EXIT_COUNT: usize = 5;

/// Stable samples before the servo counts as locked.
pub const LOCK_STABLE_COUNT: usize = 5;

/// Entry into NANO mode below this drift rate (us/s).
pub open spec fn nano_enter_rate() -> Double {
    Double::ratio(5, 10)
}

/// Exit from NANO mode above this drift rate (us/s).
pub open spec fn nano_exit_rate() -> Double {
    Double::integer(1)
}

/// Drift rates below this are noise in NANO mode (us/s).
pub open spec fn nano_deadband() -> Double {
    Double::ratio(1, 10)
}

/// Drift rates below this are stable (us/s).
pub open spec fn stable_rate() -> Double {
    Double::integer(5)
}

/// Drift rates above this end production mode (us/s).
pub open spec fn unstable_rate() -> Double {
    Double::integer(20)
}

/// Largest correction, baseline and measured rate (ppm).
pub open spec fn drift_max() -> Double {
    Double::integer(500)
}

/// The threshold for entering NANO mode.
pub fn nano_enter_rate_us() -> (r: Double)
    ensures
        r == nano_enter_rate(),
{
    Double::from_ratio(5, 10)
}

/// The threshold for leaving NANO mode.
pub fn nano_exit_rate_us() -> (r: Double)
    ensures
        r == nano_exit_rate(),
{
    Double::from_i64(1)
}

/// The noise floor of NANO mode.
pub fn nano_deadband_us() -> (r: Double)
    ensures
        r == nano_deadband(),
{
    Double::from_ratio(1, 10)
}

/// Phase of the control loop.
#[derive(Clone, Copy, Debug, PartialEq, Eq, Structural)]
pub enum Phase {
    /// Fast convergence.
    Acq,
    /// Gentle stability.
    Prod,
    /// Ultra-precise.
    Nano,
}

impl Phase {
    /// Gain of the proportional term.
    pub open spec fn p_gain(self) -> Double {
        match self {
            Phase::Acq => Double::ratio(8, 10),
            Phase::Prod => Double::ratio(1, 10),
            Phase::Nano => Double::ratio(1, 100),
        }
    }

    /// Largest proportional term (ppm).
    pub open spec fn p_max(self) -> Double {
        match self {
            Phase::Acq => Double::integer(200),
            Phase::Prod => Double::integer(100),
            Phase::Nano => Double::integer(10),
        }
    }

    /// Gain of the learning term.
    pub open spec fn i_gain(self) -> Double {
        match self {
            Phase::Acq => Double::ratio(5, 100),
            Phase::Prod => Double::ratio(5, 100),
            Phase::Nano => Double::ratio(5, 1000),
        }
    }

    /// Gain and limit of the proportional term, and gain of the learning term.
    fn gains(self) -> (r: (Double, Double, Double))
        ensures
            r == (self.p_gain(), self.p_max(), self.i_gain()),
    {
        match self {
            Phase::Acq => (
                Double::from_ratio(8, 10),
                Double::from_i64(200),
                Double::from_ratio(5, 100),
            ),
            Phase::Prod => (
                Double::from_ratio(1, 10),
                Double::from_i64(100),
                Double::from_ratio(5, 100),
            ),
            Phase::Nano => (
                Double::from_ratio(1, 100),
                Double::from_i64(10),
                Double::from_ratio(5, 1000),
            ),
        }
    }
}

/// NANO mode with its counters.
#[derive(Clone, Copy, Debug, PartialEq, Eq, Structural)]
pub struct Nano {
    pub active: bool,
    /// Samples in a row below the entry rate.
    pub sustain_count: usize,
    /// Samples in a row above the exit rate.
    pub exit_count: usize,
}

impl Nano {
    pub open spec fn off() -> Nano {
        Nano { active: false, sustain_count: 0, exit_count: 0 }
    }

    /// NANO mode after a sample of the given absolute drift rate.
    pub open spec fn after(self, locked: bool, abs_rate: Double) -> Nano {
        if !locked {
            Nano::off()
        } else if abs_rate.below(nano_enter_rate()) {
            Nano {
                active: self.active || self.sustain_count + 1 >= NANO_SUSTAIN_COUNT,
                sustain_count: (self.sustain_count + 1) as usize,
                exit_count: 0,
            }
        } else if nano_exit_rate().below(abs_rate) {
            if self.active && self.exit_count + 1 >= NANO_EXIT_COUNT {
                Nano::off()
            } else {
                Nano {
                    active: self.active,
                    sustain_count: 0,
                    exit_count: (self.exit_count + 1) as usize,
                }
            }
        } else {
            Nano { exit_count: 0, ..self }
        }
    }

    /// Follows a sample of the given absolute drift rate.
    pub fn update(&mut self, locked: bool, abs_rate: Double)
        requires
            old(self).sustain_count < usize::MAX,
            old(self).exit_count < usize::MAX,
        ensures
            *final(self) == old(self).after(locked, abs_rate),
    {
        if !locked {
            self.active = false;
            self.sustain_count = 0;
            self.exit_count = 0;
        } else if abs_rate.lt(nano_enter_rate_us()) {
            self.sustain_count = self.sustain_count + 1;
            self.exit_count = 0;
            if self.sustain_count >= NANO_SUSTAIN_COUNT {
                self.active = true;
            }
        } else if nano_exit_rate_us().lt(abs_rate) {
            self.exit_count = self.exit_count + 1;
            if self.active && self.exit_count >= NANO_EXIT_COUNT {
                self.active = false;
                self.exit_count = 0;
            }
            self.sustain_count = 0;
        } else {
            self.exit_count = 0;
        }
    }
}

/// State of the servo.
#[derive(Debug)]
pub struct RateServo {
    /// Learned natural drift (ppm).
    pub drift_baseline_ppm: Double,
    /// Synchronised and stable.
    pub is_locked: bool,
    pub lock_stable_count: usize,
    pub in_production_mode: bool,
    pub nano: Nano,
    /// Offset and monotonic time of the last sample.
    pub last_offset_us: Option<Double>,
    pub last_offset_time: Option<u64>,
    /// Moving average of the drift rate (ppm).
    pub smoothed_rate_ppm: Double,
    /// Estimate of the jitter, which gives the weight of a new rate.
    pub jitter: JitterEstimator,
    /// Last correction (ppm).
    pub last_adj_ppm: Double,
    /// Correction in force (ppm).
    pub applied_freq_ppm: Double,
}

/// State of the servo with a mathematical window of rates.
#[verifier::ext_equal]
pub struct Servo {
    pub drift_baseline_ppm: Double,
    pub is_locked: bool,
    pub lock_stable_count: usize,
    pub in_production_mode: bool,
    pub nano: Nano,
    pub last_offset_us: Option<Double>,
    pub last_offset_time: Option<u64>,
    pub smoothed_rate_ppm: Double,
    pub jitter: Jitter,
    pub last_adj_ppm: Double,
    pub applied_freq_ppm: Double,
}

impl View for RateServo {
    type V = Servo;

    open spec fn view(&self) -> Servo {
        Servo {
            drift_baseline_ppm: self.drift_baseline_ppm,
            is_locked: self.is_locked,
            lock_stable_count: self.lock_stable_count,
            in_production_mode: self.in_production_mode,
            nano: self.nano,
            last_offset_us: self.last_offset_us,
            last_offset_time: self.last_offset_time,
            smoothed_rate_ppm: self.smoothed_rate_ppm,
            jitter: self.jitter@,
            last_adj_ppm: self.last_adj_ppm,
            applied_freq_ppm: self.applied_freq_ppm,
        }
    }
}

/// Lock state after a sample: locked after enough stable samples, unlocked when
/// unstable ones have used them up.
pub open spec fn lock_after(locked: bool, count: usize, stable: bool) -> (bool, usize) {
    if stable {
        (locked || count + 1 >= LOCK_STABLE_COUNT, (count + 1) as usize)
    } else if count > 0 {
        (locked && count > 1, (count - 1) as usize)
    } else {
        (false, 0)
    }
}

impl Servo {
    /// The window of rates is within its size.
    pub open spec fn wf(self) -> bool {
        self.jitter.wf()
    }

    /// No counter is at its end.
    pub open spec fn has_headroom(self) -> bool {
        &&& self.lock_stable_count < usize::MAX
        &&& self.nano.sustain_count < usize::MAX
        &&& self.nano.exit_count < usize::MAX
    }

    pub open spec fn initial() -> Servo {
        Servo {
            drift_baseline_ppm: Double::zero(),
            is_locked: false,
            lock_stable_count: 0,
            in_production_mode: false,
            nano: Nano::off(),
            last_offset_us: None,
            last_offset_time: None,
            smoothed_rate_ppm: Double::zero(),
            jitter: Jitter::fresh(30, 15, Double::integer(2), Double::integer(8)),
            last_adj_ppm: Double::zero(),
            applied_freq_ppm: Double::zero(),
        }
    }

    /// The servo after a change of the master: what was learned of the local clock
    /// stays, what was measured against the master goes.
    pub open spec fn restarted(self) -> Servo {
        Servo {
            is_locked: false,
            lock_stable_count: 0,
            in_production_mode: false,
            nano: Nano { exit_count: self.nano.exit_count, ..Nano::off() },
            last_offset_us: None,
            last_offset_time: None,
            smoothed_rate_ppm: Double::zero(),
            ..self
        }
    }

    /// The servo after a step of the clock.
    pub open spec fn detached(self) -> Servo {
        Servo { last_offset_us: None, last_offset_time: None, ..self }
    }

    /// Seconds since the last sample, one before the first.
    pub open spec fn interval(self, now: u64) -> Double {
        match self.last_offset_time {
            Some(t) => in_seconds(since(t, now)),
            None => Double::integer(1),
        }
    }

    /// The measured drift rate (us/s, that is ppm).
    pub open spec fn raw_rate(self, offset_us: Double, now: u64) -> Double {
        match self.last_offset_us {
            Some(prev) => if Double::ratio(1, 10).below(self.interval(now)) {
                offset_us.minus(prev).over(self.interval(now)).clamped(
                    drift_max().negated(),
                    drift_max(),
                )
            } else {
                self.smoothed_rate_ppm
            },
            None => Double::zero(),
        }
    }

    /// The weight of the measured rate: less of it if the rates jitter.
    pub open spec fn weight(self, offset_us: Double, now: u64) -> Double {
        self.jitter.answer(self.raw_rate(offset_us, now))
    }

    /// The moving average with the measured rate.
    pub open spec fn rate(self, offset_us: Double, now: u64) -> Double {
        let alpha = self.weight(offset_us, now);
        self.smoothed_rate_ppm.times(Double::integer(1).minus(alpha)).plus(
            self.raw_rate(offset_us, now).times(alpha),
        )
    }

    /// Production mode at the given absolute drift rate, with hysteresis.
    pub open spec fn production_after(self, abs_rate: Double) -> bool {
        if abs_rate.below(stable_rate()) {
            true
        } else if unstable_rate().below(abs_rate) {
            false
        } else {
            self.in_production_mode
        }
    }

    /// The phase that the modes make.
    pub open spec fn phase_of(nano: bool, production: bool) -> Phase {
        if nano {
            Phase::Nano
        } else if production {
            Phase::Prod
        } else {
            Phase::Acq
        }
    }

    /// The rate that is corrected: none in the noise floor of NANO mode.
    pub open spec fn effective_rate(phase: Phase, rate: Double) -> Double {
        if phase == Phase::Nano && rate.absolute().below(nano_deadband()) {
            Double::zero()
        } else {
            rate
        }
    }

    /// The proportional term.
    pub open spec fn p_term(phase: Phase, rate: Double) -> Double {
        Servo::effective_rate(phase, rate).negated().times(phase.p_gain()).clamped(
            phase.p_max().negated(),
            phase.p_max(),
        )
    }

    /// The baseline with what is learned from a rate.
    pub open spec fn baseline_after(self, phase: Phase, rate: Double) -> Double {
        self.drift_baseline_ppm.plus(
            Servo::effective_rate(phase, rate).negated().times(phase.i_gain()),
        ).clamped(drift_max().negated(), drift_max())
    }

    /// The phase after a sample.
    pub open spec fn phase_after(self, offset_us: Double, now: u64) -> Phase {
        let a = self.rate(offset_us, now).absolute();
        Servo::phase_of(self.nano.after(self.is_locked, a).active, self.production_after(a))
    }

    /// The correction after a sample (ppm).
    pub open spec fn correction(self, offset_us: Double, now: u64) -> Double {
        let rate = self.rate(offset_us, now);
        let phase = self.phase_after(offset_us, now);
        self.baseline_after(phase, rate).plus(Servo::p_term(phase, rate)).clamped(
            drift_max().negated(),
            drift_max(),
        )
    }

    /// The servo after a sample.
    pub open spec fn after(self, offset_us: Double, now: u64) -> Servo {
        let rate = self.rate(offset_us, now);
        let a = rate.absolute();
        let (locked, count) = lock_after(
            self.is_locked,
            self.lock_stable_count,
            a.below(stable_rate()),
        );
        Servo {
            drift_baseline_ppm: self.baseline_after(self.phase_after(offset_us, now), rate),
            is_locked: locked,
            lock_stable_count: count,
            in_production_mode: self.production_after(a),
            nano: self.nano.after(self.is_locked, a),
            last_offset_us: Some(offset_us),
            last_offset_time: Some(now),
            smoothed_rate_ppm: rate,
            jitter: self.jitter.after(self.raw_rate(offset_us, now)),
            last_adj_ppm: self.correction(offset_us, now),
            applied_freq_ppm: self.correction(offset_us, now),
        }
    }

}

impl RateServo {
    pub open spec fn wf(&self) -> bool {
        self@.wf()
    }

    pub fn new() -> (r: RateServo)
        ensures
            r@ == Servo::initial(),
            r.wf(),
    {
        RateServo {
            drift_baseline_ppm: Double::from_bits(0),
            is_locked: false,
            lock_stable_count: 0,
            in_production_mode: false,
            nano: Nano { active: false, sustain_count: 0, exit_count: 0 },
            last_offset_us: None,
            last_offset_time: None,
            smoothed_rate_ppm: Double::from_bits(0),
            jitter: JitterEstimator::new(),
            last_adj_ppm: Double::from_bits(0),
            applied_freq_ppm: Double::from_bits(0),
        }
    }

    /// Whether no counter is at its end.
    pub fn can_count(&self) -> (r: bool)
        ensures
            r == self@.has_headroom(),
    {
        self.lock_stable_count < usize::MAX && self.nano.sustain_count < usize::MAX
            && self.nano.exit_count < usize::MAX
    }

    /// Starts afresh with another master, and keeps what was learned of the local
    /// clock.
    pub fn restart(&mut self)
        requires
            old(self).wf(),
        ensures
            final(self)@ == old(self)@.restarted(),
            final(self).wf(),
    {
        self.is_locked = false;
        self.lock_stable_count = 0;
        self.in_production_mode = false;
        self.nano.active = false;
        self.nano.sustain_count = 0;
        self.last_offset_us = None;
        self.last_offset_time = None;
        self.smoothed_rate_ppm = Double::from_bits(0);
    }

    /// Forgets the last offset, so that a step of the clock is no drift. The
    /// estimate of the jitter stays.
    pub fn detach(&mut self)
        requires
            old(self).wf(),
        ensures
            final(self)@ == old(self)@.detached(),
            final(self).wf(),
    {
        self.last_offset_us = None;
        self.last_offset_time = None;
    }

    /// The measured drift rate.
    fn measure(&self, offset_us: Double, now: u64) -> (r: Double)
        ensures
            r == self@.raw_rate(offset_us, now),
    {
        let interval = match self.last_offset_time {
            Some(t) => seconds(elapsed(t, now)),
            None => Double::from_i64(1),
        };
        match self.last_offset_us {
            Some(prev) => {
                if Double::from_ratio(1, 10).lt(interval) {
                    let max = Double::from_i64(500);
                    proof {
                        lemma_ratio(500, 1);
                        lemma_symmetric_range(max);
                    }
                    offset_us.sub(prev).div(interval).clamp(max.neg(), max)
                } else {
                    self.smoothed_rate_ppm
                }
            },
            None => Double::from_bits(0),
        }
    }

    /// Takes an offset (us) measured at a monotonic time (ns) and returns the
    /// frequency factor to apply to the clock.
    pub fn apply(&mut self, offset_us: Double, now: u64) -> (r: Double)
        requires
            old(self).wf(),
            old(self)@.has_headroom(),
        ensures
            final(self).wf(),
            final(self)@ == old(self)@.after(offset_us, now),
            r == Double::integer(1).plus(
                old(self)@.correction(offset_us, now).over(Double::integer(1_000_000)),
            ),
    {
        let raw_rate = self.measure(offset_us, now);
        self.last_offset_us = Some(offset_us);
        self.last_offset_time = Some(now);
        let alpha = self.jitter.add_sample(raw_rate);
        let rate = self.smoothed_rate_ppm.mul(Double::from_i64(1).sub(alpha)).add(
            raw_rate.mul(alpha),
        );
        self.smoothed_rate_ppm = rate;
        let abs_rate = rate.abs();
        self.nano.update(self.is_locked, abs_rate);
        let stable = abs_rate.lt(Double::from_i64(5));
        if stable {
            self.in_production_mode = true;
        } else if Double::from_i64(20).lt(abs_rate) {
            self.in_production_mode = false;
        }
        let phase = if self.nano.active {
            Phase::Nano
        } else if self.in_production_mode {
            Phase::Prod
        } else {
            Phase::Acq
        };
        let (p_gain, p_max, i_gain) = phase.gains();
        let effective = if self.nano.active && abs_rate.lt(nano_deadband_us()) {
            Double::from_bits(0)
        } else {
            rate
        };
        let max = Double::from_i64(500);
        proof {
            lemma_ratio(500, 1);
            lemma_ratio(200, 1);
            lemma_ratio(100, 1);
            lemma_ratio(10, 1);
            lemma_symmetric_range(max);
            lemma_symmetric_range(p_max);
        }
        let low = max.neg();
        let p_term = effective.neg().mul(p_gain).clamp(p_max.neg(), p_max);
        let i_term = effective.neg().mul(i_gain);
        self.drift_baseline_ppm = self.drift_baseline_ppm.add(i_term).clamp(low, max);
        let correction = self.drift_baseline_ppm.add(p_term).clamp(low, max);
        if stable {
            self.lock_stable_count = self.lock_stable_count + 1;
            if self.lock_stable_count >= LOCK_STABLE_COUNT {
                self.is_locked = true;
            }
        } else {
            if self.lock_stable_count > 0 {
                self.lock_stable_count = self.lock_stable_count - 1;
            }
            if self.lock_stable_count == 0 {
                self.is_locked = false;
            }
        }
        self.last_adj_ppm = correction;
        self.applied_freq_ppm = correction;
        Double::from_i64(1).add(correction.div(Double::from_i64(1_000_000)))
    }
}

/// A number lies within a bound on either side of zero.
pub open spec fn within(x: Double, bound: Double) -> bool {
    bound.negated().at_most(x) && x.at_most(bound)
}

/// By how much the average stays behind the largest drift after a rate that is behind
/// it by one or more, some samples ago: a sixteenth of that, halved with each
/// sample.
pub open spec fn lag(age: nat) -> nat {
    pow2((1070 - age) as nat)
}

/// For each rate of a window that is below 499 us/s, the average stays behind the
/// largest drift.
pub open spec fn trails(average: Double, window: Seq<Double>) -> bool {
    forall|i: int|
        0 <= i < window.len() && (#[trigger] window[i]).below(Double::integer(499))
            ==> average.value() + lag((window.len() - 1 - i) as nat) <= drift_max().value()
}

/// All numbers lie within a bound.
pub open spec fn all_within(s: Seq<Double>, bound: Double) -> bool {
    forall|i: int| 0 <= i < s.len() ==> within(#[trigger] s[i], bound)
}

impl Servo {
    /// The rates, the baseline and the correction are within the largest drift,
    /// offsets are numbers, and the estimate of the jitter is the usual one. The
    /// average follows the rates in the window on either side of zero.
    pub open spec fn sound(self) -> bool {
        &&& within(self.smoothed_rate_ppm, drift_max())
        &&& within(self.drift_baseline_ppm, drift_max())
        &&& within(self.last_adj_ppm, drift_max())
        &&& within(self.applied_freq_ppm, drift_max())
        &&& self.last_offset_us matches Some(offset) ==> offset.finite()
        &&& usual(self.jitter)
        &&& self.jitter.wf()
        &&& self.jitter.window_size == 30
        &&& all_within(self.jitter.window, drift_max())
        &&& trails(self.smoothed_rate_ppm, self.jitter.window)
        &&& trails(self.smoothed_rate_ppm.negated(), negations(self.jitter.window))
    }
}

/// What is clamped between a bound's negative and the bound lies within it.
proof fn lemma_clamped_within(x: Double, bound: Double)
    requires
        !x.nan(),
        bound.finite(),
        !bound.nan(),
        bound.value() >= 0,
    ensures
        within(x.clamped(bound.negated(), bound), bound),
        x.clamped(bound.negated(), bound).finite(),
{
    lemma_symmetric_range(bound);
    lemma_negated(bound);
    lemma_clamped(x, bound.negated(), bound);
    lemma_between_finite(bound.negated(), x.clamped(bound.negated(), bound), bound);
}

/// A new servo is sound.
pub proof fn lemma_initial_sound()
    ensures
        Servo::initial().sound(),
{
    lemma_zero();
    lemma_ratio(500, 1);
    lemma_negated(drift_max());
}

/// A change of the master and a step of the clock leave a servo sound.
pub proof fn lemma_restarted_sound(s: Servo)
    requires
        s.sound(),
    ensures
        s.restarted().sound(),
        s.detached().sound(),
{
    lemma_zero();
    lemma_negated(Double::zero());
    lemma_ratio(500, 1);
    lemma_negated(drift_max());
    lemma_drift_steps();
    lemma2_to64_rest();
    lemma_pow2_adds(1030, 40);
    lemma_pow2_pos(1030);
    assert forall|age: nat| age <= 30 implies #[trigger] lag(age) <= drift_max().value() by {
        if age > 0 {
            lemma_pow2_strictly_increases((1070 - age) as nat, 1070);
        }
    }
    let w = s.jitter.window;
    assert(negations(w).len() == w.len());
}

/// What is within the largest drift is within 512.
pub proof fn lemma_drift_tame(x: Double)
    requires
        within(x, drift_max()),
    ensures
        tame(x, 9),
{
    lemma_five_hundred();
    lemma_negated(drift_max());
    lemma_between_finite(drift_max().negated(), x, drift_max());
    lemma2_to64_rest();
    lemma_pow2_adds(53, 1030);
    lemma_pow2_pos(1030);
}

/// The measured rate is within the largest drift.
proof fn lemma_raw_rate(s: Servo, offset_us: Double, now: u64)
    requires
        s.sound(),
        offset_us.finite(),
    ensures
        within(s.raw_rate(offset_us, now), drift_max()),
{
    let m = drift_max();
    lemma_ratio(500, 1);
    lemma_ratio_finite(500, 1);
    lemma_zero();
    lemma_negated(m);
    match s.last_offset_us {
        Some(prev) => {
            let t = s.interval(now);
            if Double::ratio(1, 10).below(t) {
                match s.last_offset_time {
                    Some(earlier) => {
                        lemma_in_seconds(since(earlier, now));
                    },
                    None => {
                        lemma_ratio_finite(1, 1);
                    },
                }
                lemma_negated(prev);
                lemma_plus_defined(offset_us, prev.negated());
                let d = offset_us.minus(prev);
                lemma_ratio(1, 10);
                reveal(Double::value);
                lemma_double_format();
                lemma_over_defined(d, t);
                lemma_clamped_within(d.over(t), m);
            }
        },
        None => {},
    }
}

/// The window of a sound servo stays so, and the weight of a new rate is one between
/// 0.1 and 0.3.
pub proof fn lemma_weight(s: Servo, offset_us: Double, now: u64)
    requires
        s.sound(),
        offset_us.finite(),
    ensures
        all_within(s.jitter.after(s.raw_rate(offset_us, now)).window, drift_max()),
        s.jitter.after(s.raw_rate(offset_us, now)).wf(),
        Double::ratio(1, 10).at_most(s.weight(offset_us, now)),
        s.weight(offset_us, now).at_most(Double::ratio(3, 10)),
{
    let raw = s.raw_rate(offset_us, now);
    lemma_raw_rate(s, offset_us, now);
    let w = s.jitter.window_after(raw);
    let all = s.jitter.window.push(raw);
    assert forall|i: int| 0 <= i < w.len() implies within(#[trigger] w[i], drift_max()) && tame(
        w[i],
        9,
    ) by {
        assert(w[i] == all[i] || w[i] == all[i + 1]);
        assert(all_within(all, drift_max()));
        lemma_drift_tame(w[i]);
    }
    lemma_deviation_number(w, 9);
    lemma_alpha_range(s.jitter, standard_deviation(w));
    lemma_zero();
    lemma_alpha_range(s.jitter, Double::zero());
    lemma_ratio(2, 1);
}

/// 499 and 500 in steps of the numbers from 256 to 512.
proof fn lemma_drift_steps()
    ensures
        drift_max().value() == 0x1F_4000_0000_0000 * step_at_256(),
        Double::integer(499).value() == 0x1F_3000_0000_0000 * step_at_256(),
{
    lemma_five_hundred();
    lemma_integer_exact(499);
    lemma2_to64_rest();
    lemma_pow2_adds(1030, 44);
}

/// One sample keeps the average up to the largest drift, and behind it after a rate
/// that is behind it, if the weight is 0.3 whenever no rate of the window is.
proof fn lemma_trails(x: Double, y: Double, a: Double, window: Seq<Double>)
    requires
        within(x, drift_max()),
        within(y, drift_max()),
        trails(x, window),
        window.len() <= 30,
        Double::ratio(1, 10).at_most(a),
        a.at_most(Double::ratio(3, 10)),
        ({
            let w = slid(window, y, 30);
            (forall|i: int|
                0 <= i < w.len() ==> !(#[trigger] w[i]).below(Double::integer(499))) ==> a
                == Double::ratio(3, 10)
        }),
    ensures
        trails(average(x, y, a), slid(window, y, 30)),
        average(x, y, a).value() <= drift_max().value(),
{
    reveal(Double::value);
    let w = slid(window, y, 30);
    let n = w.len() as int;
    let r = average(x, y, a);
    let u = step_at_256();
    lemma_drift_steps();
    lemma_drift_tame(x);
    lemma_drift_tame(y);
    lemma2_to64();
    lemma2_to64_rest();
    lemma_pow2_pos(1030);
    assert forall|i: int| 0 <= i < n && (#[trigger] w[i]).below(Double::integer(499)) implies
        r.value() + lag((n - 1 - i) as nat) <= drift_max().value() by {
        let age = (n - 1 - i) as nat;
        if age == 0 {
            assert(w[i] == y);
            lemma_average_falls(x, y, a);
            lemma_pow2_adds(1030, 40);
            assert(0x1F_3F00_0000_0000 * u + 0x100_0000_0000 * u == 0x1F_4000_0000_0000 * u)
                by (nonlinear_arith);
        } else {
            let j = window.len() - age;
            assert(w[i] == window[j]);
            let g = pow2((40 - age) as nat);
            lemma_pow2_adds((40 - age) as nat, 1);
            lemma_pow2_adds(1030, (40 - age) as nat);
            lemma_pow2_adds(1030, (41 - age) as nat);
            lemma_pow2_strictly_increases(10, (40 - age) as nat);
            lemma_pow2_strictly_increases((40 - age) as nat, 40);
            assert(lag((age - 1) as nat) == u * (g * 2));
            assert((0x1F_4000_0000_0000 - 2 * g) * u == 0x1F_4000_0000_0000 * u - u * (g * 2)
                && (0x1F_4000_0000_0000 - g) * u == 0x1F_4000_0000_0000 * u - u * g)
                by (nonlinear_arith);
            lemma_average_lags(x, y, a, g);
        }
    }
    if exists|i: int| 0 <= i < n && (#[trigger] w[i]).below(Double::integer(499)) {
        let i = choose|i: int| 0 <= i < n && (#[trigger] w[i]).below(Double::integer(499));
        assert(r.value() + lag((n - 1 - i) as nat) <= drift_max().value());
    } else {
        lemma_average_steady(x, y);
    }
}

/// Averages of negated numbers are negated.
proof fn lemma_mirror_average(x: Double, y: Double, a: Double)
    requires
        tame(x, 9),
        tame(y, 9),
        Double::ratio(1, 10).at_most(a),
        a.at_most(Double::ratio(3, 10)),
    ensures
        mirror(average(x, y, a), average(x.negated(), y.negated(), a)),
{
    let c = Double::integer(1).minus(a);
    lemma_weights(a);
    lemma_mirror_negated(x);
    lemma_mirror_negated(y);
    lemma_mirror_times(x, x.negated(), c);
    lemma_mirror_times(y, y.negated(), a);
    lemma_mirror_plus(
        x.times(c),
        y.times(a),
        x.negated().times(c),
        y.negated().times(a),
    );
}

/// The weight is 0.3 if no rate of the window is below 499 us/s.
proof fn lemma_high_rates(e: Jitter, window: Seq<Double>)
    requires
        usual(e),
        window.len() <= 30,
        all_within(window, drift_max()),
        forall|i: int|
            0 <= i < window.len() ==> !(#[trigger] window[i]).below(Double::integer(499)),
    ensures
        e.factor(window) == Double::ratio(3, 10),
{
    reveal(Double::value);
    lemma_ratio_order(500, 1, 501, 1);
    lemma_integer_exact(499);
    if window.len() > 0 {
        assert forall|i: int| 0 <= i < window.len() implies Double::integer(499).at_most(
            #[trigger] window[i],
        ) && window[i].at_most(Double::integer(501)) by {
            assert(within(window[i], drift_max()));
        }
        lemma_close_rates(window);
    } else {
        lemma_zero();
        lemma_ratio(2, 1);
    }
}

/// The moving average stays within the largest drift, and goes on following the
/// rates of the window.
proof fn lemma_rate(s: Servo, offset_us: Double, now: u64)
    requires
        s.sound(),
        offset_us.finite(),
    ensures
        ({
            let rate = s.rate(offset_us, now);
            let window = s.jitter.window_after(s.raw_rate(offset_us, now));
            &&& within(rate, drift_max())
            &&& trails(rate, window)
            &&& trails(rate.negated(), negations(window))
        }),
{
    let (x, y, a) = (s.smoothed_rate_ppm, s.raw_rate(offset_us, now), s.weight(offset_us, now));
    let (old_window, w) = (s.jitter.window, s.jitter.window_after(y));
    let rate = s.rate(offset_us, now);
    lemma_raw_rate(s, offset_us, now);
    lemma_weight(s, offset_us, now);
    assert(rate == average(x, y, a));
    lemma_drift_tame(x);
    lemma_drift_tame(y);
    if forall|i: int| 0 <= i < w.len() ==> !(#[trigger] w[i]).below(Double::integer(499)) {
        lemma_high_rates(s.jitter, w);
    }
    lemma_trails(x, y, a, old_window);
    let m = negations(w);
    assert(slid(negations(old_window), y.negated(), 30) =~= m);
    lemma_negated(drift_max());
    lemma_negated(x);
    lemma_negated(y);
    assert(all_within(m, drift_max())) by {
        assert forall|i: int| 0 <= i < m.len() implies within(#[trigger] m[i], drift_max()) by {
            assert(within(w[i], drift_max()));
            lemma_negated(w[i]);
        }
    }
    if forall|i: int| 0 <= i < m.len() ==> !(#[trigger] m[i]).below(Double::integer(499)) {
        lemma_high_rates(s.jitter, m);
        lemma_mirror_deviation(w);
    }
    lemma_trails(x.negated(), y.negated(), a, negations(old_window));
    lemma_mirror_average(x, y, a);
    lemma_negated(rate);
    lemma_average_finite(x, y, a);
}

/// The largest correction as a part of one.
pub open spec fn largest_part() -> Double {
    drift_max().over(Double::integer(1_000_000))
}

/// A factor differs from one by at most the largest correction.
pub open spec fn near_one(factor: Double) -> bool {
    let one = Double::integer(1);
    one.minus(largest_part()).at_most(factor) && factor.at_most(one.plus(largest_part()))
}

/// A correction within 500 ppm makes a factor that differs from one by no more.
proof fn lemma_factor_near_one(c: Double)
    requires
        within(c, drift_max()),
    ensures
        near_one(Double::integer(1).plus(c.over(Double::integer(1_000_000)))),
{
    reveal(Double::value);
    let (m, n, one) = (drift_max(), Double::integer(1_000_000), Double::integer(1));
    lemma_integer_exact(500);
    lemma_integer_exact(1_000_000);
    lemma_integer_exact(1);
    lemma_ratio_order(1, 1, 1_000_000, 1);
    lemma_negated(m);
    lemma_between_finite(m.negated(), c, m);
    let d = if c.parts().neg {
        c.negated()
    } else {
        c
    };
    lemma_negated(c);
    lemma_encodes(c);
    lemma_parts_of(Parts { neg: !c.parts().neg, mag: c.parts().mag });
    lemma_over_monotone(d, m, n);
    lemma_over_shrinks(m, n);
    lemma_over_shrinks(c, n);
    lemma_over_shrinks(d, n);
    lemma_mirror_negated(c);
    lemma_mirror_over(c, c.negated(), n);
    let (x, p) = (c.over(n), largest_part());
    lemma_over_defined(d, n);
    lemma_negated(p);
    assert(p.negated().at_most(x) && x.at_most(p));
    lemma_plus_monotone(one, p.negated(), x);
    lemma_plus_monotone(one, x, p);
}

/// Whatever finite offsets come, whenever they come: baseline and correction stay
/// within 500 ppm, the factor for the clock as near to one, the rate within 500 us/s,
/// and the proportional term within that of its phase.
pub proof fn lemma_correction_bounded(s: Servo, offset_us: Double, now: u64)
    requires
        s.sound(),
        offset_us.finite(),
    ensures
        s.after(offset_us, now).sound(),
        within(s.after(offset_us, now).smoothed_rate_ppm, drift_max()),
        within(s.after(offset_us, now).drift_baseline_ppm, drift_max()),
        within(s.correction(offset_us, now), drift_max()),
        near_one(
            Double::integer(1).plus(
                s.correction(offset_us, now).over(Double::integer(1_000_000)),
            ),
        ),
        within(
            Servo::p_term(s.phase_after(offset_us, now), s.rate(offset_us, now)),
            s.phase_after(offset_us, now).p_max(),
        ),
{
    let m = drift_max();
    let rate = s.rate(offset_us, now);
    let phase = s.phase_after(offset_us, now);
    lemma_rate(s, offset_us, now);
    lemma_weight(s, offset_us, now);
    lemma_ratio(500, 1);
    lemma_ratio_finite(500, 1);
    lemma_negated(m);
    lemma_between_finite(m.negated(), s.drift_baseline_ppm, m);
    lemma_between_finite(m.negated(), rate, m);
    lemma_gains(phase);
    let effective = Servo::effective_rate(phase, rate);
    lemma_zero();
    lemma_negated(effective);
    lemma_times_defined(effective.negated(), phase.p_gain());
    lemma_times_defined(effective.negated(), phase.i_gain());
    lemma_clamped_within(effective.negated().times(phase.p_gain()), phase.p_max());
    let learned = effective.negated().times(phase.i_gain());
    lemma_plus_defined(s.drift_baseline_ppm, learned);
    lemma_clamped_within(s.drift_baseline_ppm.plus(learned), m);
    let baseline = s.baseline_after(phase, rate);
    let p = Servo::p_term(phase, rate);
    lemma_plus_defined(baseline, p);
    lemma_clamped_within(baseline.plus(p), m);
    lemma_factor_near_one(s.correction(offset_us, now));
}

/// Gains and limits are finite numbers, and limits are not negative.
pub proof fn lemma_gains(phase: Phase)
    ensures
        phase.p_gain().finite(),
        phase.i_gain().finite(),
        phase.p_max().finite(),
        !phase.p_max().nan(),
        phase.p_max().value() >= 0,
        !phase.p_gain().parts().neg,
        !phase.i_gain().parts().neg,
{
    lemma_ratio_finite(8, 10);
    lemma_ratio_finite(1, 10);
    lemma_ratio_finite(1, 100);
    lemma_ratio_finite(5, 100);
    lemma_ratio_finite(5, 1000);
    lemma_ratio_finite(200, 1);
    lemma_ratio_finite(100, 1);
    lemma_ratio_finite(10, 1);
    lemma_ratio(8, 10);
    lemma_ratio(1, 10);
    lemma_ratio(1, 100);
    lemma_ratio(5, 100);
    lemma_ratio(5, 1000);
    lemma_ratio(200, 1);
    lemma_ratio(100, 1);
    lemma_ratio(10, 1);
}

/// The proportional term opposes the rate: a clock that gains is slowed down, one
/// that loses is sped up.
pub proof fn lemma_correction_opposes(phase: Phase, rate: Double)
    requires
        rate.finite(),
    ensures
        rate.value() > 0 ==> Servo::p_term(phase, rate).value() <= 0,
        rate.value() < 0 ==> Servo::p_term(phase, rate).value() >= 0,
{
    reveal(Double::value);
    lemma_double_format();
    lemma_gains(phase);
    lemma_zero();
    let effective = Servo::effective_rate(phase, rate);
    lemma_negated(effective);
    lemma_negated(rate);
    lemma_encodes(effective);
    lemma_parts_of(Parts { neg: !effective.parts().neg, mag: effective.parts().mag });
    lemma_times_defined(effective.negated(), phase.p_gain());
    lemma_negated(phase.p_max());
    if effective == Double::zero() {
        lemma_nothing_times(effective.negated(), phase.p_gain());
    }
}

/// Nothing times a finite number is nothing.
pub proof fn lemma_nothing_times(z: Double, c: Double)
    requires
        z.parts().mag == 0,
        c.finite(),
    ensures
        z.times(c).parts().mag == 0,
        z.times(c).value() == 0,
{
    reveal(Double::value);
    lemma_double_format();
    let f = binary64();
    lemma_times_defined(z, c);
    assert(f.units(z.parts()) == 0);
    assert(0 * f.units(c.parts()) == 0);
    lemma_pow2_pos(f.unit as nat);
    lemma_nearest_zero(f, f.one());
}

/// In the noise floor of NANO mode nothing is corrected: the baseline stays, and it
/// alone is applied.
pub proof fn lemma_deadband(s: Servo, offset_us: Double, now: u64)
    requires
        s.sound(),
        offset_us.finite(),
        s.phase_after(offset_us, now) == Phase::Nano,
        s.rate(offset_us, now).absolute().below(nano_deadband()),
    ensures
        s.after(offset_us, now).drift_baseline_ppm.value() == s.drift_baseline_ppm.value(),
        s.correction(offset_us, now).value() == s.drift_baseline_ppm.value(),
{
    reveal(Double::value);
    lemma_double_format();
    let m = drift_max();
    let z = Double::zero().negated();
    let phase = Phase::Nano;
    let rate = s.rate(offset_us, now);
    lemma_gains(phase);
    lemma_zero();
    lemma_negated(Double::zero());
    lemma_parts_of(Parts { neg: true, mag: 0 });
    lemma_ratio(500, 1);
    lemma_ratio_finite(500, 1);
    lemma_negated(m);
    lemma_between_finite(m.negated(), s.drift_baseline_ppm, m);
    lemma_nothing_times(z, phase.i_gain());
    lemma_nothing_times(z, phase.p_gain());
    lemma_negated(phase.p_max());
    lemma_plus_nothing(s.drift_baseline_ppm, z.times(phase.i_gain()));
    let baseline = s.baseline_after(phase, rate);
    assert(baseline.value() == s.drift_baseline_ppm.value());
    let p = Servo::p_term(phase, rate);
    assert(p == z.times(phase.p_gain()));
    lemma_correction_bounded(s, offset_us, now);
    lemma_between_finite(m.negated(), baseline, m);
    lemma_plus_nothing(baseline, p);
}

/// NANO mode is entered only from lock, by a sample below the entry rate that
/// completes enough of them in a row.
pub proof fn lemma_nano_entry(n: Nano, locked: bool, abs_rate: Double)
    requires
        !n.active,
        n.sustain_count < usize::MAX,
        n.exit_count < usize::MAX,
    ensures
        n.after(locked, abs_rate).active <==> locked && abs_rate.below(nano_enter_rate())
            && n.sustain_count + 1 >= NANO_SUSTAIN_COUNT,
{
}

/// NANO mode is left only by the loss of lock, or by a sample above the exit rate
/// that completes enough of them in a row.
pub proof fn lemma_nano_exit(n: Nano, locked: bool, abs_rate: Double)
    requires
        n.active,
        n.sustain_count < usize::MAX,
        n.exit_count < usize::MAX,
    ensures
        !n.after(locked, abs_rate).active <==> !locked || (!abs_rate.below(nano_enter_rate())
            && nano_exit_rate().below(abs_rate) && n.exit_count + 1 >= NANO_EXIT_COUNT),
{
}

/// NANO mode after some samples while locked.
pub open spec fn nano_run(n: Nano, rates: Seq<Double>) -> Nano
    decreases rates.len(),
{
    if rates.len() == 0 {
        n
    } else {
        nano_run(n, rates.drop_last()).after(true, rates.last())
    }
}

/// From lock, NANO mode is entered with the fifteenth of samples in a row below the
/// entry rate, and not before.
pub proof fn lemma_nano_entered_in_time(rates: Seq<Double>)
    requires
        rates.len() < usize::MAX,
        forall|i: int| 0 <= i < rates.len() ==> (#[trigger] rates[i]).below(nano_enter_rate()),
    ensures
        nano_run(Nano::off(), rates).sustain_count == rates.len(),
        nano_run(Nano::off(), rates).exit_count == 0,
        nano_run(Nano::off(), rates).active <==> rates.len() >= NANO_SUSTAIN_COUNT,
    decreases rates.len(),
{
    if rates.len() > 0 {
        lemma_nano_entered_in_time(rates.drop_last());
        assert(rates.last() == rates[rates.len() - 1]);
    }
}

/// NANO mode survives up to four samples in a row above the exit rate, and ends
/// with the fifth.
pub proof fn lemma_nano_left_in_time(n: Nano, rates: Seq<Double>)
    requires
        n.active,
        n.exit_count == 0,
        rates.len() <= NANO_EXIT_COUNT,
        forall|i: int|
            0 <= i < rates.len() ==> nano_exit_rate().below(#[trigger] rates[i])
                && !rates[i].below(nano_enter_rate()),
    ensures
        nano_run(n, rates).active <==> rates.len() < NANO_EXIT_COUNT,
        rates.len() < NANO_EXIT_COUNT ==> nano_run(n, rates).exit_count == rates.len(),
    decreases rates.len(),
{
    if rates.len() > 0 {
        lemma_nano_left_in_time(n, rates.drop_last());
        assert(rates.last() == rates[rates.len() - 1]);
    }
}

/// The lock is gained only by a stable sample that completes enough of them, and
/// lost only by an unstable one that uses the last of them up.
pub proof fn lemma_lock_transitions(locked: bool, count: usize, stable: bool)
    requires
        count < usize::MAX,
    ensures
        !locked ==> (lock_after(locked, count, stable).0 <==> stable && count + 1
            >= LOCK_STABLE_COUNT),
        locked ==> (!lock_after(locked, count, stable).0 <==> !stable && count <= 1),
{
}

/// A sample moves each counter by at most one step.
pub proof fn lemma_counters_grow_slowly(s: Servo, offset_us: Double, now: u64)
    requires
        s.has_headroom(),
    ensures
        s.after(offset_us, now).lock_stable_count <= s.lock_stable_count + 1,
        s.after(offset_us, now).nano.sustain_count <= s.nano.sustain_count + 1,
        s.after(offset_us, now).nano.exit_count <= s.nano.exit_count + 1,
{
}

/// The servo after some samples.
pub open spec fn steered(s: Servo, offsets: Seq<Double>, times: Seq<u64>) -> Servo
    decreases offsets.len(),
{
    if offsets.len() == 0 {
        s
    } else {
        steered(s, offsets.drop_last(), times.drop_last()).after(offsets.last(), times.last())
    }
}

/// Only how far the offsets lie apart matters to the servo, not where they lie: runs
/// of samples with the same differences from one offset to the next give the same
/// rates, modes and corrections, sample by sample.
pub proof fn lemma_only_differences_count(
    s: Servo,
    offsets: Seq<Double>,
    others: Seq<Double>,
    times: Seq<u64>,
)
    requires
        s.last_offset_us is None,
        offsets.len() == others.len() == times.len(),
        forall|i: int|
            0 < i < offsets.len() ==> (#[trigger] offsets[i]).minus(offsets[i - 1])
                == others[i].minus(others[i - 1]),
    ensures
        ({
            let (a, b) = (steered(s, offsets, times), steered(s, others, times));
            &&& b == Servo { last_offset_us: b.last_offset_us, ..a }
            &&& a.last_offset_us == if offsets.len() == 0 {
                None
            } else {
                Some(offsets.last())
            }
            &&& b.last_offset_us == if others.len() == 0 {
                None
            } else {
                Some(others.last())
            }
        }),
    decreases offsets.len(),
{
    if offsets.len() > 0 {
        let n = offsets.len() as int;
        let (o, p, t) = (offsets.drop_last(), others.drop_last(), times.drop_last());
        assert forall|i: int| 0 < i < o.len() implies (#[trigger] o[i]).minus(o[i - 1])
            == p[i].minus(p[i - 1]) by {
            assert(offsets[i].minus(offsets[i - 1]) == others[i].minus(others[i - 1]));
        }
        lemma_only_differences_count(s, o, p, t);
        let (a, b) = (steered(s, o, t), steered(s, p, t));
        let now = times.last();
        if n > 1 {
            assert(offsets[n - 1].minus(offsets[n - 1 - 1]) == others[n - 1].minus(
                others[n - 1 - 1],
            ));
        }
        assert(a.raw_rate(offsets.last(), now) == b.raw_rate(others.last(), now));
        assert(a.rate(offsets.last(), now) == b.rate(others.last(), now));
        assert(a.phase_after(offsets.last(), now) == b.phase_after(others.last(), now));
    }
}

/// A constant shift of the offsets changes nothing about what the servo does, for
/// offsets of whole microseconds that are not rounded.
pub proof fn lemma_constant_shift(s: Servo, offsets: Seq<int>, shift: int, times: Seq<u64>)
    requires
        s.last_offset_us is None,
        offsets.len() == times.len(),
        forall|i: int|
            0 <= i < offsets.len() ==> {
                &&& -0x20_0000_0000_0000 < #[trigger] offsets[i] < 0x20_0000_0000_0000
                &&& -0x20_0000_0000_0000 < offsets[i] + shift < 0x20_0000_0000_0000
            },
    ensures
        ({
            let a = steered(s, offsets.map_values(|x: int| Double::integer(x)), times);
            let b = steered(s, offsets.map_values(|x: int| Double::integer(x + shift)), times);
            b == Servo { last_offset_us: b.last_offset_us, ..a }
        }),
{
    let o = offsets.map_values(|x: int| Double::integer(x));
    let p = offsets.map_values(|x: int| Double::integer(x + shift));
    assert forall|i: int| 0 < i < o.len() implies (#[trigger] o[i]).minus(o[i - 1]) == p[i].minus(
        p[i - 1],
    ) by {
        let (x, y) = (offsets[i], offsets[i - 1]);
        lemma_integers_minus(x, y);
        lemma_integers_minus(x + shift, y + shift);
        assert((x + shift) - (y + shift) == x - y);
    }
    lemma_only_differences_count(s, o, p, times);
}

/// From the start on, through any run of finite offsets at any times: the rate stays
/// within 500 us/s, and baseline and correction within 500 ppm.
pub proof fn lemma_run_bounded(offsets: Seq<Double>, times: Seq<u64>)
    requires
        offsets.len() == times.len(),
        forall|i: int| 0 <= i < offsets.len() ==> (#[trigger] offsets[i]).finite(),
    ensures
        ({
            let s = steered(Servo::initial(), offsets, times);
            &&& s.sound()
            &&& within(s.smoothed_rate_ppm, drift_max())
            &&& within(s.drift_baseline_ppm, drift_max())
            &&& within(s.last_adj_ppm, drift_max())
        }),
    decreases offsets.len(),
{
    if offsets.len() == 0 {
        lemma_initial_sound();
    } else {
        let (o, t) = (offsets.drop_last(), times.drop_last());
        lemma_run_bounded(o, t);
        assert(offsets.last() == offsets[offsets.len() - 1]);
        lemma_correction_bounded(
            steered(Servo::initial(), o, t),
            offsets.last(),
            times.last(),
        );
    }
}

} // verus!
