//! The Windows clock: rate adjustments in units of the performance counter, and
//! points in time in units of 100 nanoseconds.
use crate::ieee::arith::magnitude_of_int;
use crate::ieee::double::Double;
use crate::ieee::error::{
    is_scaled_quotient, lemma_difference, lemma_quotient, lemma_rounded, lemma_scaled_quotient,
    lemma_times_integer,
};
use crate::ieee::exact::{lemma_integer_exact, lemma_integers_minus};
use crate::ieee::laws::lemma_negated;
use crate::ieee::powers::{lemma_tame_plus, lemma_tame_times, tame};
use crate::ieee::rounding::binary64;
use crate::text::{contains, occurs};
use crate::time::{elapsed, lemma_units_of_one, since, Span};
use vstd::arithmetic::power2::*;
use vstd::prelude::*;
use vstd::string::*;

verus! {

/// The clock, with what is needed to see whether adjustments take effect.
#[derive(Clone, Copy, Debug)]
pub struct WindowsClock {
    pub original_increment: u64,
    pub perf_frequency: i64,
    pub adjustment_count: u64,
    pub last_adjustment: u64,
    pub last_requested_ppm: Double,
    /// Performance counter and system time at the start of the measurement.
    pub baseline_perf_counter: i64,
    pub baseline_filetime: u64,
    /// Monotonic time of that (ns).
    pub last_measurement_time: u64,
}

/// How well the rate follows the adjustments.
#[derive(Clone, Copy, Debug, PartialEq, Eq, Structural)]
pub struct Effectiveness {
    pub wall_time_ns: Double,
    pub observed_ppm: Double,
    pub effectiveness: Double,
    /// Adjustments seem to have no effect.
    pub low: bool,
}

/// A step back would lead before the start of time.
#[derive(Clone, Copy, Debug, PartialEq, Eq, Structural)]
pub struct NegativeTime;

/// What is known of the W32Time service.
#[derive(Clone, Copy, Debug, PartialEq, Eq, Structural)]
pub enum TimeService {
    Running,
    Stopped,
    Unknown,
}

/// A multiple of the nominal rate in parts per million.
pub open spec fn factor_ppm(factor: Double) -> Double {
    factor.minus(Double::integer(1)).times(Double::integer(1_000_000))
}

/// The adjustment for a rate: more units make the clock slower.
pub open spec fn adjustment_delta(ppm: Double, perf_frequency: int) -> int {
    ppm.negated().times(Double::integer(perf_frequency)).over(
        Double::integer(1_000_000),
    ).rounded().as_integer(i64::MIN as int, i64::MAX as int)
}

/// How far the system time ran ahead of the performance counter.
pub open spec fn observed(pc_elapsed: int, perf_frequency: int, ft_elapsed: int) -> (
    Double,
    Double,
) {
    let wall = Double::integer(pc_elapsed).over(Double::integer(perf_frequency)).times(
        Double::integer(1_000_000_000),
    );
    let system = Double::integer(ft_elapsed).times(Double::integer(100));
    (wall, system.minus(wall).over(wall).times(Double::integer(1_000_000)))
}

/// The share of the requested rate that was observed.
pub open spec fn share(requested: Double, observed: Double) -> Double {
    if Double::ratio(1, 10).below(requested.absolute()) {
        observed.over(requested)
    } else if observed.absolute().below(Double::integer(10)) {
        Double::integer(1)
    } else {
        Double::zero()
    }
}

/// The rate that one unit of adjustment makes.
pub fn ppm_per_unit(increment: u64) -> (r: Double)
    ensures
        r == Double::integer(1_000_000).over(Double::integer(increment as int)),
{
    Double::from_i64(1_000_000).div(Double::from_u64(increment))
}

/// The rate that an adjustment stands for, as an offset from the nominal one.
pub fn current_ppm(adjustment: u64, increment: u64) -> (r: Double)
    ensures
        r == Double::integer(adjustment as int).minus(Double::integer(increment as int)).over(
            Double::integer(increment as int),
        ).times(Double::integer(1_000_000)),
{
    let inc = Double::from_u64(increment);
    Double::from_u64(adjustment).sub(inc).div(inc).mul(Double::from_i64(1_000_000))
}

/// A multiple of the nominal rate in parts per million.
pub fn ppm_of_factor(factor: Double) -> (r: Double)
    ensures
        r == factor_ppm(factor),
{
    factor.sub(Double::from_i64(1)).mul(Double::from_i64(1_000_000))
}

/// The adjustment for a rate.
pub fn delta_of_ppm(ppm: Double, perf_frequency: i64) -> (r: i64)
    ensures
        r == adjustment_delta(ppm, perf_frequency as int),
{
    ppm.neg().mul(Double::from_i64(perf_frequency)).div(
        Double::from_i64(1_000_000),
    ).round().to_i64()
}

/// A length of time in units of 100 nanoseconds; the nanoseconds count modulo
/// `2^64`.
pub open spec fn hundreds(offset: Span) -> int {
    (offset.total_nanos() % 0x1_0000_0000_0000_0000) as int / 100
}

/// A length of time in units of 100 nanoseconds.
pub fn offset_100ns(offset: Span) -> (r: u64)
    ensures
        r == hundreds(offset),
{
    (offset.as_nanos() % 0x1_0000_0000_0000_0000) as u64 / 100
}

/// The point in time that a step leads to, forwards if the sign is positive; none
/// if that is not after the start of time.
pub open spec fn stepped_from(before: int, offset: Span, sign: i8) -> Option<int> {
    if sign > 0 {
        Some(before + hundreds(offset))
    } else if before > hundreds(offset) {
        Some(before - hundreds(offset))
    } else {
        None
    }
}

/// The point in time that a step leads to, forwards if the sign is positive.
pub fn step_target(before: u64, offset: Span, sign: i8) -> (r: Result<u64, NegativeTime>)
    requires
        sign > 0 ==> before + hundreds(offset) <= u64::MAX,
    ensures
        match r {
            Ok(t) => stepped_from(before as int, offset, sign) == Some(t as int),
            Err(_) => stepped_from(before as int, offset, sign) is None,
        },
{
    let units = offset_100ns(offset);
    if sign > 0 {
        Ok(before + units)
    } else if before > units {
        Ok(before - units)
    } else {
        Err(NegativeTime)
    }
}

/// The high and low half of a point in time.
pub fn filetime_parts(time: u64) -> (r: (u32, u32))
    ensures
        r.0 * 0x1_0000_0000 + r.1 == time,
{
    ((time / 0x1_0000_0000) as u32, (time % 0x1_0000_0000) as u32)
}

/// A point in time from its high and low half.
pub fn filetime_of(high: u32, low: u32) -> (r: u64)
    ensures
        r == high * 0x1_0000_0000 + low,
{
    high as u64 * 0x1_0000_0000 + low as u64
}

/// What the answer to a query of the W32Time service says.
pub fn time_service(answer: &str) -> (r: TimeService)
    ensures
        r == if occurs(answer@, "RUNNING"@) {
            TimeService::Running
        } else if occurs(answer@, "STOPPED"@) {
            TimeService::Stopped
        } else {
            TimeService::Unknown
        },
{
    if contains(answer, "RUNNING") {
        TimeService::Running
    } else if contains(answer, "STOPPED") {
        TimeService::Stopped
    } else {
        TimeService::Unknown
    }
}

impl WindowsClock {
    /// A clock that runs at its nominal rate, measured from now on.
    pub fn started(
        increment: u64,
        perf_frequency: i64,
        perf_counter: i64,
        filetime: u64,
        now: u64,
    ) -> (r: WindowsClock)
        ensures
            r == (WindowsClock {
                original_increment: increment,
                perf_frequency,
                adjustment_count: 0,
                last_adjustment: increment,
                last_requested_ppm: Double::zero(),
                baseline_perf_counter: perf_counter,
                baseline_filetime: filetime,
                last_measurement_time: now,
            }),
    {
        WindowsClock {
            original_increment: increment,
            perf_frequency,
            adjustment_count: 0,
            last_adjustment: increment,
            last_requested_ppm: Double::from_bits(0),
            baseline_perf_counter: perf_counter,
            baseline_filetime: filetime,
            last_measurement_time: now,
        }
    }

    /// The adjustment for a multiple of the nominal rate, modulo `2^64`.
    pub open spec fn adjustment(self, factor: Double) -> int {
        (self.original_increment + adjustment_delta(
            factor_ppm(factor),
            self.perf_frequency as int,
        )) % 0x1_0000_0000_0000_0000
    }

    /// Starts an adjustment: the units to set.
    pub fn begin_adjustment(&mut self, factor: Double) -> (r: u64)
        requires
            old(self).adjustment_count < u64::MAX,
        ensures
            r == old(self).adjustment(factor),
            *final(self) == (WindowsClock {
                adjustment_count: (old(self).adjustment_count + 1) as u64,
                ..*old(self)
            }),
    {
        let delta = delta_of_ppm(ppm_of_factor(factor), self.perf_frequency);
        self.adjustment_count = self.adjustment_count + 1;
        let sum: i128 = self.original_increment as i128 + delta as i128;
        if sum < 0 {
            (sum + 0x1_0000_0000_0000_0000) as u64
        } else {
            (sum as u128 % 0x1_0000_0000_0000_0000) as u64
        }
    }

    /// Takes note of an adjustment that was set.
    pub fn finish_adjustment(&mut self, factor: Double, adjustment: u64)
        ensures
            *final(self) == (WindowsClock {
                last_adjustment: adjustment,
                last_requested_ppm: factor_ppm(factor),
                ..*old(self)
            }),
    {
        self.last_adjustment = adjustment;
        self.last_requested_ppm = ppm_of_factor(factor);
    }

    /// Starts a measurement.
    pub fn rebase(&mut self, perf_counter: i64, filetime: u64, now: u64)
        ensures
            *final(self) == (WindowsClock {
                baseline_perf_counter: perf_counter,
                baseline_filetime: filetime,
                last_measurement_time: now,
                ..*old(self)
            }),
    {
        self.baseline_perf_counter = perf_counter;
        self.baseline_filetime = filetime;
        self.last_measurement_time = now;
    }

    /// How well the rate followed the adjustments since the last measurement.
    pub open spec fn measured(self, perf_counter: i64, filetime: u64) -> Effectiveness {
        let (wall, ppm) = observed(
            perf_counter.wrapping_sub(self.baseline_perf_counter) as int,
            self.perf_frequency as int,
            filetime.wrapping_sub(self.baseline_filetime) as int,
        );
        let s = share(self.last_requested_ppm, ppm);
        Effectiveness {
            wall_time_ns: wall,
            observed_ppm: ppm,
            effectiveness: s,
            low: s.absolute().below(Double::ratio(3, 10)) && Double::integer(10).below(
                self.last_requested_ppm.absolute(),
            ),
        }
    }

    /// Measures how well the rate follows the adjustments; every 10 seconds there
    /// is a result, and a new measurement starts.
    pub fn measure(&mut self, perf_counter: i64, filetime: u64, now: u64) -> (r: Option<
        Effectiveness,
    >)
        ensures
            r is Some <==> since(old(self).last_measurement_time, now) >= 10_000_000_000,
            r matches Some(e) ==> e == old(self).measured(perf_counter, filetime),
            *final(self) == if r is Some {
                WindowsClock {
                    baseline_perf_counter: perf_counter,
                    baseline_filetime: filetime,
                    last_measurement_time: now,
                    ..*old(self)
                }
            } else {
                *old(self)
            },
    {
        if elapsed(self.last_measurement_time, now) < 10_000_000_000 {
            return None;
        }
        let pc_elapsed = perf_counter.wrapping_sub(self.baseline_perf_counter);
        let wall = Double::from_i64(pc_elapsed).div(Double::from_i64(self.perf_frequency)).mul(
            Double::from_i64(1_000_000_000),
        );
        let ft_elapsed = filetime.wrapping_sub(self.baseline_filetime);
        let system = Double::from_u64(ft_elapsed).mul(Double::from_i64(100));
        let ppm = system.sub(wall).div(wall).mul(Double::from_i64(1_000_000));
        let requested = self.last_requested_ppm;
        let effectiveness = if Double::from_ratio(1, 10).lt(requested.abs()) {
            ppm.div(requested)
        } else if ppm.abs().lt(Double::from_i64(10)) {
            Double::from_i64(1)
        } else {
            Double::from_bits(0)
        };
        let low = effectiveness.abs().lt(Double::from_ratio(3, 10)) && Double::from_i64(10).lt(
            requested.abs(),
        );
        self.rebase(perf_counter, filetime, now);
        Some(Effectiveness { wall_time_ns: wall, observed_ppm: ppm, effectiveness, low })
    }
}

/// The two halves of a point in time are determined by it.
pub proof fn lemma_filetime_parts(high: u32, low: u32, other_high: u32, other_low: u32)
    ensures
        high * 0x1_0000_0000 + low == other_high * 0x1_0000_0000 + other_low <==> high
            == other_high && low == other_low,
{
}

/// A step in the one direction and then one in the other lead back, unless the
/// second one is to lead back to the start of time.
pub proof fn lemma_step_back(before: u64, offset: Span, sign: i8, opposite: i8)
    requires
        0 < before,
        sign > 0 <==> opposite <= 0,
        stepped_from(before as int, offset, sign) is Some,
    ensures
        stepped_from(stepped_from(before as int, offset, sign)->0, offset, opposite) == Some(
            before as int,
        ),
{
}

/// A factor in parts per million is its deviation from one, a million times, up to one
/// part in `2^50`.
pub proof fn lemma_factor_ppm(factor: Double)
    requires
        tame(factor, 10),
    ensures
        tame(factor_ppm(factor), 31),
        ({
            let deviation = factor.value() - binary64().one();
            0x4_0000_0000_0000 * magnitude_of_int(
                factor_ppm(factor).value() - deviation * 1_000_000,
            ) <= magnitude_of_int(deviation) * 1_000_000 + 0x1000_0000_0000_0000_0000
        }),
{
    let i = Double::integer(1);
    let d = factor.minus(i);
    lemma_pow2_pos(1074);
    lemma_integer_exact(1);
    lemma_integer_exact(1_000_000);
    lemma_negated(i);
    lemma2_to64();
    lemma_pow2_adds(1074, 10);
    lemma_pow2_adds(1074, 20);
    assert(tame(i.negated(), 10));
    lemma_tame_plus(factor, i.negated(), 10);
    lemma_difference(factor, i);
    lemma_tame_times(d, Double::integer(1_000_000), 11, 20);
    lemma_times_integer(d, 1_000_000);
}

/// The adjustment for a rate is against it: so many units of the performance counter as a
/// millionth of its frequency makes, times the rate, rounded to the nearest. It is off by
/// half a unit at most, and one part in `2^49`.
pub proof fn lemma_adjustment(ppm: Double, frequency: i64)
    requires
        tame(ppm, 31),
        0 < frequency < 0x10_0000_0000,
    ensures
        ({
            let one = binary64().one() as int;
            let delta = adjustment_delta(ppm, frequency as int);
            0x2_0000_0000_0000 * (2 * magnitude_of_int(
                delta * 1_000_000 * one + ppm.value() * frequency,
            )) <= 0x2_0000_0000_0000 * (1_000_000 * one) + 2 * magnitude_of_int(
                ppm.value() * frequency,
            ) + 0x1000_0000_0000_0000_0000_0000
        }),
        forall|r: i64| #[trigger]
            call_ensures(delta_of_ppm, (ppm, frequency), r) ==> r == adjustment_delta(
                ppm,
                frequency as int,
            ),
{
    let one = binary64().one() as int;
    let n = ppm.negated();
    lemma_negated(ppm);
    lemma_pow2_pos(1074);
    lemma_integer_exact(frequency as int);
    lemma_integer_exact(1_000_000);
    lemma2_to64();
    lemma2_to64_rest();
    lemma_pow2_adds(1074, 36);
    lemma_pow2_adds(1074, 67);
    lemma_pow2_adds(60, 7);
    assert(pow2(67) == 0x8_0000_0000_0000_0000);
    assert(pow2(1141) == one * 0x8_0000_0000_0000_0000);
    let c = Double::integer(frequency as int);
    assert(frequency * one <= 0x10_0000_0000 * one) by (nonlinear_arith)
        requires
            frequency <= 0x10_0000_0000,
            one > 0,
    ;
    assert(frequency * one >= 0) by (nonlinear_arith)
        requires
            frequency >= 0,
            one > 0,
    ;
    lemma_tame_times(n, c, 31, 36);
    lemma_times_integer(n, frequency as int);
    let a = n.times(c);
    lemma_quotient(a, 1_000_000);
    let b = a.over(Double::integer(1_000_000));
    lemma_units_of_one();
    let (av, bv, pf) = (a.value(), b.value(), ppm.value() * frequency);
    assert(n.value() * frequency == -pf) by (nonlinear_arith)
        requires
            n.value() == -ppm.value(),
            pf == ppm.value() * frequency,
    ;
    lemma_rounded(b);
    let delta = adjustment_delta(ppm, frequency as int);
    let dv = delta * one;
    assert(2 * magnitude_of_int(dv - bv) <= one);
    assert(delta * 1_000_000 * one == 1_000_000 * dv) by (nonlinear_arith)
        requires
            dv == delta * one,
    ;
}

/// Every step leads on by the offset in whole units of 100 nanoseconds, forwards if the
/// sign is positive and backwards if not, unless that would not be after the start of
/// time.
pub proof fn lemma_step_moves(before: u64, offset: Span, sign: i8, r: Result<u64, NegativeTime>)
    requires
        offset.total_nanos() < 0x1_0000_0000_0000_0000,
        sign > 0 ==> before + offset.total_nanos() / 100 <= u64::MAX,
        call_ensures(step_target, (before, offset, sign), r),
    ensures
        sign > 0 ==> r is Ok && r->Ok_0 - before == offset.total_nanos() as int / 100,
        sign <= 0 && before > offset.total_nanos() / 100 ==> r is Ok && before - r->Ok_0
            == offset.total_nanos() as int / 100,
        sign <= 0 && before <= offset.total_nanos() / 100 ==> r is Err,
{
}

/// Every rate that an adjustment stands for is its deviation from the nominal one, as a
/// share of that, in parts per million; one unit makes as many as go into the nominal one.
pub proof fn lemma_current_ppm(adjustment: u64, increment: u64, r: Double, u: Double)
    requires
        adjustment < 0x10_0000_0000_0000,
        0 < increment < 0x10_0000_0000_0000,
        call_ensures(current_ppm, (adjustment, increment), r),
        call_ensures(ppm_per_unit, (increment,), u),
    ensures
        is_scaled_quotient(r.value(), adjustment - increment, increment as int, 1_000_000),
        0x20_0000_0000_0000 * magnitude_of_int(
            u.value() * increment - 1_000_000 * binary64().one(),
        ) <= 1_000_000 * binary64().one() + 0x10_0000_0000_0000 * increment,
{
    lemma_integers_minus(adjustment as int, increment as int);
    lemma_scaled_quotient(adjustment - increment, increment as int, 1_000_000);
    lemma_integer_exact(1_000_000);
    lemma_quotient(Double::integer(1_000_000), increment as int);
}

/// Every measurement of the adjustments comes ten seconds after the last one or later, and
/// starts the next one; what it finds wanting is a rate of more than 10 ppm of which less
/// than three tenths were observed.
pub proof fn lemma_measurement(perf_counter: i64, filetime: u64, now: u64)
    ensures
        forall|c: &mut WindowsClock, r: Option<Effectiveness>| #[trigger]
            call_ensures(WindowsClock::measure, (c, perf_counter, filetime, now), r) ==> {
                let (b, a) = (*c, *final(c));
                &&& r is Some <==> now >= b.last_measurement_time + 10_000_000_000
                &&& r is None ==> a == b
                &&& r is Some ==> a.baseline_perf_counter == perf_counter && a.baseline_filetime
                    == filetime && a.last_measurement_time == now && a.original_increment
                    == b.original_increment && a.perf_frequency == b.perf_frequency
                    && a.last_requested_ppm == b.last_requested_ppm
                &&& r is Some ==> ((r->0).low <==> Double::integer(10).below(
                    b.last_requested_ppm.absolute(),
                ) && (r->0).effectiveness.absolute().below(Double::ratio(3, 10)))
            },
{
}

/// Every adjustment that is begun is the nominal one and the units for the factor, against
/// it; it is counted, and noted once it was set.
pub proof fn lemma_adjusted(factor: Double, adjustment: u64)
    ensures
        forall|c: &mut WindowsClock, r: u64| #[trigger]
            call_ensures(WindowsClock::begin_adjustment, (c, factor), r) && (
            *c).adjustment_count < u64::MAX ==> {
                let (b, a) = (*c, *final(c));
                let delta = adjustment_delta(factor_ppm(factor), b.perf_frequency as int);
                &&& (r - (b.original_increment + delta)) % 0x1_0000_0000_0000_0000 == 0
                &&& a == (WindowsClock { adjustment_count: a.adjustment_count, ..b })
                &&& a.adjustment_count == b.adjustment_count + 1
            },
        forall|c: &mut WindowsClock, r: ()| #[trigger]
            call_ensures(WindowsClock::finish_adjustment, (c, factor, adjustment), r) ==> (
            *final(c)).last_adjustment == adjustment && (*final(c)).last_requested_ppm
                == factor_ppm(factor) && (*final(c)).perf_frequency == (*c).perf_frequency && (
            *final(c)).original_increment == (*c).original_increment,
{
}

} // verus!
