//! What a sample does to the servo, told by offsets, times and rates.
use crate::ieee::arith::{lemma_nearest_zero, magnitude_of_int};
use crate::ieee::constants::{
    lemma_at, lemma_tenths, lemma_tenths_difference, q_one_tenth, q_three_tenths,
};
use crate::ieee::convert::lemma_nearest_exact;
use crate::ieee::double::{lemma_double_format, Double};
use crate::ieee::error::{
    average, is_sum, lemma_difference, lemma_nearest_relative, lemma_product, lemma_quotient,
    lemma_sum, lemma_weights,
};
use crate::ieee::exact::{
    lemma_integer_exact, lemma_integers_minus, lemma_integers_over, lemma_integers_plus,
};
use crate::ieee::laws::{
    lemma_absolute, lemma_between_finite, lemma_encodes, lemma_nearest_encodes,
    lemma_nearest_monotone, lemma_negated, lemma_over_defined, lemma_over_monotone,
    lemma_over_shrinks, lemma_parts_of, lemma_plus_commutes, lemma_plus_defined, lemma_plus_nothing,
    lemma_plus_value, lemma_ratio, lemma_ratio_finite, lemma_ratio_order, lemma_times_defined,
    lemma_zero,
};
use crate::ieee::powers::{
    lemma_binary_fraction, lemma_power, lemma_tame_plus, lemma_tame_times, lemma_tame_wider,
    power_bits, tame,
};
use crate::ieee::root::{is_root_floor, lemma_root_floor_unique, nearest_root};
use crate::ieee::rounding::{binary64, lemma_format};
use crate::ieee::scale::{lemma_magnitude_increases, magnitude};
use crate::rate_servo::{
    drift_max, lemma_correction_bounded, lemma_drift_tame, lemma_gains, lemma_nothing_times,
    lemma_restarted_sound, lemma_weight, Phase, RateServo, Servo,
};
use crate::spike_filter::{
    lemma_alpha_between, lemma_no_integer, lemma_total_of_equals, mean, slid, squares,
    standard_deviation, total, usual, Jitter, JitterEstimator,
};
use crate::time::{in_seconds, lemma_in_seconds, lemma_seconds_accurate, lemma_units_of_one, since};
use vstd::arithmetic::power2::*;
use vstd::prelude::*;

verus! {

/// A rate times the time passed (ns) is the change of the offset, up to one part in
/// `2^50` and two of the smallest numbers per second.
pub open spec fn fits(rate: int, nanos: int, change: int) -> bool {
    0x4_0000_0000_0000 * magnitude_of_int(rate * nanos - change * 1_000_000_000)
        <= magnitude_of_int(change) * 1_000_000_000 + 0x8_0000_0000_0000 * nanos
}

/// A number cut off at a bound on either side of zero.
pub open spec fn cut_off(n: int, bound: int) -> int {
    if n > bound {
        bound
    } else if n < -bound {
        -bound
    } else {
        n
    }
}

/// The rate that a sample measured: it is the last one that the jitter is taken of.
pub open spec fn measured_rate(after: Servo) -> Double {
    after.jitter.window.last()
}

/// The arithmetic of a rate: from the errors of the quotient and of the seconds to
/// the error of the whole.
proof fn lemma_fits(x: nat, t: nat, d: nat, e: nat, one: nat)
    requires
        one > 0,
        0x20_0000_0000_0000 * magnitude_of_int(x * t - d * one) <= d * one + 0x10_0000_0000_0000
            * t,
        0x8_0000_0000_0000 * magnitude_of_int(t * 1_000_000_000 - e * one) <= e * one,
    ensures
        fits(x as int, e as int, d as int),
{
    let g = 1_000_000_000int;
    let (u, v, w) = ((x * e) * one, (d * g) * one, (x * t) * g);
    let a = x * t - d * one;
    let b = t * g - e * one;
    assert(w - v == a * g) by (nonlinear_arith)
        requires
            w == (x * t) * g,
            v == (d * g) * one,
            a == x * t - d * one,
    ;
    assert(w - u == x * b) by (nonlinear_arith)
        requires
            w == (x * t) * g,
            u == (x * e) * one,
            b == t * g - e * one,
    ;
    let (ma, mb) = (magnitude_of_int(a), magnitude_of_int(b));
    assert(magnitude_of_int(x * b) == x * mb) by (nonlinear_arith)
        requires
            mb == magnitude_of_int(b),
    ;
    assert(0x8_0000_0000_0000 * (x * mb) <= u) by (nonlinear_arith)
        requires
            0x8_0000_0000_0000 * mb <= e * one,
            u == (x * e) * one,
    ;
    assert(d * one * g == v) by (nonlinear_arith)
        requires
            v == (d * g) * one,
    ;
    assert(u >= 0 && v >= 0 && e * one >= 0) by (nonlinear_arith)
        requires
            u == (x * e) * one,
            v == (d * g) * one,
            g == 1_000_000_000,
    ;
    let k = e * one;
    assert(t * g <= 2 * k);
    assert(0x4_0000_0000_0000 * magnitude_of_int(u - v) <= v + 0x8_0000_0000_0000 * k);
    let diff = x * e - d * g;
    assert(u - v == diff * one) by (nonlinear_arith)
        requires
            u == (x * e) * one,
            v == (d * g) * one,
            diff == x * e - d * g,
    ;
    let m = magnitude_of_int(diff);
    assert(magnitude_of_int(diff * one) == m * one) by (nonlinear_arith)
        requires
            m == magnitude_of_int(diff),
            one > 0,
    ;
    let r = d * g + 0x8_0000_0000_0000 * e;
    assert((0x4_0000_0000_0000 * m) * one <= r * one) by (nonlinear_arith)
        requires
            0x4_0000_0000_0000 * (m * one) <= v + 0x8_0000_0000_0000 * k,
            v == (d * g) * one,
            k == e * one,
            r == d * g + 0x8_0000_0000_0000 * e,
    ;
    assert(0x4_0000_0000_0000 * m <= r) by (nonlinear_arith)
        requires
            (0x4_0000_0000_0000 * m) * one <= r * one,
            one > 0,
    ;
}

/// The seconds passed are more than a tenth exactly if more than a hundred million
/// nanoseconds passed.
pub proof fn lemma_tenth_of_a_second(nanos: u64)
    ensures
        Double::ratio(1, 10).below(in_seconds(nanos)) <==> nanos > 100_000_000,
{
    reveal(Double::value);
    lemma_double_format();
    let f = binary64();
    let one = f.one();
    let t = in_seconds(nanos);
    let a = Double::ratio(1, 10);
    lemma_in_seconds(nanos);
    lemma_ratio(1, 10);
    lemma_tenths();
    lemma_at(1018, q_one_tenth());
    lemma2_to64();
    lemma2_to64_rest();
    lemma_pow2_adds(1018, 56);
    lemma_pow2_pos(1018);
    if nanos > 100_000_000 {
        lemma_seconds_accurate(nanos);
        let s = pow2(1018);
        let n = nanos as int;
        assert(one == s * 0x100_0000_0000_0000);
        assert(n * one >= 100_000_001 * one) by (nonlinear_arith)
            requires
                n >= 100_000_001,
                one > 0,
        ;
        assert(a.value() == 0x19_9999_9999_999A * s);
        assert(t.value() * 1_000_000_000 > a.value() * 1_000_000_000);
    } else {
        let g: int = 1_000_000_000;
        let n = nanos as int;
        assert(n / g == 0 && n % g == n);
        let (b, c, h) = (Double::integer(n), Double::integer(g), Double::integer(100_000_000));
        lemma_integer_exact(n);
        lemma_integer_exact(g);
        lemma_integer_exact(0);
        lemma_integer_exact(100_000_000);
        lemma_ratio(1, 1);
        lemma_ratio_order(1, 1, g as nat, 1);
        lemma_ratio_order(n as nat, 1, 100_000_000, 1);
        lemma_over_shrinks(b, c);
        lemma_over_shrinks(h, c);
        lemma_over_monotone(b, h, c);
        lemma_plus_commutes(Double::integer(0), b.over(c));
        lemma_plus_nothing(b.over(c), Double::integer(0));
        lemma_over_defined(h, c);
        lemma_pow2_pos(1074);
        reveal(Double::ratio);
        let num = (100_000_000 * one) * one;
        let den = g as nat * one;
        assert(num * 10 == (1 * one) * den && den > 0) by (nonlinear_arith)
            requires
                num == (100_000_000 * one) * one,
                den == g * one,
                g == 1_000_000_000,
                one > 0,
        ;
        lemma_nearest_monotone(f.h(), f.limit(), num, den, 1 * one, 10);
        lemma_nearest_monotone(f.h(), f.limit(), 1 * one, 10, num, den);
        lemma_encodes(h.over(c));
        assert(h.over(c).parts().mag == a.parts().mag);
    }
}

/// The change of the offset over the seconds passed fits.
proof fn lemma_quotient_fits(d: Double, nanos: u64)
    requires
        tame(d, 63),
        nanos > 100_000_000,
    ensures
        d.over(in_seconds(nanos)).finite(),
        fits(d.over(in_seconds(nanos)).value(), nanos as int, d.value()),
{
    reveal(Double::value);
    lemma_double_format();
    lemma_format(binary64());
    let f = binary64();
    let one = f.one();
    let t = in_seconds(nanos);
    let q = d.over(t);
    lemma_in_seconds(nanos);
    lemma_seconds_accurate(nanos);
    lemma_tenth_of_a_second(nanos);
    lemma_pow2_pos(1074);
    lemma_over_defined(d, t);
    lemma_encodes(q);
    lemma_encodes(d);
    let (m, k) = (f.units(d.parts()), f.units(t.parts()));
    let n = nanos as int;
    assert(n * one >= 100_000_000 * one) by (nonlinear_arith)
        requires
            n >= 100_000_000,
            one > 0,
    ;
    assert(16 * k >= one);
    let p = pow2(1141);
    lemma_power(67);
    lemma_pow2_adds(1137, 4);
    lemma2_to64();
    lemma_nearest_exact(f, power_bits(67));
    assert((m * one) * 1 <= p * k) by (nonlinear_arith)
        requires
            m <= pow2(1137),
            p == pow2(1137) * 16,
            16 * k >= one,
    ;
    lemma_nearest_monotone(f.h(), f.limit(), m * one, k, p, 1);
    lemma_nearest_relative(m * one, k);
    let x = f.units(q.parts());
    lemma_fits(x, k, m, nanos as nat, one);
    if m == 0 {
        assert(0 * one == 0);
        lemma_nearest_zero(f, k);
    } else if d.parts().neg {
        let (a, b, g) = (x * n, m * 1_000_000_000, 0int);
        assert((-(x as int)) * n == -(x * n)) by (nonlinear_arith);
        assert((-(m as int)) * 1_000_000_000 == -(m * 1_000_000_000));
    }
}

/// A sample more than a tenth of a second after the last one measures the change of
/// the offset over the whole time that passed, whatever it is, cut off at 500 us/s.
/// The average moves towards that rate by the share that is the new smoothing factor.
pub proof fn lemma_rate_of_change(s: Servo, prev: Double, t: u64, offset_us: Double, now: u64)
    requires
        s.last_offset_us == Some(prev),
        s.last_offset_time == Some(t),
        t < now,
        now - t > 100_000_000,
        tame(prev, 62),
        tame(offset_us, 62),
        s.jitter.window_size > 0,
    ensures
        ({
            let n = s.after(offset_us, now);
            let rate = measured_rate(n);
            &&& exists|q: int| #[trigger]
                fits(q, now - t, offset_us.minus(prev).value()) && rate.value() == cut_off(
                    q,
                    500 * binary64().one() as int,
                )
            &&& n.smoothed_rate_ppm == average(s.smoothed_rate_ppm, rate, n.jitter.last_alpha)
        }),
{
    let d = offset_us.minus(prev);
    let nanos = since(t, now);
    lemma_negated(prev);
    lemma_tame_plus(offset_us, prev.negated(), 62);
    lemma_tenth_of_a_second(nanos);
    lemma_quotient_fits(d, nanos);
    lemma_integer_exact(500);
    lemma_negated(drift_max());
    reveal(Double::value);
    let q = d.over(in_seconds(nanos));
    let rate = s.raw_rate(offset_us, now);
    assert(rate == q.clamped(drift_max().negated(), drift_max()));
    assert(fits(q.value(), now - t, d.value()));
    let n = s.after(offset_us, now);
    assert(measured_rate(n) == rate);
}

/// A sample within a tenth of a second after the last one measures nothing new: its
/// offset makes no difference.
pub proof fn lemma_rate_too_soon(s: Servo, prev: Double, t: u64, offset_us: Double, now: u64)
    requires
        s.last_offset_us == Some(prev),
        s.last_offset_time == Some(t),
        now <= t || now - t <= 100_000_000,
        s.jitter.window_size > 0,
    ensures
        measured_rate(s.after(offset_us, now)) == s.smoothed_rate_ppm,
{
    lemma_tenth_of_a_second(since(t, now));
    assert(measured_rate(s.after(offset_us, now)) == s.raw_rate(offset_us, now));
}

/// Offsets on a line have the slope of the line for their rate, whatever the distance
/// of the samples, here in whole seconds and microseconds.
pub proof fn lemma_rate_on_a_line(s: Servo, t: u64, start: int, slope: int, secs: int, now: u64)
    requires
        s.last_offset_us == Some(Double::integer(start)),
        s.last_offset_time == Some(t),
        secs >= 1,
        now == t + secs * 1_000_000_000,
        -500 <= slope <= 500,
        -0x10_0000_0000_0000 < start < 0x10_0000_0000_0000,
        -0x10_0000_0000_0000 < start + slope * secs < 0x10_0000_0000_0000,
        s.jitter.window_size > 0,
    ensures
        measured_rate(s.after(Double::integer(start + slope * secs), now)) == Double::integer(
            slope,
        ),
{
    reveal(Double::value);
    let offset = Double::integer(start + slope * secs);
    let nanos = since(t, now);
    assert(nanos == secs * 1_000_000_000);
    assert(secs < 0x8_0000_0000 && nanos as int / 1_000_000_000 == secs && nanos as int
        % 1_000_000_000 == 0);
    let n = Double::integer(secs);
    let z = Double::integer(0).over(Double::integer(1_000_000_000));
    lemma_integer_exact(secs);
    lemma_integer_exact(slope);
    lemma_integer_exact(500);
    lemma_integer_exact(0);
    assert(0 * 1_000_000_000 == 0);
    lemma_integers_over(0, 1_000_000_000);
    lemma_plus_nothing(n, z);
    assert(in_seconds(nanos) == n);
    lemma_integers_minus(start + slope * secs, start);
    assert(slope * secs == start + slope * secs - start);
    lemma_integers_over(slope, secs as nat);
    lemma_tenth_of_a_second(nanos);
    lemma_negated(drift_max());
    lemma_pow2_pos(1074);
    let one = binary64().one();
    assert(-(500 * one) <= slope * one <= 500 * one) by (nonlinear_arith)
        requires
            -500 <= slope <= 500,
            one > 0,
    ;
    assert(s.raw_rate(offset, now) == Double::integer(slope));
    assert(measured_rate(s.after(offset, now)) == s.raw_rate(offset, now));
}

/// A servo that has just been restarted or detached, or is new, has nothing to compare
/// an offset with: whatever the first offset is, it measures no drift, and it makes no
/// difference to anything but the next comparison.
pub proof fn lemma_first_offset(s: Servo, offset_us: Double, other_us: Double, now: u64)
    requires
        s.jitter.window_size > 0,
    ensures
        ({
            let (r, d) = (s.restarted(), s.detached());
            &&& measured_rate(r.after(offset_us, now)).value() == 0
            &&& measured_rate(d.after(offset_us, now)).value() == 0
            &&& measured_rate(Servo::initial().after(offset_us, now)).value() == 0
            &&& r.after(other_us, now) == Servo {
                last_offset_us: Some(other_us),
                ..r.after(offset_us, now)
            }
            &&& d.after(other_us, now) == Servo {
                last_offset_us: Some(other_us),
                ..d.after(offset_us, now)
            }
        }),
{
    lemma_zero();
    let (r, d, i) = (s.restarted(), s.detached(), Servo::initial());
    assert(measured_rate(r.after(offset_us, now)) == r.raw_rate(offset_us, now));
    assert(measured_rate(d.after(offset_us, now)) == d.raw_rate(offset_us, now));
    assert(measured_rate(i.after(offset_us, now)) == i.raw_rate(offset_us, now));
    assert(r.raw_rate(offset_us, now) == r.raw_rate(other_us, now));
    assert(r.rate(offset_us, now) == r.rate(other_us, now));
    assert(d.raw_rate(offset_us, now) == d.raw_rate(other_us, now));
    assert(d.rate(offset_us, now) == d.rate(other_us, now));
    assert(r.after(other_us, now) =~= Servo {
        last_offset_us: Some(other_us),
        ..r.after(offset_us, now)
    });
    assert(d.after(other_us, now) =~= Servo {
        last_offset_us: Some(other_us),
        ..d.after(offset_us, now)
    });
}

/// After a change of the master the clock goes on at the frequency that was learned,
/// whatever was measured against the old master and whatever the first offset to the
/// new one is: no rate, no lock, and the baseline alone for a correction.
pub proof fn lemma_fresh_start(
    s: Servo,
    old_offset: Option<Double>,
    old_time: Option<u64>,
    offset_us: Double,
    now: u64,
)
    requires
        s.sound(),
    ensures
        ({
            let r = s.restarted();
            let n = r.after(offset_us, now);
            &&& (Servo { last_offset_us: old_offset, last_offset_time: old_time, ..s }).restarted()
                == r
            &&& n.smoothed_rate_ppm.value() == 0
            &&& n.drift_baseline_ppm.value() == s.drift_baseline_ppm.value()
            &&& n.last_adj_ppm.value() == s.drift_baseline_ppm.value()
            &&& r.last_adj_ppm == s.last_adj_ppm && r.applied_freq_ppm == s.applied_freq_ppm
            &&& !r.is_locked && r.lock_stable_count == 0 && !r.in_production_mode
            &&& !r.nano.active && r.nano.sustain_count == 0
            &&& !n.is_locked && !n.nano.active && n.lock_stable_count == 1
        }),
{
    reveal(Double::value);
    lemma_double_format();
    let r = s.restarted();
    let z = Double::zero();
    let n = r.after(offset_us, now);
    lemma_zero();
    lemma_restarted_sound(s);
    let a = r.weight(offset_us, now);
    assert(r.raw_rate(offset_us, now) == z);
    lemma_first_weight(r, offset_us, now);
    lemma_weights(a);
    let c = Double::integer(1).minus(a);
    lemma_nothing_times(z, c);
    lemma_nothing_times(z, a);
    let rate = r.rate(offset_us, now);
    lemma_plus_nothing(z.times(c), z.times(a));
    assert(rate.value() == 0);
    lemma_nothing(rate);
    lemma_integer_exact(5);
    lemma_integer_exact(500);
    lemma_pow2_pos(1074);
    lemma_absolute(rate);
    let phase = r.phase_after(offset_us, now);
    lemma_gains(phase);
    let e = Servo::effective_rate(phase, rate);
    lemma_negated(e);
    lemma_nothing(e);
    lemma_nothing(e.negated());
    lemma_nothing_times(e.negated(), phase.i_gain());
    lemma_nothing_times(e.negated(), phase.p_gain());
    lemma_negated(phase.p_max());
    let m = drift_max();
    lemma_negated(m);
    lemma_between_finite(m.negated(), s.drift_baseline_ppm, m);
    lemma_plus_defined(s.drift_baseline_ppm, e.negated().times(phase.i_gain()));
    lemma_plus_nothing(s.drift_baseline_ppm, e.negated().times(phase.i_gain()));
    let b = r.baseline_after(phase, rate);
    assert(b.value() == s.drift_baseline_ppm.value());
    let p = Servo::p_term(phase, rate);
    assert(p.value() == 0);
    lemma_nothing(p);
    lemma_between_finite(m.negated(), b, m);
    lemma_plus_nothing(b, p);
}

/// A finite number without value is a zero.
proof fn lemma_nothing(x: Double)
    requires
        x.value() == 0,
    ensures
        x.parts().mag == 0,
        x.finite(),
{
    reveal(Double::value);
    lemma_double_format();
    if x.parts().mag > 0 {
        lemma_magnitude_increases(binary64().h(), 0, x.parts().mag as nat);
    }
}

/// The weight of a rate that is not measured.
proof fn lemma_first_weight(s: Servo, offset_us: Double, now: u64)
    requires
        s.sound(),
        s.last_offset_us is None,
    ensures
        Double::ratio(1, 10).at_most(s.weight(offset_us, now)),
        s.weight(offset_us, now).at_most(Double::ratio(3, 10)),
{
    lemma_zero();
    assert(s.raw_rate(offset_us, now) == s.raw_rate(Double::zero(), now));
    lemma_weight(s, Double::zero(), now);
}

/// A number is a share of another one, up to one part in `2^50` and two of the smallest
/// numbers.
pub open spec fn is_share(part: int, of: int, n: int, d: int) -> bool {
    0x4_0000_0000_0000 * magnitude_of_int(part * d - of * n) <= magnitude_of_int(of) * n
        + 0x8_0000_0000_0000 * d
}

/// The arithmetic of a share.
proof fn lemma_share_units(v: nat, x: nat, g: nat, n: nat, d: nat, one: nat)
    requires
        0 < n <= 1000,
        0 < d <= 1000,
        one >= 0x1000_0000_0000_0000_0000_0000_0000,
        0x20_0000_0000_0000 * magnitude_of_int(g * d - n * one) <= n * one + 0x10_0000_0000_0000
            * d,
        0x20_0000_0000_0000 * magnitude_of_int(v * one - x * g) <= x * g + 0x10_0000_0000_0000
            * one,
    ensures
        is_share(v as int, x as int, n as int, d as int),
{
    let a = g * d - n * one;
    let b = v * one - x * g;
    let (ma, mb) = (magnitude_of_int(a), magnitude_of_int(b));
    let (p, q) = ((v * d) * one, (x * n) * one);
    assert(p - q == d * b + x * a) by (nonlinear_arith)
        requires
            p == (v * d) * one,
            q == (x * n) * one,
            a == g * d - n * one,
            b == v * one - x * g,
    ;
    let (xa, db) = (x * ma, d * mb);
    assert(magnitude_of_int(x * a) == xa && magnitude_of_int(d * b) == db) by (nonlinear_arith)
        requires
            xa == x * ma,
            db == d * mb,
            ma == magnitude_of_int(a),
            mb == magnitude_of_int(b),
    ;
    // The gain is off by little: its denominators are small against one.
    assert(0x10_0000_0000_0000 * d <= n * one) by (nonlinear_arith)
        requires
            0 < n,
            d <= 1000,
            one >= 0x1000_0000_0000_0000_0000_0000_0000,
    ;
    assert(0x20_0000_0000_0000 * xa <= 2 * q) by (nonlinear_arith)
        requires
            0x20_0000_0000_0000 * ma <= 2 * (n * one),
            xa == x * ma,
            q == (x * n) * one,
    ;
    let xgd = (x * g) * d;
    assert(xgd == q + x * a) by (nonlinear_arith)
        requires
            xgd == (x * g) * d,
            q == (x * n) * one,
            a == g * d - n * one,
    ;
    assert(0x20_0000_0000_0000 * db <= xgd + 0x10_0000_0000_0000 * (d * one)) by (nonlinear_arith)
        requires
            0x20_0000_0000_0000 * mb <= x * g + 0x10_0000_0000_0000 * one,
            db == d * mb,
            xgd == (x * g) * d,
            d > 0,
    ;
    let k = d * one;
    assert(q >= 0 && k >= 0) by (nonlinear_arith)
        requires
            q == (x * n) * one,
            k == d * one,
    ;
    assert(0x4_0000_0000_0000 * magnitude_of_int(p - q) <= q + 0x8_0000_0000_0000 * k);
    let diff = v * d - x * n;
    let m = magnitude_of_int(diff);
    assert(p - q == diff * one) by (nonlinear_arith)
        requires
            p == (v * d) * one,
            q == (x * n) * one,
            diff == v * d - x * n,
    ;
    assert(magnitude_of_int(diff * one) == m * one) by (nonlinear_arith)
        requires
            m == magnitude_of_int(diff),
            one > 0,
    ;
    let r = x * n + 0x8_0000_0000_0000 * d;
    assert((0x4_0000_0000_0000 * m) * one <= r * one) by (nonlinear_arith)
        requires
            0x4_0000_0000_0000 * (m * one) <= q + 0x8_0000_0000_0000 * k,
            q == (x * n) * one,
            k == d * one,
            r == x * n + 0x8_0000_0000_0000 * d,
    ;
    assert(0x4_0000_0000_0000 * m <= r) by (nonlinear_arith)
        requires
            (0x4_0000_0000_0000 * m) * one <= r * one,
            one > 0,
    ;
}

/// A number times a fraction is that share of it.
pub proof fn lemma_share(x: Double, n: nat, d: nat)
    requires
        tame(x, 62),
        0 < n <= 1000,
        0 < d <= 1000,
    ensures
        x.times(Double::ratio(n as int, d)).finite(),
        is_share(
            x.times(Double::ratio(n as int, d)).value(),
            x.value(),
            n as int,
            d as int,
        ),
{
    reveal(Double::value);
    reveal(Double::ratio);
    lemma_double_format();
    let f = binary64();
    let one = f.one();
    let gain = Double::ratio(n as int, d);
    lemma_ratio(n as int, d);
    lemma_ratio_finite(n as int, d);
    lemma_ratio_order(n, d, 1000, 1);
    lemma_integer_exact(1000);
    lemma_units_of_one();
    lemma2_to64();
    lemma_pow2_adds(1074, 10);
    lemma_encodes(gain);
    lemma_nearest_encodes(false, n * one, d);
    lemma_parts_of(f.quotient_of_integers(false, n, d));
    assert(gain.parts().mag == f.nearest(n * one, d));
    lemma_nearest_relative(n * one, d);
    assert(tame(gain, 10));
    lemma_tame_times(x, gain, 62, 10);
    lemma_times_defined(x, gain);
    let v = x.times(gain);
    lemma_encodes(v);
    let (m, g) = (f.units(x.parts()), f.units(gain.parts()));
    lemma_nearest_relative(m * g, one);
    lemma_share_units(f.units(v.parts()), m, g, n, d, one);
    if m == 0 {
        assert(0 * g == 0);
        lemma_nearest_zero(f, one);
    } else if x.parts().neg {
        let (a, b) = (f.units(v.parts()) as int, m as int);
        assert((-a) * d == -(a * d) && (-b) * n == -(b * n)) by (nonlinear_arith);
    }
}

/// A baseline and a correction answer a rate: the share of the rate that is learned
/// goes into the baseline, and the share that is answered at once, up to a limit, into
/// the correction, both against the rate. Both are cut off at 500.
pub open spec fn answers_rate(
    before: int,
    rate: int,
    learned: (int, int),
    at_once: (int, int),
    limit: int,
    baseline: int,
    correction: int,
) -> bool {
    let one = binary64().one() as int;
    exists|i: int, b: int, p: int, c: int|
        #![trigger is_sum(b, before, i), is_sum(c, baseline, cut_off(p, limit * one))]
        is_share(i, -rate, learned.0, learned.1) && is_sum(b, before, i) && baseline == cut_off(
            b,
            500 * one,
        ) && is_share(p, -rate, at_once.0, at_once.1) && is_sum(
            c,
            baseline,
            cut_off(p, limit * one),
        ) && correction == cut_off(c, 500 * one)
}

/// How a rate is answered. Before the rate is small, four fifths of it are answered at
/// once, up to 200 ppm; from then on a tenth, up to 100; in NANO mode a hundredth, up to
/// 10. A twentieth of it is learned, in NANO mode a two-hundredth. In NANO mode a rate
/// below a tenth of a us/s is not answered at all.
pub proof fn lemma_answer_to_rate(s: Servo, offset_us: Double, now: u64)
    requires
        s.sound(),
        offset_us.finite(),
    ensures
        ({
            let n = s.after(offset_us, now);
            let rate = n.smoothed_rate_ppm.value();
            let noise = n.nano.active && magnitude_of_int(rate) < Double::ratio(1, 10).value();
            let (learned, at_once, limit) = if n.nano.active {
                ((5int, 1000int), (1int, 100int), 10int)
            } else if n.in_production_mode {
                ((5int, 100int), (1int, 10int), 100int)
            } else {
                ((5int, 100int), (8int, 10int), 200int)
            };
            &&& answers_rate(
                s.drift_baseline_ppm.value(),
                if noise {
                    0
                } else {
                    rate
                },
                learned,
                at_once,
                limit,
                n.drift_baseline_ppm.value(),
                n.last_adj_ppm.value(),
            )
            &&& n.applied_freq_ppm == n.last_adj_ppm
        }),
{
    reveal(Double::value);
    lemma_double_format();
    let n = s.after(offset_us, now);
    let rate = n.smoothed_rate_ppm;
    let phase = s.phase_after(offset_us, now);
    let one = binary64().one() as int;
    let m = drift_max();
    lemma_correction_bounded(s, offset_us, now);
    lemma_drift_tame(rate);
    lemma_drift_tame(s.drift_baseline_ppm);
    lemma_drift_tame(n.drift_baseline_ppm);
    lemma_zero();
    lemma_ratio(1, 10);
    lemma_absolute(rate);
    let e = Servo::effective_rate(phase, rate);
    lemma_negated(e);
    assert(tame(e, 9) && tame(e.negated(), 9)) by {
        lemma_pow2_pos(1083);
    }
    lemma_tame_wider(e.negated(), 9, 62);
    lemma_integer_exact(500);
    lemma_integer_exact(200);
    lemma_integer_exact(100);
    lemma_integer_exact(10);
    lemma_negated(m);
    lemma_negated(phase.p_max());
    lemma_gains(phase);
    lemma_share(e.negated(), 5, 100);
    lemma_share(e.negated(), 5, 1000);
    lemma_share(e.negated(), 8, 10);
    lemma_share(e.negated(), 1, 10);
    lemma_share(e.negated(), 1, 100);
    let i = e.negated().times(phase.i_gain());
    let b = s.drift_baseline_ppm.plus(i);
    let q = e.negated().times(phase.p_gain());
    let p = Servo::p_term(phase, rate);
    let c = n.drift_baseline_ppm.plus(p);
    lemma_gain_tame(e.negated(), phase);
    lemma_tame_plus(s.drift_baseline_ppm, i, 9);
    lemma_sum(s.drift_baseline_ppm, i);
    lemma_between_finite(phase.p_max().negated(), p, phase.p_max());
    assert(tame(p, 9)) by {
        lemma2_to64();
        lemma_pow2_adds(1074, 9);
        lemma_pow2_pos(1074);
    }
    lemma_tame_plus(n.drift_baseline_ppm, p, 9);
    lemma_sum(n.drift_baseline_ppm, p);
    let limit = if n.nano.active {
        10int
    } else if n.in_production_mode {
        100
    } else {
        200
    };
    assert(p.value() == cut_off(q.value(), limit * one));
    assert(is_sum(b.value(), s.drift_baseline_ppm.value(), i.value()));
    assert(is_sum(
        c.value(),
        n.drift_baseline_ppm.value(),
        cut_off(q.value(), limit * one),
    ));
}

/// A share that is learned of a small number is small.
proof fn lemma_gain_tame(x: Double, phase: Phase)
    requires
        tame(x, 9),
    ensures
        tame(x.times(phase.i_gain()), 9),
{
    lemma_ratio(5, 100);
    lemma_ratio(5, 1000);
    lemma_ratio_finite(5, 100);
    lemma_ratio_finite(5, 1000);
    lemma_ratio_order(5, 100, 1, 1);
    lemma_ratio_order(5, 1000, 1, 1);
    lemma_integer_exact(1);
    lemma_tame_times(x, phase.i_gain(), 9, 0);
}

/// What the modes become is told by the new average alone, and by what they were.
/// Below 5 us/s a sample is stable, and the fifth stable one more than unstable ones
/// locks; the lock is lost when unstable ones have used them up. Below 5 us/s the
/// gains are gentle, above 20 they are not. While locked, fifteen samples in a row that
/// are not above 1 us/s, each below half of one, make NANO mode; five in a row above
/// 1 us/s end it, and so does the loss of lock.
pub proof fn lemma_modes_of_rate(s: Servo, offset_us: Double, now: u64)
    requires
        s.sound(),
        s.has_headroom(),
        offset_us.finite(),
    ensures
        ({
            let n = s.after(offset_us, now);
            let one = binary64().one() as int;
            let a = magnitude_of_int(n.smoothed_rate_ppm.value());
            let (k, l) = (s.lock_stable_count, s.nano);
            &&& a < 5 * one ==> n.lock_stable_count == k + 1 && n.in_production_mode && (
            n.is_locked <==> s.is_locked || k + 1 >= 5)
            &&& a >= 5 * one ==> n.lock_stable_count == (if k > 0 {
                k - 1
            } else {
                0
            }) && (n.is_locked <==> s.is_locked && k >= 2)
            &&& 5 * one <= a <= 20 * one ==> n.in_production_mode == s.in_production_mode
            &&& a > 20 * one ==> !n.in_production_mode
            &&& !s.is_locked ==> !n.nano.active && n.nano.sustain_count == 0 && n.nano.exit_count
                == 0
            &&& s.is_locked && 2 * a < one ==> n.nano.sustain_count == l.sustain_count + 1
                && n.nano.exit_count == 0 && (n.nano.active <==> l.active || l.sustain_count + 1
                >= 15)
            &&& s.is_locked && one <= 2 * a && a <= one ==> n.nano.active == l.active
                && n.nano.sustain_count == l.sustain_count && n.nano.exit_count == 0
            &&& s.is_locked && a > one ==> n.nano.sustain_count == 0 && (n.nano.active <==> l.active
                && l.exit_count + 1 < 5)
            &&& s.is_locked && a > one && (n.nano.active || !l.active) ==> n.nano.exit_count
                == l.exit_count + 1
        }),
{
    reveal(Double::value);
    lemma_double_format();
    let n = s.after(offset_us, now);
    lemma_correction_bounded(s, offset_us, now);
    lemma_drift_tame(n.smoothed_rate_ppm);
    lemma_absolute(n.smoothed_rate_ppm);
    lemma_integer_exact(5);
    lemma_integer_exact(20);
    lemma_integer_exact(1);
    lemma_half_is_half();
}

/// Five tenths are one half.
proof fn lemma_half_is_half()
    ensures
        2 * Double::ratio(5, 10).value() == binary64().one(),
        !Double::ratio(5, 10).nan(),
{
    reveal(Double::value);
    lemma_double_format();
    let f = binary64();
    let one = f.one();
    lemma_ratio(5, 10);
    lemma_ratio(1, 2);
    lemma_ratio_order(5, 10, 1, 2);
    lemma_ratio_order(1, 2, 5, 10);
    lemma_binary_fraction(1);
    lemma2_to64();
    lemma_pow2_adds(1073, 1);
}

/// Every sample that is applied asks for the factor of the correction that the servo
/// then holds; it remembers the offset and the time, measures and smooths the rate, and
/// goes on from there as the laws above say.
pub proof fn lemma_apply(offset_us: Double, now: u64)
    ensures
        forall|m: &mut RateServo, factor: Double| #[trigger]
            call_ensures(RateServo::apply, (m, offset_us, now), factor) && (*m).wf() && (
            *m)@.has_headroom() ==> {
                let n = (*final(m))@;
                &&& factor == Double::integer(1).plus(
                    n.last_adj_ppm.over(Double::integer(1_000_000)),
                )
                &&& n.last_offset_us == Some(offset_us) && n.last_offset_time == Some(now)
                &&& n == (*m)@.after(offset_us, now)
            },
{
}

/// Every restart forgets what was measured against the old master, and every step what
/// was measured before it; what was learned of the local clock stays.
pub proof fn lemma_restart()
    ensures
        forall|m: &mut RateServo, r: ()| #[trigger]
            call_ensures(RateServo::restart, (m,), r) && (*m).wf() ==> {
                let (s, n) = ((*m)@, (*final(m))@);
                &&& n.last_offset_us is None && n.last_offset_time is None
                &&& n.smoothed_rate_ppm.value() == 0 && !n.is_locked && n.lock_stable_count == 0
                &&& !n.in_production_mode && !n.nano.active && n.nano.sustain_count == 0
                &&& n.nano.exit_count == s.nano.exit_count
                &&& n.drift_baseline_ppm == s.drift_baseline_ppm
                &&& n.applied_freq_ppm == s.applied_freq_ppm && n.last_adj_ppm == s.last_adj_ppm
                &&& n.jitter == s.jitter
                &&& n == s.restarted()
            },
        forall|m: &mut RateServo, r: ()| #[trigger]
            call_ensures(RateServo::detach, (m,), r) && (*m).wf() ==> (*final(m))@ == (Servo {
                last_offset_us: None,
                last_offset_time: None,
                ..(*m)@
            }),
{
    lemma_zero();
}

/// The last of some items, up to a number.
pub open spec fn latest(s: Seq<Double>, n: nat) -> Seq<Double> {
    if s.len() <= n {
        s
    } else {
        s.skip(s.len() - n)
    }
}

/// A window that slides holds the latest samples, oldest first.
pub proof fn lemma_latest(seen: Seq<Double>, sample: Double, size: nat)
    requires
        size > 0,
    ensures
        slid(latest(seen, size), sample, size) == latest(seen.push(sample), size),
{
    assert(slid(latest(seen, size), sample, size) =~= latest(seen.push(sample), size));
}

/// A new servo weighs a rate by the jitter of the latest thirty: with 0.3 while there are
/// less than fifteen, or while their standard deviation is at most 2 us/s, with 0.1 from
/// 8 us/s on.
pub proof fn lemma_weight_of_jitter(rates: Seq<Double>)
    ensures
        ({
            let e = Servo::initial().jitter.fed(rates);
            let w = latest(rates, 30);
            let j = standard_deviation(w);
            &&& e.window == w
            &&& rates.len() < 15 || j.at_most(Double::integer(2)) ==> e.last_alpha == Double::ratio(
                3,
                10,
            )
            &&& rates.len() >= 15 && Double::integer(8).at_most(j) ==> e.last_alpha
                == Double::ratio(1, 10)
            &&& e == (Jitter {
                window: w,
                last_jitter: e.last_jitter,
                last_alpha: e.last_alpha,
                ..Servo::initial().jitter
            })
            &&& rates.len() >= 15 ==> e.last_jitter == j
        }),
    decreases rates.len(),
{
    reveal(Double::value);
    lemma_integer_exact(2);
    lemma_integer_exact(8);
    lemma_pow2_pos(1074);
    if rates.len() == 0 {
        assert(latest(rates, 30) =~= Seq::empty());
    } else {
        let (before, last) = (rates.drop_last(), rates.last());
        lemma_weight_of_jitter(before);
        lemma_latest(before, last, 30);
        assert(before.push(last) =~= rates);
    }
}

/// Rates that go to and fro by a whole number of us/s, as often to the one side as to
/// the other, have that for their standard deviation.
pub proof fn lemma_to_and_fro(rates: Seq<Double>, r: int, ups: nat)
    requires
        0 < r <= 1000,
        0 < ups <= 1000,
        rates.len() == 2 * ups,
        forall|i: int|
            0 <= i < rates.len() ==> #[trigger] rates[i] == Double::integer(
                if i % 2 == 0 {
                    r
                } else {
                    -r
                },
            ),
    ensures
        standard_deviation(rates).value() == r * binary64().one(),
{
    let n = rates.len() as int;
    lemma_alternating_total(rates, r);
    assert(0 * n == 0);
    lemma_integers_over(0, n as nat);
    let z = Double::integer(0);
    assert(mean(rates) == z);
    let s = squares(rates, z);
    assert(0 < r * r <= 1_000_000) by (nonlinear_arith)
        requires
            0 < r <= 1000,
    ;
    assert forall|i: int| 0 <= i < s.len() implies #[trigger] s[i] == Double::integer(r * r) by {
        let v = if i % 2 == 0 {
            r
        } else {
            -r
        };
        lemma_integers_minus(v, 0);
        lemma_integer_square(v);
        assert(v * v == r * r) by (nonlinear_arith)
            requires
                v == r || v == -r,
        ;
    }
    assert(0 < (r * r) * n <= 2_000_000_000) by (nonlinear_arith)
        requires
            0 < r * r <= 1_000_000,
            0 < n <= 2000,
    ;
    lemma_total_of_equals(s, r * r);
    lemma_integers_over(r * r, n as nat);
    lemma_root_of_square(r as nat);
}

/// Numbers that go to and fro add up to nothing, or to the first one.
proof fn lemma_alternating_total(rates: Seq<Double>, r: int)
    requires
        0 < r <= 1000,
        forall|i: int|
            0 <= i < rates.len() ==> #[trigger] rates[i] == Double::integer(
                if i % 2 == 0 {
                    r
                } else {
                    -r
                },
            ),
    ensures
        total(rates) == Double::integer(
            if rates.len() % 2 == 0 {
                0
            } else {
                r
            },
        ),
    decreases rates.len(),
{
    if rates.len() == 0 {
        lemma_no_integer();
    } else {
        let before = rates.drop_last();
        assert forall|i: int| 0 <= i < before.len() implies #[trigger] before[i] == Double::integer(
            if i % 2 == 0 {
                r
            } else {
                -r
            },
        ) by {
            assert(before[i] == rates[i]);
        }
        lemma_alternating_total(before, r);
        assert(rates.last() == rates[rates.len() - 1]);
        lemma_integers_plus(0, r);
        lemma_integers_plus(r, -r);
    }
}

/// The square of a small integer.
proof fn lemma_integer_square(v: int)
    requires
        -1000 <= v <= 1000,
    ensures
        Double::integer(v).times(Double::integer(v)) == Double::integer(v * v),
{
    reveal(Double::value);
    reveal(Double::ratio);
    lemma_double_format();
    let f = binary64();
    let one = f.one();
    let a = magnitude_of_int(v);
    lemma_integer_exact(v);
    lemma_pow2_pos(1074);
    assert(0 <= v * v <= 1_000_000) by (nonlinear_arith)
        requires
            -1000 <= v <= 1000,
    ;
    let x = Double::integer(v);
    lemma_times_defined(x, x);
    lemma_encodes(x.times(x));
    lemma_integer_exact(v * v);
    lemma_encodes(Double::integer(v * v));
    let num = (a * one) * (a * one);
    assert(num * 1 == ((v * v) as nat * one) * one) by (nonlinear_arith)
        requires
            num == (a * one) * (a * one),
            a == v || a == -v,
    ;
    assert(f.units(x.parts()) == a * one) by (nonlinear_arith)
        requires
            f.units(x.parts()) == if v < 0 {
                -(v * one)
            } else {
                v * one
            },
            a == if v < 0 {
                -v
            } else {
                v
            },
    ;
    lemma_nearest_monotone(f.h(), f.limit(), num, one, (v * v) as nat * one, 1);
    lemma_nearest_monotone(f.h(), f.limit(), (v * v) as nat * one, 1, num, one);
    lemma_nearest_encodes(false, (v * v) as nat * one, 1);
    lemma_parts_of(f.quotient_of_integers(false, (v * v) as nat, 1));
}

/// The square root of a small square.
proof fn lemma_root_of_square(r: nat)
    requires
        0 < r <= 1000,
    ensures
        Double::integer((r * r) as int).root().value() == r * binary64().one(),
{
    reveal(Double::value);
    reveal(Double::root);
    lemma_double_format();
    let f = binary64();
    let h = f.h();
    let one = f.one();
    lemma_pow2_pos(1074);
    assert(0 < r * r <= 1_000_000) by (nonlinear_arith)
        requires
            0 < r <= 1000,
    ;
    lemma_integer_exact(r as int);
    lemma_integer_exact((r * r) as int);
    let x = Double::integer((r * r) as int);
    let b = Double::integer(r as int).parts().mag as nat;
    let n = f.units(x.parts()) * one;
    let m = r * one;
    assert(magnitude(h, b) == m);
    assert(n == m * m) by (nonlinear_arith)
        requires
            n == ((r * r) * one) * one,
            m == r * one,
    ;
    lemma_magnitude_increases(h, b, b + 1);
    let k = magnitude(h, b + 1);
    assert(m * m < k * k && 4 * n < (m + k) * (m + k)) by (nonlinear_arith)
        requires
            n == m * m,
            m < k,
    ;
    assert(is_root_floor(h, n, b));
    let g = choose|g: nat| is_root_floor(h, n, g);
    lemma_root_floor_unique(h, n, b, g);
    assert(nearest_root(h, n) == b);
    lemma_parts_of(f.root(x.parts()));
}

/// Between 2 and 8 us/s of jitter the weight falls evenly from 0.3 to 0.1: thirty times
/// the weight and the jitter make eleven, up to one part in `2^44`.
pub proof fn lemma_weight_between(e: Jitter, jitter: Double)
    requires
        usual(e),
        Double::integer(2).below(jitter),
        jitter.below(Double::integer(8)),
    ensures
        ({
            let one = binary64().one() as int;
            0x1000_0000_0000 * magnitude_of_int(
                30 * e.alpha(jitter).value() + jitter.value() - 11 * one,
            ) <= one
        }),
{
    lemma_double_format();
    let f = binary64();
    let one = f.one() as int;
    let (n, m) = (Double::ratio(3, 10), Double::ratio(1, 10));
    lemma_alpha_between(jitter, e);
    lemma_tenths_difference();
    lemma_integer_exact(2);
    lemma_integer_exact(8);
    lemma_integer_exact(6);
    lemma_integers_minus(8, 2);
    let x = jitter.minus(Double::integer(2));
    let six = Double::integer(6);
    let t = x.over(six);
    let d = n.minus(m);
    let y = t.times(d);
    lemma_difference(jitter, Double::integer(2));
    lemma_quotient(x, 6);
    lemma_tenth_values();
    lemma_product(t, d);
    lemma_between_finite(m, n.minus(y), n);
    lemma_difference(n, y);
    lemma_units_of_one();
    let (jv, xv, tv, dv, yv, av) = (
        jitter.value(),
        x.value(),
        t.value(),
        d.value(),
        y.value(),
        n.minus(y).value(),
    );
    assert(2 * one < jv < 8 * one) by {
        reveal(Double::value);
    }
    // t lies between nothing and a little more than one.
    assert(0 <= tv && tv <= 2 * one && 0 <= yv) by {
        reveal(Double::value);
    }
    let p = pow2(1018) as int;
    assert(5 * dv == one - 6 * p && one == 0x100_0000_0000_0000 * p);
    let z = tv * dv;
    assert(5 * z == tv * one - 6 * (tv * p)) by (nonlinear_arith)
        requires
            z == tv * dv,
            5 * dv == one - 6 * p,
    ;
    assert(0 <= tv * p <= 2 * (one * p) && 0 <= z && tv * one >= 0) by (nonlinear_arith)
        requires
            0 <= tv <= 2 * one,
            p > 0,
            one > 0,
            z == tv * dv,
            dv >= 0,
    ;
    assert(one * p * 0x100_0000_0000_0000 == one * one) by (nonlinear_arith)
        requires
            one == 0x100_0000_0000_0000 * p,
    ;
    // y is a fifth of t.
    let gap = 5 * yv - tv;
    assert(gap * one == 5 * (yv * one - z) - 6 * (tv * p)) by (nonlinear_arith)
        requires
            gap == 5 * yv - tv,
            5 * z == tv * one - 6 * (tv * p),
    ;
    let k = magnitude_of_int(gap);
    assert(tv * one <= 2 * (one * one)) by (nonlinear_arith)
        requires
            tv <= 2 * one,
            one > 0,
    ;
    assert(0x100_0000_0000_0000 * one <= one * one) by (nonlinear_arith)
        requires
            one >= 0x100_0000_0000_0000,
    ;
    assert(magnitude_of_int(gap * one) == k * one) by (nonlinear_arith)
        requires
            k == magnitude_of_int(gap),
            one > 0,
    ;
    assert(0x2_0000_0000_0000 * (k * one) <= one * one);
    assert(0x2_0000_0000_0000 * k <= one) by (nonlinear_arith)
        requires
            0x2_0000_0000_0000 * (k * one) <= one * one,
            one > 0,
    ;
    assert(magnitude_of_int(10 * n.value() - 3 * one) <= 8 * p);
    assert(e.alpha(jitter).value() == av);
}

/// The difference of 0.3 and 0.1, and 0.3 itself.
proof fn lemma_tenth_values()
    ensures
        ({
            let p = pow2(1018) as int;
            let d = Double::ratio(3, 10).minus(Double::ratio(1, 10));
            &&& p > 0
            &&& binary64().one() == 0x100_0000_0000_0000 * p
            &&& Double::ratio(3, 10).value() == 0x4C_CCCC_CCCC_CCCC * p
            &&& d.value() == 0x33_3333_3333_3332 * p
        }),
{
    reveal(Double::value);
    lemma_double_format();
    let (n, s) = (Double::ratio(3, 10), Double::ratio(1, 10));
    let p = pow2(1018);
    lemma_tenths();
    lemma_at(1020, q_three_tenths());
    lemma_at(1018, q_one_tenth());
    lemma_at(1019, 0x19_9999_9999_9999);
    lemma2_to64();
    lemma2_to64_rest();
    lemma_pow2_pos(1018);
    lemma_pow2_adds(1018, 1);
    lemma_pow2_adds(1018, 2);
    lemma_pow2_adds(1018, 56);
    lemma_ratio(3, 10);
    lemma_ratio(1, 10);
    lemma_ratio_finite(3, 10);
    lemma_ratio_finite(1, 10);
    lemma_negated(s);
    lemma_plus_value(n, s.negated());
    assert(n.value() == 0x4C_CCCC_CCCC_CCCC * p);
    assert(s.value() == 0x19_9999_9999_999A * p);
    assert(n.value() + s.negated().value() == 0x33_3333_3333_3332 * p);
    assert(0x19_9999_9999_9999 * pow2(1019) == 0x33_3333_3333_3332 * p);
}

/// Every rate that is given to an estimator is kept among the latest ones, and answered
/// with the weight that they make.
pub proof fn lemma_add_sample(rate: Double)
    ensures
        forall|e: &mut JitterEstimator, r: Double| #[trigger]
            call_ensures(JitterEstimator::add_sample, (e, rate), r) && (*e).wf() ==> {
                let (b, a) = ((*e)@, (*final(e))@);
                let w = latest(b.window.push(rate), b.window_size as nat);
                let j = standard_deviation(w);
                &&& b.window_size > 0 ==> a.window == w
                &&& r == a.last_alpha
                &&& b.window_size > 0 && w.len() < b.min_samples ==> r == b.alpha_normal
                &&& b.window_size > 0 && w.len() >= b.min_samples ==> a.last_jitter == j && (j.at_most(
                    b.jitter_low,
                ) ==> r == b.alpha_normal) && (!j.at_most(b.jitter_low) && b.jitter_high.at_most(j)
                    ==> r == b.alpha_smooth) && r == b.alpha(j)
                &&& a == b.after(rate)
            },
        forall|e: JitterEstimator| #[trigger]
            call_ensures(JitterEstimator::new, (), e) ==> {
                let a = e@;
                &&& a.window.len() == 0 && a.window_size == 30 && a.min_samples == 15
                &&& a.jitter_low == Double::integer(2) && a.jitter_high == Double::integer(8)
                &&& a.alpha_normal == Double::ratio(3, 10) && a.alpha_smooth == Double::ratio(1, 10)
            },
        forall|s: RateServo| #[trigger]
            call_ensures(RateServo::new, (), s) ==> {
                let a = s@;
                &&& a.drift_baseline_ppm.value() == 0 && a.smoothed_rate_ppm.value() == 0
                &&& a.last_adj_ppm.value() == 0 && a.applied_freq_ppm.value() == 0
                &&& !a.is_locked && a.lock_stable_count == 0 && !a.in_production_mode
                &&& !a.nano.active && a.nano.sustain_count == 0 && a.nano.exit_count == 0
                &&& a.last_offset_us is None && a.last_offset_time is None
                &&& a == Servo::initial()
            },
{
    lemma_zero();
    assert forall|e: &mut JitterEstimator, r: Double| #[trigger]
        call_ensures(JitterEstimator::add_sample, (e, rate), r) && (*e).wf() && (
    *e)@.window_size > 0 implies (*final(e))@.window == latest(
        (*e)@.window.push(rate),
        (*e)@.window_size as nat,
    ) by {
        let b = (*e)@;
        lemma_latest(b.window, rate, b.window_size as nat);
        assert(latest(b.window, b.window_size as nat) == b.window);
    }
}

/// The rate that a sample measured joins the latest ones, and the weight that it gets is
/// the one that their standard deviation makes, the normal one while they are few.
pub proof fn lemma_weighed(s: Servo, offset_us: Double, now: u64)
    requires
        s.wf(),
        s.jitter.window_size > 0,
    ensures
        ({
            let n = s.after(offset_us, now);
            let w = latest(
                s.jitter.window.push(measured_rate(n)),
                s.jitter.window_size as nat,
            );
            let j = standard_deviation(w);
            &&& n.jitter.window == w
            &&& w.len() < s.jitter.min_samples ==> n.jitter.last_alpha == s.jitter.alpha_normal
            &&& w.len() >= s.jitter.min_samples ==> n.jitter.last_jitter == j
                && n.jitter.last_alpha == s.jitter.alpha(j)
            &&& j.at_most(s.jitter.jitter_low) ==> n.jitter.last_alpha == s.jitter.alpha_normal
            &&& n.jitter == (Jitter {
                window: w,
                last_jitter: n.jitter.last_jitter,
                last_alpha: n.jitter.last_alpha,
                ..s.jitter
            })
        }),
{
    let e = s.jitter;
    let rate = s.raw_rate(offset_us, now);
    lemma_latest(e.window, rate, e.window_size as nat);
    assert(latest(e.window, e.window_size as nat) == e.window);
    let n = s.after(offset_us, now);
    assert(n.jitter.window == e.window_after(rate));
    assert(measured_rate(n) == rate);
}

} // verus!
