//! Proportional-integral servo from phase offset to frequency adjustment.
use crate::config::ServoConfig;
use crate::ieee::arith::{lemma_nearest_zero, magnitude_of_int, Parts};
use crate::ieee::double::{lemma_double_format, Double};
use crate::ieee::error::{is_sum, lemma_sum, lemma_times_integer};
use crate::ieee::exact::lemma_integer_exact;
use crate::ieee::laws::{
    lemma_between_finite, lemma_encodes, lemma_negated, lemma_parts_of, lemma_plus_defined,
    lemma_plus_value, lemma_ratio, lemma_ratio_finite, lemma_times_defined, lemma_zero,
};
use crate::ieee::powers::{lemma_tame_plus, lemma_tame_times, lemma_tame_wider, tame};
use crate::ieee::rounding::binary64;
use crate::rate_laws::cut_off;
use vstd::arithmetic::power2::*;
use vstd::prelude::*;

verus! {

#[derive(Clone, Copy, Debug)]
pub struct PiServo {
    pub config: ServoConfig,
    pub integral: Double,
    pub sample_count: u64,
    pub integral_clamped: bool,
    pub output_clamped: bool,
}

/// Whether a number lies outside `-limit..=limit`.
pub open spec fn exceeds(x: Double, limit: Double) -> bool {
    limit.below(x) || x.below(limit.negated())
}

/// A number limited to `-limit..=limit`.
pub open spec fn limited(x: Double, limit: Double) -> Double {
    if limit.below(x) {
        limit
    } else if x.below(limit.negated()) {
        limit.negated()
    } else {
        x
    }
}

/// Limits a number to `-limit..=limit` and says whether that changed it.
fn restrict(x: Double, limit: Double) -> (r: (Double, bool))
    ensures
        r.0 == limited(x, limit),
        r.1 == exceeds(x, limit),
{
    let low = limit.neg();
    if limit.lt(x) {
        (limit, true)
    } else if x.lt(low) {
        (low, true)
    } else {
        (x, false)
    }
}

impl PiServo {
    /// The integral before it is limited.
    pub open spec fn raw_integral(self, offset_ns: int) -> Double {
        self.integral.plus(Double::integer(-offset_ns).times(self.config.ki))
    }

    /// The integral after a sample.
    pub open spec fn next_integral(self, offset_ns: int) -> Double {
        limited(self.raw_integral(offset_ns), self.config.max_integral_ppm)
    }

    /// The adjustment before it is limited.
    pub open spec fn raw_output(self, offset_ns: int) -> Double {
        Double::integer(-offset_ns).times(self.config.kp).plus(self.next_integral(offset_ns))
    }

    /// The adjustment for a sample.
    pub open spec fn output(self, offset_ns: int) -> Double {
        limited(self.raw_output(offset_ns), self.config.max_freq_adj_ppm)
    }

    /// The servo after a sample.
    pub open spec fn next(self, offset_ns: int) -> PiServo {
        PiServo {
            config: self.config,
            integral: self.next_integral(offset_ns),
            sample_count: (self.sample_count + 1) as u64,
            integral_clamped: exceeds(self.raw_integral(offset_ns), self.config.max_integral_ppm),
            output_clamped: exceeds(self.raw_output(offset_ns), self.config.max_freq_adj_ppm),
        }
    }

    pub fn new(config: ServoConfig) -> (r: PiServo)
        ensures
            r == (PiServo {
                config,
                integral: Double::zero(),
                sample_count: 0,
                integral_clamped: false,
                output_clamped: false,
            }),
    {
        PiServo {
            config,
            integral: Double::from_bits(0),
            sample_count: 0,
            integral_clamped: false,
            output_clamped: false,
        }
    }

    /// Forgets the integral; the configuration and the sample count stay.
    pub fn reset(&mut self)
        ensures
            *final(self) == (PiServo {
                integral: Double::zero(),
                integral_clamped: false,
                output_clamped: false,
                ..*old(self)
            }),
    {
        self.integral = Double::from_bits(0);
        self.integral_clamped = false;
        self.output_clamped = false;
    }

    /// Calculates the frequency adjustment (in PPM) that corrects the phase
    /// offset (in nanoseconds), which is positive if the local clock is ahead.
    pub fn sample(&mut self, offset_ns: i64) -> (r: Double)
        requires
            offset_ns > i64::MIN,
            old(self).sample_count < u64::MAX,
        ensures
            r == old(self).output(offset_ns as int),
            *final(self) == old(self).next(offset_ns as int),
    {
        self.sample_count = self.sample_count + 1;
        let error = Double::from_i64(-offset_ns);
        let (integral, integral_clamped) = restrict(
            self.integral.add(error.mul(self.config.ki)),
            self.config.max_integral_ppm,
        );
        self.integral = integral;
        self.integral_clamped = integral_clamped;
        let proportional = error.mul(self.config.kp);
        let (output, output_clamped) = restrict(
            proportional.add(self.integral),
            self.config.max_freq_adj_ppm,
        );
        self.output_clamped = output_clamped;
        output
    }

    /// Current integral value for diagnostics.
    pub fn get_integral(&self) -> (r: Double)
        ensures
            r == self.integral,
    {
        self.integral
    }

    /// Sample count for diagnostics.
    pub fn get_sample_count(&self) -> (r: u64)
        ensures
            r == self.sample_count,
    {
        self.sample_count
    }
}

/// A number limited by a finite limit is within it, and finite.
pub proof fn lemma_limited(x: Double, limit: Double)
    requires
        !x.nan(),
        limit.finite(),
        limit.value() >= 0,
    ensures
        limit.negated().at_most(limited(x, limit)),
        limited(x, limit).at_most(limit),
        limited(x, limit).finite(),
{
    reveal(Double::value);
    lemma_negated(limit);
    lemma_between_finite(limit.negated(), limited(x, limit), limit);
}

/// With sound parameters, no offset drives the servo out of its limits: the
/// adjustment and the integral are numbers within them, whatever the history.
pub proof fn lemma_servo_bounded(s: PiServo, offset_ns: i64)
    requires
        s.config.sound(),
        s.integral.finite(),
    ensures
        s.next(offset_ns as int).integral.finite(),
        s.config.max_integral_ppm.negated().at_most(s.next(offset_ns as int).integral),
        s.next(offset_ns as int).integral.at_most(s.config.max_integral_ppm),
        s.output(offset_ns as int).finite(),
        s.config.max_freq_adj_ppm.negated().at_most(s.output(offset_ns as int)),
        s.output(offset_ns as int).at_most(s.config.max_freq_adj_ppm),
{
    let e = Double::integer(-offset_ns);
    lemma_ratio_finite(-offset_ns, 1);
    lemma_times_defined(e, s.config.ki);
    lemma_plus_defined(s.integral, e.times(s.config.ki));
    lemma_limited(s.raw_integral(offset_ns as int), s.config.max_integral_ppm);
    lemma_times_defined(e, s.config.kp);
    lemma_plus_defined(e.times(s.config.kp), s.next_integral(offset_ns as int));
    lemma_limited(s.raw_output(offset_ns as int), s.config.max_freq_adj_ppm);
}

/// A sum of numbers that are not positive is not positive, and one of numbers that
/// are not negative is not negative.
proof fn lemma_sum_sign(a: Double, b: Double)
    requires
        !a.nan(),
        !b.nan(),
        a.finite(),
    ensures
        a.value() <= 0 && b.value() <= 0 ==> a.plus(b).value() <= 0,
        a.value() >= 0 && b.value() >= 0 ==> a.plus(b).value() >= 0,
{
    reveal(Double::value);
    lemma_double_format();
    if b.finite() {
        lemma_plus_value(a, b);
        lemma_nearest_zero(binary64(), 1);
    } else {
        reveal(Double::plus);
        lemma_double_format();
        lemma_encodes(b);
        lemma_parts_of(b.parts());
    }
}

/// What is limited keeps its sign.
proof fn lemma_limited_sign(x: Double, limit: Double)
    requires
        !x.nan(),
        limit.finite(),
        limit.value() >= 0,
    ensures
        x.value() <= 0 ==> limited(x, limit).value() <= 0,
        x.value() >= 0 ==> limited(x, limit).value() >= 0,
{
    reveal(Double::value);
    lemma_negated(limit);
}

/// At rest, the servo opposes the offset: a clock that is ahead is slowed down, one
/// that is behind is sped up.
pub proof fn lemma_servo_opposes(s: PiServo, offset_ns: i64)
    requires
        s.config.sound(),
        !s.config.kp.parts().neg,
        !s.config.ki.parts().neg,
        s.integral == Double::zero(),
    ensures
        offset_ns >= 0 ==> s.output(offset_ns as int).value() <= 0,
        offset_ns <= 0 ==> s.output(offset_ns as int).value() >= 0,
{
    let e = Double::integer(-offset_ns);
    lemma_zero();
    lemma_ratio(-offset_ns, 1);
    lemma_ratio_finite(-offset_ns, 1);
    lemma_times_defined(e, s.config.ki);
    lemma_times_defined(e, s.config.kp);
    let (i, p) = (e.times(s.config.ki), e.times(s.config.kp));
    lemma_product_sign(e, s.config.ki, offset_ns as int);
    lemma_product_sign(e, s.config.kp, offset_ns as int);
    lemma_plus_defined(s.integral, i);
    lemma_sum_sign(s.integral, i);
    let raw = s.raw_integral(offset_ns as int);
    lemma_limited(raw, s.config.max_integral_ppm);
    lemma_limited_sign(raw, s.config.max_integral_ppm);
    let next = s.next_integral(offset_ns as int);
    lemma_plus_defined(p, next);
    lemma_sum_sign(next, p);
    lemma_sum_order(p, next);
    lemma_limited_sign(s.raw_output(offset_ns as int), s.config.max_freq_adj_ppm);
}

/// The order of summands makes no difference, if one of them is finite.
proof fn lemma_sum_order(a: Double, b: Double)
    requires
        !a.nan(),
        !b.nan(),
        b.finite(),
    ensures
        a.plus(b) == b.plus(a),
{
    reveal(Double::plus);
    lemma_double_format();
}

/// The product of an error and a gain has the sign of the error, or is nothing.
proof fn lemma_product_sign(e: Double, gain: Double, offset: int)
    requires
        e == Double::integer(-offset),
        e.finite(),
        gain.finite(),
        !gain.parts().neg,
    ensures
        offset >= 0 ==> e.times(gain).value() <= 0,
        offset <= 0 ==> e.times(gain).value() >= 0,
{
    reveal(Double::value);
    lemma_double_format();
    lemma_ratio(-offset, 1);
    lemma_times_defined(e, gain);
    if offset == 0 {
        let f = binary64();
        reveal(Double::ratio);
        assert(0 * f.one() == 0);
        lemma_nearest_zero(f, 1);
        lemma_parts_of(Parts { neg: false, mag: 0 });
        assert(f.units(e.parts()) == 0);
        assert(0 * f.units(gain.parts()) == 0);
        lemma_pow2_pos(f.unit as nat);
        lemma_nearest_zero(f, f.one());
    }
}

/// An output and an integral answer an offset: so much of it as the gains say, against
/// its direction, the one part at once, the other part through the integral; both are
/// cut off at their limits.
pub open spec fn answers_offset(
    before: PiServo,
    offset_ns: int,
    after: PiServo,
    output: Double,
) -> bool {
    let c = before.config;
    exists|q: int, b: int, p: int, o: int|
        #![trigger is_sum(b, before.integral.value(), q), is_sum(o, p, after.integral.value())]
        is_multiple(q, c.ki.value(), -offset_ns) && is_sum(b, before.integral.value(), q)
            && after.integral.value() == cut_off(b, c.max_integral_ppm.value()) && is_multiple(
            p,
            c.kp.value(),
            -offset_ns,
        ) && is_sum(o, p, after.integral.value()) && output.value() == cut_off(
            o,
            c.max_freq_adj_ppm.value(),
        )
}

/// A number is a multiple of another one, up to one part in `2^53` and half of the
/// smallest number.
pub open spec fn is_multiple(v: int, of: int, n: int) -> bool {
    0x20_0000_0000_0000 * magnitude_of_int(v - of * n) <= magnitude_of_int(of * n)
        + 0x10_0000_0000_0000
}

/// Every sample is answered by the gains, against the direction of the offset.
pub proof fn lemma_sample(offset_ns: i64)
    requires
        -0x20_0000_0000_0000 < offset_ns < 0x20_0000_0000_0000,
    ensures
        forall|s: &mut PiServo, r: Double| #[trigger]
            call_ensures(PiServo::sample, (s, offset_ns), r) && (*s).sample_count < u64::MAX && (
            *s).config.sound() && tame((*s).config.kp, 60) && tame((*s).config.ki, 60) && tame(
                (*s).integral,
                200,
            ) ==> {
                &&& answers_offset(*s, offset_ns as int, *final(s), r)
                &&& (*final(s)).config == (*s).config
                &&& (*final(s)).sample_count == (*s).sample_count + 1
            },
{
    assert forall|s: &mut PiServo, r: Double| #[trigger]
        call_ensures(PiServo::sample, (s, offset_ns), r) && (*s).sample_count < u64::MAX && (
        *s).config.sound() && tame((*s).config.kp, 60) && tame((*s).config.ki, 60) && tame(
            (*s).integral,
            200,
        ) implies answers_offset(*s, offset_ns as int, *final(s), r) by {
        lemma_sample_answered(*s, offset_ns as int);
    }
}

/// A sample is answered.
proof fn lemma_sample_answered(s: PiServo, offset_ns: int)
    requires
        -0x20_0000_0000_0000 < offset_ns < 0x20_0000_0000_0000,
        s.config.sound(),
        tame(s.config.kp, 60),
        tame(s.config.ki, 60),
        tame(s.integral, 200),
    ensures
        answers_offset(s, offset_ns, s.next(offset_ns), s.output(offset_ns)),
{
    reveal(Double::value);
    let c = s.config;
    let e = Double::integer(-offset_ns);
    lemma_integer_exact(-offset_ns);
    lemma2_to64();
    lemma2_to64_rest();
    lemma_pow2_adds(1074, 53);
    lemma_pow2_pos(1074);
    let one = binary64().one() as int;
    assert(tame(e, 53)) by (nonlinear_arith)
        requires
            e.finite(),
            e.value() == -offset_ns * one,
            -0x20_0000_0000_0000 < offset_ns < 0x20_0000_0000_0000,
            pow2(1127) == one * 0x20_0000_0000_0000,
            one > 0,
            pow2(1074 + 53) == pow2(1127),
    ;
    lemma_tame_times(e, c.ki, 53, 60);
    lemma_tame_times(e, c.kp, 53, 60);
    lemma_factors_commute(e, c.ki);
    lemma_factors_commute(e, c.kp);
    lemma_times_integer(c.ki, -offset_ns);
    lemma_times_integer(c.kp, -offset_ns);
    let q = e.times(c.ki);
    let p = e.times(c.kp);
    lemma_tame_wider(q, 113, 200);
    lemma_tame_plus(s.integral, q, 200);
    lemma_sum(s.integral, q);
    let b = s.raw_integral(offset_ns);
    lemma_limited(b, c.max_integral_ppm);
    lemma_negated(c.max_integral_ppm);
    let i = s.next_integral(offset_ns);
    assert(tame(i, 201));
    lemma_tame_wider(p, 113, 201);
    lemma_tame_plus(p, i, 201);
    lemma_sum(p, i);
    lemma_negated(c.max_freq_adj_ppm);
    assert(is_sum(b.value(), s.integral.value(), q.value()));
    assert(is_sum(
        s.raw_output(offset_ns).value(),
        p.value(),
        s.next(offset_ns).integral.value(),
    ));
}

/// The order of factors makes no difference.
proof fn lemma_factors_commute(a: Double, b: Double)
    requires
        a.finite(),
        b.finite(),
    ensures
        a.times(b) == b.times(a),
{
    reveal(Double::times);
    let f = binary64();
    let (x, y) = (f.units(a.parts()), f.units(b.parts()));
    assert(x * y == y * x) by (nonlinear_arith);
}

/// Every new servo is at rest, and every reset brings one to rest; what it counted and its
/// parameters stay.
pub proof fn lemma_rest(config: ServoConfig)
    ensures
        forall|s: PiServo| #[trigger]
            call_ensures(PiServo::new, (config,), s) ==> s.config == config && s.integral
                == Double::zero() && s.sample_count == 0 && !s.integral_clamped
                && !s.output_clamped,
        forall|s: &mut PiServo, r: ()| #[trigger]
            call_ensures(PiServo::reset, (s,), r) ==> (*final(s)).integral == Double::zero() && (
            *final(s)).config == (*s).config && (*final(s)).sample_count == (*s).sample_count && !(
            *final(s)).integral_clamped && !(*final(s)).output_clamped,
{
}

} // verus!
