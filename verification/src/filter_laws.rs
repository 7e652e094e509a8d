//! What the spike filter does, told by the latest samples.
use crate::ieee::arith::magnitude_of_int;
use crate::ieee::double::{lemma_double_format, Double};
use crate::ieee::error::{is_scaled_quotient, lemma_scaled_quotient, lemma_times_integer};
use crate::ieee::laws::{lemma_ratio, lemma_ratio_finite};
use crate::ieee::rounding::binary64;
use crate::order::{count_less, lemma_median_of_values, median_value, value_keys};
use crate::rate_laws::{latest, lemma_latest};
use crate::spike_filter::{
    all_numbers, cleared, deviations, filtered, lemma_half, usual_multipliers, FilterMode,
    FilterResult, SpikeFilter,
};
use vstd::arithmetic::power2::*;
use vstd::prelude::*;

verus! {

/// The order of factors makes no difference.
proof fn lemma_times_commutes(a: Double, b: Double)
    requires
        a.finite(),
        b.finite(),
    ensures
        a.times(b) == b.times(a),
{
    reveal(Double::times);
    let f = binary64();
    let (x, y) = (f.units(a.parts()), f.units(b.parts()));
    assert(x * y == y * x) by (nonlinear_arith);
}

/// A sample that is judged is compared with the latest samples, itself included. The
/// median is one of them in their middle, and the MAD is in the middle of their
/// distances from it. The sample is a spike if its own distance is more than four
/// (ACQ), five (PROD), six (LOCK) or eight (NANO) times the MAD, which counts as half a
/// us/s at least. A spike is replaced with the median, unless four came in a row
/// before it.
pub proof fn lemma_judged(f: SpikeFilter, raw_rate: Double, mode: FilterMode)
    requires
        f.wf(),
        usual_multipliers(f),
        f.max_consecutive_spikes == 5,
        f.rate_history@.len() + 1 >= f.warmup_samples,
        all_numbers(latest(f.rate_history@.push(raw_rate), f.window_size as nat)),
        median_value(latest(f.rate_history@.push(raw_rate), f.window_size as nat)).finite(),
        f.verdict(raw_rate, mode).mad.finite(),
        f.verdict(raw_rate, mode).threshold.finite(),
    ensures
        ({
            let w = latest(f.rate_history@.push(raw_rate), f.window_size as nat);
            let r = f.verdict(raw_rate, mode);
            let d = value_keys(distances_from(w, r.median));
            let half = binary64().one() as int / 2;
            let counted = if r.mad.value() < half {
                half
            } else {
                r.mad.value()
            };
            let k = match mode {
                FilterMode::Acq => 4int,
                FilterMode::Prod => 5int,
                FilterMode::Lock => 6int,
                FilterMode::Nano => 8int,
            };
            &&& w.contains(r.median)
            &&& count_less(value_keys(w), r.median.value()) <= w.len() / 2
            &&& count_less(value_keys(w), r.median.value() + 1) > w.len() / 2
            &&& count_less(d, r.mad.value()) <= w.len() / 2
            &&& count_less(d, r.mad.value() + 1) > w.len() / 2
            &&& r.deviation == raw_rate.minus(r.median).absolute()
            &&& 0x20_0000_0000_0000 * magnitude_of_int(r.threshold.value() - counted * k)
                <= counted * k + 0x10_0000_0000_0000
            &&& !r.deviation.nan() ==> (r.is_spike <==> r.deviation.value()
                > r.threshold.value())
            &&& r.value == if r.is_spike && f.consecutive_spikes < 4 {
                r.median
            } else {
                raw_rate
            }
        }),
{
    reveal(Double::value);
    lemma_double_format();
    let w = latest(f.rate_history@.push(raw_rate), f.window_size as nat);
    lemma_latest(f.rate_history@, raw_rate, f.window_size as nat);
    assert(latest(f.rate_history@, f.window_size as nat) == f.rate_history@);
    assert(f.window_after(raw_rate) == w);
    let r = f.verdict(raw_rate, mode);
    lemma_median_of_values(w);
    let d = deviations(w, r.median);
    assert(d =~= distances_from(w, r.median));
    lemma_median_of_values(d);
    lemma_half();
    lemma2_to64();
    lemma_pow2_adds(1073, 1);
    let counted = r.mad.larger(f.min_mad);
    lemma_ratio(1, 2);
    lemma_ratio_finite(1, 2);
    lemma_ratio_finite(4, 1);
    lemma_ratio_finite(5, 1);
    lemma_ratio_finite(6, 1);
    lemma_ratio_finite(8, 1);
    lemma_times_commutes(f.multiplier(mode), counted);
    match mode {
        FilterMode::Acq => {
            lemma_times_integer(counted, 4);
        },
        FilterMode::Prod => {
            lemma_times_integer(counted, 5);
        },
        FilterMode::Lock => {
            lemma_times_integer(counted, 6);
        },
        FilterMode::Nano => {
            lemma_times_integer(counted, 8);
        },
    }
}

/// The distances of some numbers from a centre.
pub open spec fn distances_from(s: Seq<Double>, centre: Double) -> Seq<Double> {
    Seq::new(s.len(), |i: int| s[i].minus(centre).absolute())
}

/// Every sample that is filtered gives the judgement, and is kept among the latest ones
/// whatever it is.
pub proof fn lemma_filter(raw_rate: Double, mode: FilterMode)
    ensures
        forall|f: &mut SpikeFilter, r: FilterResult| #[trigger]
            call_ensures(SpikeFilter::filter, (f, raw_rate, mode), r) && (*f).wf() && (
            *f).total_samples < u64::MAX && ((*f).rate_history@.len() + 1 < (*f).warmup_samples || (
            all_numbers((*f).window_after(raw_rate)) && crate::order::median_value(
                (*f).window_after(raw_rate),
            ).finite())) ==> {
                let (b, a) = (*f, *final(f));
                &&& r == b.verdict(raw_rate, mode)
                &&& a.rate_history@ == latest(
                    b.rate_history@.push(raw_rate),
                    b.window_size as nat,
                )
                &&& a.total_samples == b.total_samples + 1
                &&& a.same_parameters(&b)
                &&& b.rate_history@.len() + 1 < b.warmup_samples ==> r.value == raw_rate
                    && !r.is_spike
            },
{
    assert forall|f: &mut SpikeFilter, r: FilterResult| #[trigger]
        call_ensures(SpikeFilter::filter, (f, raw_rate, mode), r) && (*f).wf() && (
        *f).total_samples < u64::MAX && ((*f).rate_history@.len() + 1 < (*f).warmup_samples || (
        all_numbers((*f).window_after(raw_rate)) && crate::order::median_value(
            (*f).window_after(raw_rate),
        ).finite())) implies ({
        let (b, a) = (*f, *final(f));
        &&& r == b.verdict(raw_rate, mode)
        &&& a.rate_history@ == latest(b.rate_history@.push(raw_rate), b.window_size as nat)
        &&& a.total_samples == b.total_samples + 1
        &&& a.same_parameters(&b)
        &&& b.rate_history@.len() + 1 < b.warmup_samples ==> r.value == raw_rate && !r.is_spike
    }) by {
        let b = *f;
        lemma_latest(b.rate_history@, raw_rate, b.window_size as nat);
        assert(latest(b.rate_history@, b.window_size as nat) == b.rate_history@);
        assert(filtered(b, raw_rate, mode, *final(f), r));
    }
}

/// Every new filter starts without samples, and with the usual multipliers; it judges
/// from the fifth sample on.
pub proof fn lemma_new_filter(window_size: usize)
    requires
        window_size < usize::MAX,
    ensures
        forall|f: SpikeFilter| #[trigger]
            call_ensures(SpikeFilter::new, (), f) ==> usual_multipliers(f) && f.window_size == 20
                && f.warmup_samples == 5 && f.max_consecutive_spikes == 5
                && f.rate_history@.len() == 0 && f.consecutive_spikes == 0,
        forall|f: SpikeFilter| #[trigger]
            call_ensures(SpikeFilter::with_window_size, (window_size,), f) ==> usual_multipliers(f)
                && f.window_size == (if window_size < 5 {
                5
            } else {
                window_size
            }) && f.warmup_samples == 5 && f.max_consecutive_spikes == 5
                && f.rate_history@.len() == 0 && f.consecutive_spikes == 0,
{
}

/// Every count of what was filtered tells all samples, those that were replaced, and these
/// in percent of those.
pub proof fn lemma_stats(f: &SpikeFilter, r: (u64, u64, Double))
    requires
        call_ensures(SpikeFilter::stats, (f,), r),
        f.rejected_spikes <= f.total_samples < 0x20_0000_0000_0000,
    ensures
        r.0 == f.total_samples && r.1 == f.rejected_spikes,
        r.0 == 0 ==> r.2 == Double::zero(),
        r.0 > 0 ==> is_scaled_quotient(r.2.value(), r.1 as int, r.0 as int, 100),
{
    if r.0 > 0 {
        lemma_scaled_quotient(r.1 as int, r.0 as int, 100);
    }
}

/// Every judged sample is counted: a spike continues the row, and is counted as replaced
/// unless it is the fifth, which ends the row as any sample does that is no spike. What it
/// was judged by is kept for the record.
pub proof fn lemma_filter_counts(raw_rate: Double, mode: FilterMode)
    ensures
        forall|f: &mut SpikeFilter, r: FilterResult| #[trigger]
            call_ensures(SpikeFilter::filter, (f, raw_rate, mode), r) && (*f).wf() && (
            *f).total_samples < u64::MAX && (*f).max_consecutive_spikes == 5 && (
            *f).rate_history@.len() + 1 >= (*f).warmup_samples && all_numbers(
                (*f).window_after(raw_rate),
            ) && median_value((*f).window_after(raw_rate)).finite() ==> {
                let (b, a) = (*f, *final(f));
                let row = b.consecutive_spikes;
                &&& !r.is_spike || row + 1 >= 5 ==> a.consecutive_spikes == 0 && a.rejected_spikes
                    == b.rejected_spikes && r.value == raw_rate
                &&& r.is_spike && row + 1 < 5 ==> a.consecutive_spikes == row + 1
                    && a.rejected_spikes == b.rejected_spikes + 1 && r.value == r.median
                &&& a.last_median == r.median && a.last_mad == r.mad && a.last_threshold
                    == r.threshold
            },
        forall|f: &mut SpikeFilter, r: ()| #[trigger]
            call_ensures(SpikeFilter::clear, (f,), r) && (*f).wf() ==> {
                let (b, a) = (*f, *final(f));
                &&& a.rate_history@.len() == 0 && a.consecutive_spikes == 0
                &&& a.last_median == Double::zero() && a.last_mad == Double::zero()
                &&& a.last_threshold == Double::zero()
                &&& a.total_samples == b.total_samples && a.rejected_spikes == b.rejected_spikes
                &&& cleared(b, a)
            },
{
    assert forall|f: &mut SpikeFilter, r: FilterResult| #[trigger]
        call_ensures(SpikeFilter::filter, (f, raw_rate, mode), r) && (*f).wf() && (
        *f).total_samples < u64::MAX && (*f).max_consecutive_spikes == 5 && (
        *f).rate_history@.len() + 1 >= (*f).warmup_samples && all_numbers(
            (*f).window_after(raw_rate),
        ) && median_value((*f).window_after(raw_rate)).finite() implies ({
        let (b, a) = (*f, *final(f));
        let row = b.consecutive_spikes;
        &&& !r.is_spike || row + 1 >= 5 ==> a.consecutive_spikes == 0 && a.rejected_spikes
            == b.rejected_spikes && r.value == raw_rate
        &&& r.is_spike && row + 1 < 5 ==> a.consecutive_spikes == row + 1 && a.rejected_spikes
            == b.rejected_spikes + 1 && r.value == r.median
        &&& a.last_median == r.median && a.last_mad == r.mad && a.last_threshold == r.threshold
    }) by {
        assert(filtered(*f, raw_rate, mode, *final(f), r));
    }
}

} // verus!
