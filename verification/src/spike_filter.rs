//! Adaptive spike detection for drift rate measurements.
//!
//! Software timestamps jitter, and the jitter shows as spikes in the measured
//! drift rate that are no frequency changes. A sample is a spike if it lies
//! further from the median of a rolling window than a multiple of the median
//! absolute deviation (MAD); the multiple depends on the operating mode. A spike
//! is replaced with the median, unless so many came in a row that they are taken
//! for a real step.
use crate::ieee::arith::{lemma_nearest_zero, magnitude_of_int, Parts};
use crate::ieee::constants::{lemma_at, lemma_integer_at, lemma_tenths_difference};
use crate::ieee::double::{lemma_double_format, Double};
use crate::ieee::exact::{
    lemma_integer_exact, lemma_integers_minus, lemma_integers_over, lemma_integers_plus,
    lemma_mirror_minus, lemma_mirror_negated, lemma_mirror_over, lemma_mirror_plus,
    lemma_mirror_square, mirror,
};
use crate::ieee::laws::{
    lemma_absolute, lemma_between_finite, lemma_encodes, lemma_nearest_apart, lemma_nearest_encodes,
    lemma_negated, lemma_over_defined, lemma_over_monotone, lemma_parts_of, lemma_plus_commutes,
    lemma_plus_defined, lemma_plus_monotone, lemma_plus_nothing, lemma_plus_value, lemma_ratio,
    lemma_ratio_finite, lemma_ratio_order, lemma_times_defined, lemma_times_monotone,
    lemma_times_one, lemma_zero,
};
use crate::ieee::powers::{
    lemma_binary_fraction, lemma_root_number, lemma_root_of_four, lemma_tame_over, lemma_tame_plus,
    lemma_tame_times, lemma_tame_wider, tame,
};
use crate::ieee::rounding::binary64;
use crate::ieee::scale::lemma_magnitude_increases;
use crate::order::{lemma_middle, median_double, median_value, value_keys};
use std::collections::VecDeque;
use vstd::arithmetic::power2::*;
use vstd::prelude::*;

verus! {

/// Default rolling window size (~20 seconds at 1 sample/sec).
pub const DEFAULT_WINDOW_SIZE: usize = 20;

/// Minimum samples before spike detection activates.
pub const WARMUP_SAMPLES: usize = 5;

/// Accept as real step change after this many consecutive spikes.
pub const MAX_CONSECUTIVE_SPIKES: usize = 5;

/// Operating mode for threshold selection.
#[derive(Clone, Copy, Debug, PartialEq, Eq, Structural)]
pub enum FilterMode {
    /// Acquisition: fast convergence.
    Acq,
    /// Production: balanced filtering.
    Prod,
    /// Locked: protect stability.
    Lock,
    /// Nano: ultra-precise.
    Nano,
}

/// Adaptive spike detection filter.
#[derive(Debug)]
pub struct SpikeFilter {
    /// Rolling window of rate samples (us/s), oldest first.
    pub rate_history: VecDeque<Double>,
    /// Maximum window size.
    pub window_size: usize,
    /// Threshold multipliers for each mode.
    pub k_acq: Double,
    pub k_prod: Double,
    pub k_lock: Double,
    pub k_nano: Double,
    /// Least MAD that counts, against over-sensitivity on stable systems.
    pub min_mad: Double,
    /// Minimum samples before spike detection activates.
    pub warmup_samples: usize,
    /// Spikes in a row so far.
    pub consecutive_spikes: usize,
    /// Spikes in a row that are accepted as real.
    pub max_consecutive_spikes: usize,
    pub total_samples: u64,
    pub rejected_spikes: u64,
    /// Last computed statistics.
    pub last_median: Double,
    pub last_mad: Double,
    pub last_threshold: Double,
}

/// Result of filtering a sample.
#[derive(Clone, Copy, Debug, PartialEq, Eq, Structural)]
pub struct FilterResult {
    /// The value to use (filtered or original).
    pub value: Double,
    /// Whether this sample was detected as a spike.
    pub is_spike: bool,
    /// The deviation from the median.
    pub deviation: Double,
    /// The threshold used.
    pub threshold: Double,
    /// Median of the window.
    pub median: Double,
    /// MAD of the window.
    pub mad: Double,
}

/// A window of at most `size` samples after one more.
pub open spec fn slid(window: Seq<Double>, sample: Double, size: nat) -> Seq<Double> {
    let w = window.push(sample);
    if w.len() > size {
        w.drop_first()
    } else {
        w
    }
}

/// No sample is not-a-number.
pub open spec fn all_numbers(window: Seq<Double>) -> bool {
    forall|i: int| 0 <= i < window.len() ==> !(#[trigger] window[i]).nan()
}

/// The distances of the samples from a centre.
pub open spec fn deviations(window: Seq<Double>, centre: Double) -> Seq<Double> {
    window.map_values(|x: Double| x.minus(centre).absolute())
}

/// The median absolute deviation of the samples.
pub open spec fn median_deviation(window: Seq<Double>) -> Double {
    median_value(deviations(window, median_value(window)))
}

/// The largest finite number.
pub open spec fn largest() -> Double {
    Double { bits: 0x7fef_ffff_ffff_ffff }
}

/// The run of spikes after one more sample.
pub open spec fn run_after(run: nat, is_spike: bool, longest: nat) -> nat {
    if is_spike && run + 1 < longest {
        run + 1
    } else {
        0
    }
}

impl SpikeFilter {
    pub open spec fn wf(&self) -> bool {
        &&& 1 <= self.warmup_samples <= self.window_size
        &&& self.window_size < usize::MAX
        &&& self.rate_history@.len() <= self.window_size
        &&& self.consecutive_spikes < self.max_consecutive_spikes
        &&& self.rejected_spikes <= self.total_samples
    }

    /// The threshold multiplier of a mode.
    pub open spec fn multiplier(&self, mode: FilterMode) -> Double {
        match mode {
            FilterMode::Acq => self.k_acq,
            FilterMode::Prod => self.k_prod,
            FilterMode::Lock => self.k_lock,
            FilterMode::Nano => self.k_nano,
        }
    }

    /// The window after a sample.
    pub open spec fn window_after(&self, raw_rate: Double) -> Seq<Double> {
        slid(self.rate_history@, raw_rate, self.window_size as nat)
    }

    /// The window after a sample is too small for statistics.
    pub open spec fn warming(&self, raw_rate: Double) -> bool {
        self.window_after(raw_rate).len() < self.warmup_samples
    }

    /// The deviation beyond which a sample is a spike.
    pub open spec fn threshold(&self, window: Seq<Double>, mode: FilterMode) -> Double {
        self.multiplier(mode).times(median_deviation(window).larger(self.min_mad))
    }

    /// The result of filtering a sample.
    pub open spec fn verdict(&self, raw_rate: Double, mode: FilterMode) -> FilterResult {
        let window = self.window_after(raw_rate);
        let median = median_value(window);
        let deviation = raw_rate.minus(median).absolute();
        let threshold = self.threshold(window, mode);
        let is_spike = threshold.below(deviation);
        if self.warming(raw_rate) {
            FilterResult {
                value: raw_rate,
                is_spike: false,
                deviation: Double::zero(),
                threshold: largest(),
                median: raw_rate,
                mad: Double::zero(),
            }
        } else {
            FilterResult {
                value: if is_spike && self.consecutive_spikes + 1 < self.max_consecutive_spikes {
                    median
                } else {
                    raw_rate
                },
                is_spike,
                deviation,
                threshold,
                median,
                mad: median_deviation(window),
            }
        }
    }

    /// All that is set once and for all is as in another filter.
    pub open spec fn same_parameters(&self, o: &SpikeFilter) -> bool {
        &&& self.window_size == o.window_size
        &&& self.k_acq == o.k_acq
        &&& self.k_prod == o.k_prod
        &&& self.k_lock == o.k_lock
        &&& self.k_nano == o.k_nano
        &&& self.min_mad == o.min_mad
        &&& self.warmup_samples == o.warmup_samples
        &&& self.max_consecutive_spikes == o.max_consecutive_spikes
    }

    /// A filter without history and with the default multipliers.
    pub open spec fn fresh(&self, window_size: nat) -> bool {
        &&& self.rate_history@ == Seq::<Double>::empty()
        &&& self.window_size == window_size
        &&& self.k_acq == Double::integer(4)
        &&& self.k_prod == Double::integer(5)
        &&& self.k_lock == Double::integer(6)
        &&& self.k_nano == Double::integer(8)
        &&& self.min_mad == Double::ratio(1, 2)
        &&& self.warmup_samples == WARMUP_SAMPLES
        &&& self.consecutive_spikes == 0
        &&& self.max_consecutive_spikes == MAX_CONSECUTIVE_SPIKES
        &&& self.total_samples == 0
        &&& self.rejected_spikes == 0
        &&& self.last_median == Double::zero()
        &&& self.last_mad == Double::zero()
        &&& self.last_threshold == Double::zero()
    }

    /// A filter with default parameters, tuned for typical Dante PTP sync.
    pub fn new() -> (r: SpikeFilter)
        ensures
            r.wf(),
            r.fresh(DEFAULT_WINDOW_SIZE as nat),
    {
        SpikeFilter {
            rate_history: VecDeque::with_capacity(DEFAULT_WINDOW_SIZE + 5),
            window_size: DEFAULT_WINDOW_SIZE,
            k_acq: Double::from_i64(4),
            k_prod: Double::from_i64(5),
            k_lock: Double::from_i64(6),
            k_nano: Double::from_i64(8),
            min_mad: Double::from_ratio(1, 2),
            warmup_samples: WARMUP_SAMPLES,
            consecutive_spikes: 0,
            max_consecutive_spikes: MAX_CONSECUTIVE_SPIKES,
            total_samples: 0,
            rejected_spikes: 0,
            last_median: Double::from_bits(0),
            last_mad: Double::from_bits(0),
            last_threshold: Double::from_bits(0),
        }
    }

    /// A filter with a window of its own size, at least the warm-up length.
    pub fn with_window_size(window_size: usize) -> (r: SpikeFilter)
        requires
            window_size < usize::MAX,
        ensures
            r.wf(),
            r.fresh(
                if window_size < WARMUP_SAMPLES {
                    WARMUP_SAMPLES as nat
                } else {
                    window_size as nat
                },
            ),
    {
        let mut filter = SpikeFilter::new();
        filter.window_size = if window_size < WARMUP_SAMPLES {
            WARMUP_SAMPLES
        } else {
            window_size
        };
        filter
    }

    /// Median and MAD of the window.
    fn statistics(&self) -> (r: (Double, Double))
        requires
            self.rate_history@.len() > 0,
            all_numbers(self.rate_history@),
            median_value(self.rate_history@).finite(),
        ensures
            r.0 == median_value(self.rate_history@),
            r.1 == median_deviation(self.rate_history@),
    {
        let ghost window = self.rate_history@;
        let mut samples: Vec<Double> = Vec::new();
        let mut i: usize = 0;
        while i < self.rate_history.len()
            invariant
                window == self.rate_history@,
                i <= window.len(),
                samples@ == window.take(i as int),
            decreases window.len() - i,
        {
            samples.push(self.rate_history[i]);
            i = i + 1;
        }
        assert(samples@ == window);
        let median = median_double(&samples);
        let mut distances: Vec<Double> = Vec::new();
        let mut j: usize = 0;
        while j < samples.len()
            invariant
                samples@ == window,
                all_numbers(window),
                median.finite(),
                j <= window.len(),
                distances@ == deviations(window, median).take(j as int),
                all_numbers(distances@),
            decreases window.len() - j,
        {
            let x = samples[j];
            proof {
                lemma_double_format();
                lemma_negated(median);
                lemma_plus_defined(x, median.negated());
                lemma_absolute(x.minus(median));
            }
            distances.push(x.sub(median).abs());
            assert(distances@ == deviations(window, median).take(j + 1));
            j = j + 1;
        }
        assert(distances@ == deviations(window, median));
        (median, median_double(&distances))
    }

    /// Filters a raw rate sample (us/s): the value to use, and what was found.
    pub fn filter(&mut self, raw_rate: Double, mode: FilterMode) -> (r: FilterResult)
        requires
            old(self).wf(),
            old(self).total_samples < u64::MAX,
            old(self).warming(raw_rate) || (all_numbers(old(self).window_after(raw_rate))
                && median_value(old(self).window_after(raw_rate)).finite()),
        ensures
            final(self).wf(),
            filtered(*old(self), raw_rate, mode, *final(self), r),
    {
        let ghost before = *self;
        self.total_samples = self.total_samples + 1;
        self.rate_history.push_back(raw_rate);
        if self.rate_history.len() > self.window_size {
            let _ = self.rate_history.pop_front();
        }
        assert(self.rate_history@ == before.window_after(raw_rate));
        if self.rate_history.len() < self.warmup_samples {
            return FilterResult {
                value: raw_rate,
                is_spike: false,
                deviation: Double::from_bits(0),
                threshold: Double::from_bits(0x7fef_ffff_ffff_ffff),
                median: raw_rate,
                mad: Double::from_bits(0),
            };
        }
        let (median, mad) = self.statistics();
        let k = match mode {
            FilterMode::Acq => self.k_acq,
            FilterMode::Prod => self.k_prod,
            FilterMode::Lock => self.k_lock,
            FilterMode::Nano => self.k_nano,
        };
        let threshold = k.mul(mad.max(self.min_mad));
        self.last_median = median;
        self.last_mad = mad;
        self.last_threshold = threshold;
        let deviation = raw_rate.sub(median).abs();
        let is_spike = threshold.lt(deviation);
        let value = if is_spike {
            self.consecutive_spikes = self.consecutive_spikes + 1;
            if self.consecutive_spikes >= self.max_consecutive_spikes {
                self.consecutive_spikes = 0;
                raw_rate
            } else {
                self.rejected_spikes = self.rejected_spikes + 1;
                median
            }
        } else {
            self.consecutive_spikes = 0;
            raw_rate
        };
        FilterResult { value, is_spike, deviation, threshold, median, mad }
    }

    /// Samples seen, spikes rejected, and the rejected share in percent.
    pub fn stats(&self) -> (r: (u64, u64, Double))
        ensures
            r.0 == self.total_samples,
            r.1 == self.rejected_spikes,
            r.2 == if self.total_samples > 0 {
                Double::integer(self.rejected_spikes as int).over(
                    Double::integer(self.total_samples as int),
                ).times(Double::integer(100))
            } else {
                Double::zero()
            },
    {
        let ratio = if self.total_samples > 0 {
            Double::from_u64(self.rejected_spikes).div(Double::from_u64(self.total_samples)).mul(
                Double::from_i64(100),
            )
        } else {
            Double::from_bits(0)
        };
        (self.total_samples, self.rejected_spikes, ratio)
    }

    /// Last computed median, MAD and threshold.
    pub fn last_stats(&self) -> (r: (Double, Double, Double))
        ensures
            r == (self.last_median, self.last_mad, self.last_threshold),
    {
        (self.last_median, self.last_mad, self.last_threshold)
    }

    /// Clears the history; the counts of samples and rejections stay.
    pub fn clear(&mut self)
        requires
            old(self).wf(),
        ensures
            final(self).wf(),
            cleared(*old(self), *final(self)),
    {
        self.rate_history.clear();
        self.consecutive_spikes = 0;
        self.last_median = Double::from_bits(0);
        self.last_mad = Double::from_bits(0);
        self.last_threshold = Double::from_bits(0);
    }

    /// Current number of samples in the window.
    pub fn window_len(&self) -> (r: usize)
        ensures
            r == self.rate_history@.len(),
    {
        self.rate_history.len()
    }
}

impl Default for SpikeFilter {
    fn default() -> (r: SpikeFilter)
        ensures
            r.wf(),
            r.fresh(DEFAULT_WINDOW_SIZE as nat),
    {
        SpikeFilter::new()
    }
}

/// A sample was filtered: what came out, and what the filter remembers.
pub open spec fn filtered(
    before: SpikeFilter,
    raw_rate: Double,
    mode: FilterMode,
    after: SpikeFilter,
    r: FilterResult,
) -> bool {
    &&& r == before.verdict(raw_rate, mode)
    &&& after.same_parameters(&before)
    &&& after.rate_history@ == before.window_after(raw_rate)
    &&& after.total_samples == before.total_samples + 1
    &&& if before.warming(raw_rate) {
        &&& after.consecutive_spikes == before.consecutive_spikes
        &&& after.rejected_spikes == before.rejected_spikes
        &&& after.last_median == before.last_median
        &&& after.last_mad == before.last_mad
        &&& after.last_threshold == before.last_threshold
    } else {
        &&& after.consecutive_spikes == run_after(
            before.consecutive_spikes as nat,
            r.is_spike,
            before.max_consecutive_spikes as nat,
        )
        &&& after.rejected_spikes == before.rejected_spikes + (if r.is_spike
            && before.consecutive_spikes + 1 < before.max_consecutive_spikes {
            1int
        } else {
            0
        })
        &&& after.last_median == r.median
        &&& after.last_mad == r.mad
        &&& after.last_threshold == r.threshold
    }
}

/// A filter was cleared.
pub open spec fn cleared(before: SpikeFilter, after: SpikeFilter) -> bool {
    &&& after.same_parameters(&before)
    &&& after.rate_history@ == Seq::<Double>::empty()
    &&& after.consecutive_spikes == 0
    &&& after.total_samples == before.total_samples
    &&& after.rejected_spikes == before.rejected_spikes
    &&& after.last_median == Double::zero()
    &&& after.last_mad == Double::zero()
    &&& after.last_threshold == Double::zero()
}

/// Samples with their modes were filtered one after the other.
pub open spec fn filtered_all(
    filters: Seq<SpikeFilter>,
    samples: Seq<(Double, FilterMode)>,
    results: Seq<FilterResult>,
) -> bool {
    &&& filters.len() == samples.len() + 1
    &&& results.len() == samples.len()
    &&& forall|i: int|
        0 <= i < samples.len() ==> filtered(
            filters[i],
            samples[i].0,
            samples[i].1,
            filters[i + 1],
            #[trigger] results[i],
        )
}

/// Two filters of one make with the same history.
pub open spec fn alike_history(a: SpikeFilter, b: SpikeFilter) -> bool {
    &&& a.same_parameters(&b)
    &&& a.rate_history@ == b.rate_history@
}

/// Two filters remember the same, as far as it matters to a sample.
pub open spec fn alike(a: SpikeFilter, b: SpikeFilter) -> bool {
    &&& alike_history(a, b)
    &&& a.consecutive_spikes == b.consecutive_spikes
}

/// Filters that remember the same give the same results, sample by sample.
proof fn lemma_alike_results(
    filters: Seq<SpikeFilter>,
    others: Seq<SpikeFilter>,
    samples: Seq<(Double, FilterMode)>,
    results: Seq<FilterResult>,
    other_results: Seq<FilterResult>,
    n: int,
)
    requires
        filtered_all(filters, samples, results),
        filtered_all(others, samples, other_results),
        alike(filters[0], others[0]),
        0 <= n <= samples.len(),
    ensures
        alike(filters[n], others[n]),
        forall|i: int| 0 <= i < n ==> #[trigger] results[i] == other_results[i],
    decreases n,
{
    if n > 0 {
        lemma_alike_results(filters, others, samples, results, other_results, n - 1);
        assert(filtered(
            filters[n - 1],
            samples[n - 1].0,
            samples[n - 1].1,
            filters[n - 1 + 1],
            results[n - 1],
        ));
        assert(filtered(
            others[n - 1],
            samples[n - 1].0,
            samples[n - 1].1,
            others[n - 1 + 1],
            other_results[n - 1],
        ));
    }
}

/// After it was cleared, a filter gives for every run of samples what a new filter
/// with the same window and multipliers gives.
pub proof fn lemma_cleared_as_new(
    before: SpikeFilter,
    new: SpikeFilter,
    filters: Seq<SpikeFilter>,
    others: Seq<SpikeFilter>,
    samples: Seq<(Double, FilterMode)>,
    results: Seq<FilterResult>,
    other_results: Seq<FilterResult>,
)
    requires
        before.same_parameters(&new),
        new.fresh(before.window_size as nat),
        filtered_all(filters, samples, results),
        filtered_all(others, samples, other_results),
        cleared(before, filters[0]),
        others[0] == new,
    ensures
        results == other_results,
{
    lemma_alike_results(filters, others, samples, results, other_results, samples.len() as int);
    assert(results =~= other_results);
}

/// What the filter hands on was measured: the sample itself, or the median,
/// which is a sample of the window. Only a spike is replaced.
pub proof fn lemma_value_was_measured(f: SpikeFilter, raw_rate: Double, mode: FilterMode)
    requires
        f.wf(),
    ensures
        f.window_after(raw_rate).contains(f.verdict(raw_rate, mode).value),
        !f.verdict(raw_rate, mode).is_spike ==> f.verdict(raw_rate, mode).value == raw_rate,
{
    let w = f.window_after(raw_rate);
    lemma_middle(value_keys(w));
    assert(w[w.len() - 1] == raw_rate);
}

/// The run of spikes after `n` spikes in a row.
pub open spec fn run_of(n: nat, longest: nat) -> nat
    decreases n,
{
    if n == 0 {
        0
    } else {
        run_after(run_of((n - 1) as nat, longest), true, longest)
    }
}

/// Of spikes in a row, all but the last of `longest` are replaced with the
/// median; that one is taken for a real step, and the count starts afresh.
pub proof fn lemma_step_change_accepted(
    f: SpikeFilter,
    n: nat,
    raw_rate: Double,
    mode: FilterMode,
)
    requires
        f.wf(),
        n < f.max_consecutive_spikes,
        f.consecutive_spikes == run_of(n, f.max_consecutive_spikes as nat),
        f.verdict(raw_rate, mode).is_spike,
    ensures
        f.consecutive_spikes == n,
        n + 1 < f.max_consecutive_spikes ==> f.verdict(raw_rate, mode).value == f.verdict(
            raw_rate,
            mode,
        ).median,
        n + 1 == f.max_consecutive_spikes ==> f.verdict(raw_rate, mode).value == raw_rate && run_of(
            n + 1,
            f.max_consecutive_spikes as nat,
        ) == 0,
{
    lemma_run_of(n, f.max_consecutive_spikes as nat);
}

proof fn lemma_run_of(n: nat, longest: nat)
    requires
        n < longest,
    ensures
        run_of(n, longest) == n,
    decreases n,
{
    if n > 0 {
        lemma_run_of((n - 1) as nat, longest);
    }
}

/// A filter whose window has room for the warm-up passes every sample on.
pub proof fn lemma_warmup_passes(f: SpikeFilter, raw_rate: Double, mode: FilterMode)
    requires
        f.wf(),
        f.rate_history@.len() + 1 < f.warmup_samples,
    ensures
        f.verdict(raw_rate, mode).value == raw_rate,
        !f.verdict(raw_rate, mode).is_spike,
        f.window_after(raw_rate).len() == f.rate_history@.len() + 1,
{
}

/// On one window the thresholds grow from mode to mode, if the multipliers are
/// positive numbers that do.
proof fn lemma_threshold_order(a: Double, b: Double, m: Double)
    requires
        b.finite(),
        !a.parts().neg,
        a.parts().mag > 0,
        a.at_most(b),
        !b.parts().neg,
        b.parts().mag > 0,
        !m.nan(),
        !m.parts().neg,
    ensures
        a.times(m).at_most(b.times(m)),
{
    lemma_double_format();
    reveal(Double::value);
    if m.finite() {
        lemma_times_monotone(a, b, m, m);
    } else {
        reveal(Double::times);
        lemma_parts_of(Parts { neg: false, mag: binary64().limit() as u64 });
        lemma_infinite_factor(a, m);
        lemma_infinite_factor(b, m);
    }
}

/// A positive number times infinity.
proof fn lemma_infinite_factor(a: Double, m: Double)
    requires
        !a.nan(),
        !a.parts().neg,
        a.parts().mag > 0,
        !m.nan(),
        !m.finite(),
        !m.parts().neg,
    ensures
        a.times(m).parts() == (Parts { neg: false, mag: binary64().limit() as u64 }),
{
    lemma_double_format();
    reveal(Double::times);
    lemma_parts_of(Parts { neg: false, mag: binary64().limit() as u64 });
}

/// The deviation that counts is a number without a sign, and not less than the least
/// one.
proof fn lemma_counted_deviation(f: SpikeFilter, window: Seq<Double>)
    requires
        f.min_mad == Double::ratio(1, 2),
        window.len() > 0,
        all_numbers(window),
        median_value(window).finite(),
    ensures
        ({
            let m = median_deviation(window).larger(f.min_mad);
            &&& !m.nan()
            &&& !m.parts().neg
            &&& f.min_mad.at_most(m)
        }),
{
    reveal(Double::value);
    lemma_double_format();
    let median = median_value(window);
    let d = deviations(window, median);
    lemma_middle(value_keys(window));
    lemma_middle(value_keys(d));
    let i = crate::order::middle(value_keys(d));
    lemma_negated(median);
    lemma_plus_defined(window[i], median.negated());
    lemma_absolute(window[i].minus(median));
    lemma_encodes(window[i].minus(median));
    lemma_parts_of(Parts { neg: false, mag: window[i].minus(median).parts().mag });
    lemma_ratio(1, 2);
}

/// If the threshold of a mode is finite, so are those of the earlier ones.
proof fn lemma_threshold_chain(f: SpikeFilter, window: Seq<Double>, later: FilterMode)
    requires
        f.wf(),
        usual_multipliers(f),
        window.len() > 0,
        all_numbers(window),
        median_value(window).finite(),
        f.threshold(window, later).finite(),
    ensures
        rank(later) >= 1 ==> f.threshold(window, FilterMode::Prod).finite(),
        rank(later) >= 2 ==> f.threshold(window, FilterMode::Lock).finite(),
{
    lemma_thresholds_increase(f, window);
    lemma_zero();
    lemma_threshold_sign(f, window, FilterMode::Prod);
    lemma_threshold_sign(f, window, FilterMode::Lock);
    if rank(later) >= 1 {
        lemma_between_finite(
            Double::zero(),
            f.threshold(window, FilterMode::Prod),
            f.threshold(window, later),
        );
    }
    if rank(later) >= 2 {
        lemma_between_finite(
            Double::zero(),
            f.threshold(window, FilterMode::Lock),
            f.threshold(window, later),
        );
    }
}

/// A threshold is not negative.
proof fn lemma_threshold_sign(f: SpikeFilter, window: Seq<Double>, mode: FilterMode)
    requires
        usual_multipliers(f),
        window.len() > 0,
        all_numbers(window),
        median_value(window).finite(),
    ensures
        Double::zero().at_most(f.threshold(window, mode)),
{
    reveal(Double::value);
    lemma_double_format();
    lemma_counted_deviation(f, window);
    lemma_small_integers(4, 5);
    lemma_small_integers(6, 8);
    lemma_zero();
    let m = median_deviation(window).larger(f.min_mad);
    let k = f.multiplier(mode);
    if m.finite() {
        lemma_times_defined(k, m);
    } else {
        lemma_infinite_factor(k, m);
    }
}

/// On any one window, the threshold of a filter with the default multipliers
/// grows from acquisition over production and lock to nano.
pub proof fn lemma_thresholds_increase(f: SpikeFilter, window: Seq<Double>)
    requires
        f.wf(),
        f.k_acq == Double::integer(4),
        f.k_prod == Double::integer(5),
        f.k_lock == Double::integer(6),
        f.k_nano == Double::integer(8),
        f.min_mad == Double::ratio(1, 2),
        window.len() > 0,
        all_numbers(window),
        median_value(window).finite(),
    ensures
        f.threshold(window, FilterMode::Acq).at_most(f.threshold(window, FilterMode::Prod)),
        f.threshold(window, FilterMode::Prod).at_most(f.threshold(window, FilterMode::Lock)),
        f.threshold(window, FilterMode::Lock).at_most(f.threshold(window, FilterMode::Nano)),
{
    lemma_double_format();
    lemma_counted_deviation(f, window);
    let m = median_deviation(window).larger(f.min_mad);
    lemma_small_integers(4, 5);
    lemma_small_integers(5, 6);
    lemma_small_integers(6, 8);
    lemma_threshold_order(f.k_acq, f.k_prod, m);
    lemma_threshold_order(f.k_prod, f.k_lock, m);
    lemma_threshold_order(f.k_lock, f.k_nano, m);
}

/// The place of a mode in the order of the modes.
pub open spec fn rank(mode: FilterMode) -> nat {
    match mode {
        FilterMode::Acq => 0,
        FilterMode::Prod => 1,
        FilterMode::Lock => 2,
        FilterMode::Nano => 3,
    }
}

/// The multipliers of a filter are the default ones.
pub open spec fn usual_multipliers(f: SpikeFilter) -> bool {
    &&& f.k_acq == Double::integer(4)
    &&& f.k_prod == Double::integer(5)
    &&& f.k_lock == Double::integer(6)
    &&& f.k_nano == Double::integer(8)
    &&& f.min_mad == Double::ratio(1, 2)
}

/// The default multipliers in units of the smallest number.
proof fn lemma_multiplier_values()
    ensures
        ({
            let p = pow2(1024);
            let f = binary64();
            &&& f.units(Double::integer(4).parts()) == 0x10_0000_0000_0000 * p
            &&& f.units(Double::integer(5).parts()) == 0x14_0000_0000_0000 * p
            &&& f.units(Double::integer(6).parts()) == 0x18_0000_0000_0000 * p
            &&& f.units(Double::integer(8).parts()) == 0x20_0000_0000_0000 * p
        }),
{
    lemma_double_format();
    lemma2_to64();
    lemma2_to64_rest();
    lemma_integer_at(4, 1024, 0x10_0000_0000_0000, 50);
    lemma_integer_at(5, 1024, 0x14_0000_0000_0000, 50);
    lemma_integer_at(6, 1024, 0x18_0000_0000_0000, 50);
    lemma_integer_at(8, 1025, 0x10_0000_0000_0000, 49);
    lemma_at(1024, 0x10_0000_0000_0000);
    lemma_at(1024, 0x14_0000_0000_0000);
    lemma_at(1024, 0x18_0000_0000_0000);
    lemma_at(1025, 0x10_0000_0000_0000);
    lemma_pow2_adds(1024, 1);
}

/// The products of two default multipliers and a deviation that counts differ,
/// unless they overflow.
proof fn lemma_threshold_strict(i: nat, j: nat, m: Double)
    requires
        i == 4 && j == 5 || i == 5 && j == 6 || i == 6 && j == 8,
        m.finite(),
        !m.parts().neg,
        Double::ratio(1, 2).at_most(m),
        Double::integer(j as int).times(m).finite(),
    ensures
        Double::integer(i as int).times(m).below(Double::integer(j as int).times(m)),
{
    reveal(Double::value);
    lemma_double_format();
    let f = binary64();
    let (a, b) = (Double::integer(i as int), Double::integer(j as int));
    lemma_small_integers(i, j);
    lemma_times_defined(a, m);
    lemma_times_defined(b, m);
    lemma_encodes(a.times(m));
    lemma_encodes(b.times(m));
    lemma_multiplier_values();
    lemma_half();
    let (ua, ub, um, p, one) = (
        f.units(a.parts()),
        f.units(b.parts()),
        f.units(m.parts()),
        pow2(1024),
        f.one(),
    );
    lemma_pow2_pos(1024);
    lemma_pow2_pos(1074);
    assert(6 * ua <= 5 * ub);
    assert(6 * (ua * um) <= 5 * (ub * um)) by (nonlinear_arith)
        requires
            6 * ua <= 5 * ub,
    ;
    lemma_pow2_adds(1024, 50);
    lemma_pow2_adds(1024, 49);
    lemma2_to64();
    assert(ua * um >= f.h() * one) by (nonlinear_arith)
        requires
            ua >= 0x10_0000_0000_0000 * p,
            p == pow2(1024),
            um >= pow2(1073),
            pow2(1073) == p * 0x2_0000_0000_0000,
            one == p * 0x4_0000_0000_0000,
            f.h() == 0x10_0000_0000_0000,
            p >= 2,
    ;
    lemma_nearest_apart(f.h(), f.limit(), ua * um, ub * um, one);
    lemma_magnitude_increases(
        f.h(),
        a.times(m).parts().mag as nat,
        b.times(m).parts().mag as nat,
    );
}

/// A half in units of the smallest number.
pub proof fn lemma_half()
    ensures
        Double::ratio(1, 2).value() == pow2(1073),
        pow2(1024) >= 2,
        pow2(1073) == pow2(1024) * 0x2_0000_0000_0000,
        pow2(1074) == pow2(1024) * 0x4_0000_0000_0000,
{
    lemma2_to64();
    lemma2_to64_rest();
    lemma_pow2_adds(1024, 49);
    lemma_pow2_adds(1024, 50);
    lemma_pow2_strictly_increases(1, 1024);
    lemma_binary_fraction(1);
}

/// Filters that were fed the same rates have the same history, whatever the modes
/// were.
pub proof fn lemma_modes_share_history(
    filters: Seq<SpikeFilter>,
    others: Seq<SpikeFilter>,
    samples: Seq<(Double, FilterMode)>,
    other_samples: Seq<(Double, FilterMode)>,
    results: Seq<FilterResult>,
    other_results: Seq<FilterResult>,
    n: int,
)
    requires
        filtered_all(filters, samples, results),
        filtered_all(others, other_samples, other_results),
        samples.len() == other_samples.len(),
        forall|i: int| 0 <= i < samples.len() ==> (#[trigger] samples[i]).0 == other_samples[i].0,
        alike_history(filters[0], others[0]),
        0 <= n <= samples.len(),
    ensures
        alike_history(filters[n], others[n]),
    decreases n,
{
    if n > 0 {
        lemma_modes_share_history(
            filters,
            others,
            samples,
            other_samples,
            results,
            other_results,
            n - 1,
        );
        let i = n - 1;
        assert(samples[i].0 == other_samples[i].0);
        assert(filtered(filters[i], samples[i].0, samples[i].1, filters[i + 1], results[i]));
        assert(filtered(
            others[i],
            other_samples[i].0,
            other_samples[i].1,
            others[i + 1],
            other_results[i],
        ));
    }
}

/// The mode scales the threshold and nothing else: of two filters with the same
/// history, median, MAD and deviation are the same in every mode, and so is the
/// history after the sample. A later mode has a larger threshold, unless it
/// overflows, and finds no spike that an earlier one does not find.
pub proof fn lemma_mode_scales_threshold(
    f: SpikeFilter,
    g: SpikeFilter,
    raw_rate: Double,
    earlier: FilterMode,
    later: FilterMode,
)
    requires
        f.wf(),
        usual_multipliers(f),
        alike_history(f, g),
        rank(earlier) < rank(later),
        !f.warming(raw_rate),
        all_numbers(f.window_after(raw_rate)),
        median_value(f.window_after(raw_rate)).finite(),
    ensures
        ({
            let (r, q) = (f.verdict(raw_rate, earlier), g.verdict(raw_rate, later));
            &&& f.window_after(raw_rate) == g.window_after(raw_rate)
            &&& r.median == q.median && r.mad == q.mad && r.deviation == q.deviation
            &&& r.threshold.at_most(q.threshold)
            &&& q.threshold.finite() ==> r.threshold.below(q.threshold)
            &&& q.is_spike ==> r.is_spike
        }),
{
    reveal(Double::value);
    lemma_double_format();
    let window = f.window_after(raw_rate);
    lemma_thresholds_increase(f, window);
    let m = median_deviation(window).larger(f.min_mad);
    lemma_counted_deviation(f, window);
    if f.threshold(window, later).finite() {
        if m.finite() {
            if rank(later) >= 1 && f.threshold(window, FilterMode::Prod).finite() {
                lemma_threshold_strict(4, 5, m);
            }
            if rank(later) >= 2 && f.threshold(window, FilterMode::Lock).finite() {
                lemma_threshold_strict(5, 6, m);
            }
            if rank(later) >= 3 && f.threshold(window, FilterMode::Nano).finite() {
                lemma_threshold_strict(6, 8, m);
            }
            lemma_threshold_chain(f, window, later);
        } else {
            lemma_small_integers(4, 5);
            lemma_small_integers(6, 8);
            lemma_infinite_factor(f.multiplier(later), m);
        }
    }
}

/// However quiet the window is, the threshold of a filter with the default
/// multipliers is at least that of the least MAD that counts.
pub proof fn lemma_threshold_floor(f: SpikeFilter, window: Seq<Double>, mode: FilterMode)
    requires
        f.wf(),
        f.k_acq == Double::integer(4),
        f.k_prod == Double::integer(5),
        f.k_lock == Double::integer(6),
        f.k_nano == Double::integer(8),
        f.min_mad == Double::ratio(1, 2),
        window.len() > 0,
        all_numbers(window),
        median_value(window).finite(),
    ensures
        f.multiplier(mode).times(f.min_mad).at_most(f.threshold(window, mode)),
{
    lemma_double_format();
    reveal(Double::value);
    let median = median_value(window);
    let d = deviations(window, median);
    lemma_middle(value_keys(window));
    lemma_middle(value_keys(d));
    let i = crate::order::middle(value_keys(d));
    lemma_negated(median);
    lemma_plus_defined(window[i], median.negated());
    lemma_absolute(window[i].minus(median));
    lemma_encodes(window[i].minus(median));
    lemma_parts_of(Parts { neg: false, mag: window[i].minus(median).parts().mag });
    lemma_ratio(1, 2);
    lemma_ratio_finite(1, 2);
    lemma_small_integers(4, 5);
    lemma_small_integers(6, 8);
    let m = median_deviation(window).larger(f.min_mad);
    let k = f.multiplier(mode);
    if m.finite() {
        lemma_times_monotone(k, k, f.min_mad, m);
    } else {
        lemma_infinite_factor(k, m);
        lemma_times_defined(k, f.min_mad);
        lemma_below_infinity(k.times(f.min_mad), k.times(m));
    }
}

/// Nothing exceeds infinity.
proof fn lemma_below_infinity(a: Double, i: Double)
    requires
        !a.nan(),
        i.parts() == (Parts { neg: false, mag: binary64().limit() as u64 }),
    ensures
        a.at_most(i),
{
    lemma_double_format();
    reveal(Double::value);
    let h = binary64().h();
    if a.parts().mag < binary64().limit() {
        lemma_magnitude_increases(h, a.parts().mag as nat, binary64().limit());
    }
}

/// Small positive integers are positive numbers in their order.
proof fn lemma_small_integers(a: nat, b: nat)
    requires
        0 < a <= b <= 1000,
    ensures
        Double::integer(a as int).at_most(Double::integer(b as int)),
        Double::integer(a as int).finite(),
        Double::integer(b as int).finite(),
        !Double::integer(a as int).parts().neg,
        !Double::integer(b as int).parts().neg,
        Double::integer(a as int).parts().mag > 0,
        Double::integer(b as int).parts().mag > 0,
{
    lemma_ratio(a as int, 1);
    lemma_ratio(b as int, 1);
    lemma_ratio_finite(a as int, 1);
    lemma_ratio_finite(b as int, 1);
    lemma_ratio_order(a, 1, b, 1);
    crate::ieee::laws::lemma_integer_positive(a);
    crate::ieee::laws::lemma_integer_positive(b);
}

/// Jitter estimator for adaptive smoothing.
///
/// Measures the standard deviation of drift rate samples to detect high-jitter
/// systems and lowers the smoothing factor there.
#[derive(Debug)]
pub struct JitterEstimator {
    /// Rolling window of rate samples, oldest first.
    pub rate_history: VecDeque<Double>,
    /// Maximum window size.
    pub window_size: usize,
    /// Minimum samples before the estimate is valid.
    pub min_samples: usize,
    /// Jitter up to which the smoothing is normal (us/s).
    pub jitter_low: Double,
    /// Jitter from which the smoothing is heaviest (us/s).
    pub jitter_high: Double,
    /// Smoothing factor at low jitter.
    pub alpha_normal: Double,
    /// Smoothing factor at high jitter.
    pub alpha_smooth: Double,
    /// Last computed jitter.
    pub last_jitter: Double,
    /// Last computed smoothing factor.
    pub last_alpha: Double,
}

/// The sum of some numbers, added up from the first on.
pub open spec fn total(s: Seq<Double>) -> Double
    decreases s.len(),
{
    if s.len() == 0 {
        Double::zero()
    } else {
        total(s.drop_last()).plus(s.last())
    }
}

/// The mean of some numbers.
pub open spec fn mean(s: Seq<Double>) -> Double {
    total(s).over(Double::integer(s.len() as int))
}

/// The squared distances from a centre.
pub open spec fn squares(s: Seq<Double>, centre: Double) -> Seq<Double> {
    s.map_values(|x: Double| x.minus(centre).times(x.minus(centre)))
}

/// The standard deviation of some numbers, zero for none.
pub open spec fn standard_deviation(s: Seq<Double>) -> Double {
    if s.len() == 0 {
        Double::zero()
    } else {
        mean(squares(s, mean(s))).root()
    }
}

/// Adds up the numbers of a window.
fn sum(v: &Vec<Double>) -> (r: Double)
    ensures
        r == total(v@),
{
    let mut acc = Double::from_bits(0);
    let mut i: usize = 0;
    assert(v@.take(0) == Seq::<Double>::empty());
    while i < v.len()
        invariant
            i <= v.len(),
            acc == total(v@.take(i as int)),
        decreases v.len() - i,
    {
        assert(v@.take(i + 1).drop_last() == v@.take(i as int));
        acc = acc.add(v[i]);
        i = i + 1;
    }
    assert(v@.take(v.len() as int) == v@);
    acc
}

/// Jitter estimator with a mathematical window.
#[verifier::ext_equal]
pub struct Jitter {
    pub window: Seq<Double>,
    pub window_size: usize,
    pub min_samples: usize,
    pub jitter_low: Double,
    pub jitter_high: Double,
    pub alpha_normal: Double,
    pub alpha_smooth: Double,
    pub last_jitter: Double,
    pub last_alpha: Double,
}

impl Jitter {
    /// The window is within its size.
    pub open spec fn wf(self) -> bool {
        self.window.len() <= self.window_size < usize::MAX
    }

    /// The usual smoothing factors, and nothing measured yet.
    pub open spec fn fresh(
        window_size: usize,
        min_samples: usize,
        jitter_low: Double,
        jitter_high: Double,
    ) -> Jitter {
        Jitter {
            window: Seq::empty(),
            window_size,
            min_samples,
            jitter_low,
            jitter_high,
            alpha_normal: Double::ratio(3, 10),
            alpha_smooth: Double::ratio(1, 10),
            last_jitter: Double::zero(),
            last_alpha: Double::ratio(3, 10),
        }
    }

    /// The smoothing factor for a jitter level.
    pub open spec fn alpha(self, jitter: Double) -> Double {
        if jitter.at_most(self.jitter_low) {
            self.alpha_normal
        } else if self.jitter_high.at_most(jitter) {
            self.alpha_smooth
        } else {
            let t = jitter.minus(self.jitter_low).over(self.jitter_high.minus(self.jitter_low));
            self.alpha_normal.minus(t.times(self.alpha_normal.minus(self.alpha_smooth)))
        }
    }

    /// The window after a sample.
    pub open spec fn window_after(self, rate: Double) -> Seq<Double> {
        slid(self.window, rate, self.window_size as nat)
    }

    /// The smoothing factor for a window: the normal one while it is small.
    pub open spec fn factor(self, window: Seq<Double>) -> Double {
        if window.len() < self.min_samples {
            self.alpha_normal
        } else {
            self.alpha(standard_deviation(window))
        }
    }

    /// The smoothing factor to use for a sample.
    pub open spec fn answer(self, rate: Double) -> Double {
        self.factor(self.window_after(rate))
    }

    /// The estimator after a sample.
    pub open spec fn after(self, rate: Double) -> Jitter {
        let window = self.window_after(rate);
        Jitter {
            window,
            last_jitter: if window.len() < self.min_samples {
                self.last_jitter
            } else {
                standard_deviation(window)
            },
            last_alpha: self.factor(window),
            ..self
        }
    }
}

impl View for JitterEstimator {
    type V = Jitter;

    open spec fn view(&self) -> Jitter {
        Jitter {
            window: self.rate_history@,
            window_size: self.window_size,
            min_samples: self.min_samples,
            jitter_low: self.jitter_low,
            jitter_high: self.jitter_high,
            alpha_normal: self.alpha_normal,
            alpha_smooth: self.alpha_smooth,
            last_jitter: self.last_jitter,
            last_alpha: self.last_alpha,
        }
    }
}

impl JitterEstimator {
    pub open spec fn wf(&self) -> bool {
        self@.wf()
    }

    /// An estimator with default parameters.
    pub fn new() -> (r: JitterEstimator)
        ensures
            r.wf(),
            r@ == Jitter::fresh(30, 15, Double::integer(2), Double::integer(8)),
    {
        JitterEstimator::with_params(30, 15, Double::from_i64(2), Double::from_i64(8))
    }

    /// An estimator with a window and jitter levels of its own.
    pub fn with_params(
        window_size: usize,
        min_samples: usize,
        jitter_low: Double,
        jitter_high: Double,
    ) -> (r: JitterEstimator)
        requires
            window_size < usize::MAX,
        ensures
            r.wf(),
            r@ == Jitter::fresh(window_size, min_samples, jitter_low, jitter_high),
    {
        JitterEstimator {
            rate_history: VecDeque::new(),
            window_size,
            min_samples,
            jitter_low,
            jitter_high,
            alpha_normal: Double::from_ratio(3, 10),
            alpha_smooth: Double::from_ratio(1, 10),
            last_jitter: Double::from_bits(0),
            last_alpha: Double::from_ratio(3, 10),
        }
    }

    /// Adds a rate sample and returns the smoothing factor to use for it.
    pub fn add_sample(&mut self, rate: Double) -> (r: Double)
        requires
            old(self).wf(),
        ensures
            final(self).wf(),
            final(self)@ == old(self)@.after(rate),
            r == old(self)@.answer(rate),
    {
        let ghost before = self@;
        self.rate_history.push_back(rate);
        if self.rate_history.len() > self.window_size {
            let _ = self.rate_history.pop_front();
        }
        assert(self.rate_history@ == before.window_after(rate));
        if self.rate_history.len() < self.min_samples {
            self.last_alpha = self.alpha_normal;
            return self.alpha_normal;
        }
        let jitter = self.calculate_stddev();
        self.last_jitter = jitter;
        let alpha = self.compute_alpha(jitter);
        self.last_alpha = alpha;
        alpha
    }

    /// Standard deviation of the samples in the window.
    fn calculate_stddev(&self) -> (r: Double)
        ensures
            r == standard_deviation(self.rate_history@),
    {
        if self.rate_history.len() == 0 {
            return Double::from_bits(0);
        }
        let ghost window = self.rate_history@;
        let mut samples: Vec<Double> = Vec::new();
        let mut i: usize = 0;
        while i < self.rate_history.len()
            invariant
                window == self.rate_history@,
                i <= window.len(),
                samples@ == window.take(i as int),
            decreases window.len() - i,
        {
            samples.push(self.rate_history[i]);
            i = i + 1;
        }
        assert(samples@ == window);
        let n = Double::from_u64(samples.len() as u64);
        let centre = sum(&samples).div(n);
        let mut terms: Vec<Double> = Vec::new();
        let mut j: usize = 0;
        while j < samples.len()
            invariant
                samples@ == window,
                j <= window.len(),
                terms@ == squares(window, centre).take(j as int),
            decreases window.len() - j,
        {
            let d = samples[j].sub(centre);
            terms.push(d.mul(d));
            assert(terms@ == squares(window, centre).take(j + 1));
            j = j + 1;
        }
        assert(terms@ == squares(window, centre));
        sum(&terms).div(n).sqrt()
    }

    /// The smoothing factor for a jitter level: the normal one at low jitter, the
    /// smooth one at high jitter, interpolated between.
    fn compute_alpha(&self, jitter: Double) -> (r: Double)
        ensures
            r == self@.alpha(jitter),
    {
        if jitter.le(self.jitter_low) {
            self.alpha_normal
        } else if self.jitter_high.le(jitter) {
            self.alpha_smooth
        } else {
            let t = jitter.sub(self.jitter_low).div(self.jitter_high.sub(self.jitter_low));
            self.alpha_normal.sub(t.mul(self.alpha_normal.sub(self.alpha_smooth)))
        }
    }

    /// Last computed jitter.
    pub fn last_jitter(&self) -> (r: Double)
        ensures
            r == self.last_jitter,
    {
        self.last_jitter
    }

    /// Last computed smoothing factor.
    pub fn last_alpha(&self) -> (r: Double)
        ensures
            r == self.last_alpha,
    {
        self.last_alpha
    }

    /// Clears the history.
    pub fn clear(&mut self)
        requires
            old(self).wf(),
        ensures
            final(self).wf(),
            final(self)@ == (Jitter {
                window: Seq::empty(),
                last_jitter: Double::zero(),
                last_alpha: old(self).alpha_normal,
                ..old(self)@
            }),
    {
        self.rate_history.clear();
        self.last_jitter = Double::from_bits(0);
        self.last_alpha = self.alpha_normal;
    }

    /// Current number of samples in the window.
    pub fn sample_count(&self) -> (r: usize)
        ensures
            r == self.rate_history@.len(),
    {
        self.rate_history.len()
    }
}

impl Default for JitterEstimator {
    fn default() -> (r: JitterEstimator)
        ensures
            r.wf(),
            r@ == Jitter::fresh(30, 15, Double::integer(2), Double::integer(8)),
    {
        JitterEstimator::new()
    }
}

/// The smoothing factor between the jitter levels of a fresh estimator.
pub proof fn lemma_alpha_between(j: Double, e: Jitter)
    requires
        usual(e),
        !j.nan(),
        e.jitter_low.below(j),
        j.below(e.jitter_high),
    ensures
        ({
            let x = j.minus(e.jitter_low);
            let t = x.over(e.jitter_high.minus(e.jitter_low));
            let y = t.times(e.alpha_normal.minus(e.alpha_smooth));
            &&& j.finite()
            &&& x.finite() && !x.parts().neg
            &&& t.finite() && !t.parts().neg
            &&& y.finite() && !y.parts().neg
            &&& e.alpha(j) == e.alpha_normal.minus(y)
            &&& e.alpha_smooth.at_most(e.alpha(j))
            &&& e.alpha(j).at_most(e.alpha_normal)
        }),
{
    reveal(Double::value);
    lemma_double_format();
    let (lo, hi) = (e.jitter_low, e.jitter_high);
    lemma_small_integers(2, 8);
    lemma_between_finite(lo, j, hi);
    let d = e.alpha_normal.minus(e.alpha_smooth);
    lemma_tenths_difference();
    let x = j.minus(lo);
    let c = hi.minus(lo);
    lemma_levels();
    lemma_negated(lo);
    // The offset from the lower level lies between nothing and the width.
    lemma_plus_monotone(lo.negated(), lo, j);
    lemma_plus_monotone(lo.negated(), j, hi);
    lemma_plus_commutes(lo.negated(), lo);
    lemma_plus_commutes(lo.negated(), j);
    lemma_plus_commutes(lo.negated(), hi);
    let z = lo.minus(lo);
    assert(z.value() == 0 && z.finite());
    lemma_between_finite(z, x, c);
    lemma_positive_difference(lo, j);
    // Its share of the width lies between 0 and 1.
    lemma_over_monotone(x, c, c);
    let t = x.over(c);
    lemma_over_defined(x, c);
    let one = Double::integer(1);
    lemma_ratio(1, 1);
    lemma_ratio_finite(1, 1);
    lemma_zero();
    lemma_over_finite(x, c);
    // The share of the difference is not more than the difference.
    lemma_times_monotone(t, one, d, d);
    lemma_times_one(d);
    lemma_times_defined(t, d);
    let y = t.times(d);
    lemma_between_finite(Double::zero(), y, d);
    // So the factor lies between the two.
    lemma_negated(y);
    lemma_negated(d);
    lemma_plus_monotone(e.alpha_normal, d.negated(), y.negated());
    let nothing = Double { bits: 0x8000_0000_0000_0000 };
    assert(nothing.parts() == (Parts { neg: true, mag: 0 }));
    lemma_plus_monotone(e.alpha_normal, y.negated(), nothing);
    lemma_plus_nothing(e.alpha_normal, nothing);
}

/// The levels and factors of an estimator are the usual ones.
pub open spec fn usual(e: Jitter) -> bool {
    &&& e.jitter_low == Double::integer(2)
    &&& e.jitter_high == Double::integer(8)
    &&& e.alpha_normal == Double::ratio(3, 10)
    &&& e.alpha_smooth == Double::ratio(1, 10)
}

/// The smoothing factor lies between those for high and for low jitter.
pub proof fn lemma_alpha_range(e: Jitter, jitter: Double)
    requires
        usual(e),
        !jitter.nan(),
    ensures
        e.alpha_smooth.at_most(e.alpha(jitter)),
        e.alpha(jitter).at_most(e.alpha_normal),
{
    reveal(Double::value);
    lemma_tenths_difference();
    lemma_small_integers(2, 8);
    if !jitter.at_most(e.jitter_low) && !e.jitter_high.at_most(jitter) {
        lemma_alpha_between(jitter, e);
    }
}

/// More jitter never gives a larger smoothing factor.
pub proof fn lemma_alpha_falls(e: Jitter, a: Double, b: Double)
    requires
        usual(e),
        a.at_most(b),
    ensures
        e.alpha(b).at_most(e.alpha(a)),
{
    reveal(Double::value);
    lemma_small_integers(2, 8);
    lemma_alpha_range(e, a);
    lemma_alpha_range(e, b);
    lemma_tenths_difference();
    let (lo, hi) = (e.jitter_low, e.jitter_high);
    if !a.at_most(lo) && !hi.at_most(a) && !b.at_most(lo) && !hi.at_most(b) {
        lemma_alpha_between(a, e);
        lemma_alpha_between(b, e);
        let c = hi.minus(lo);
        let d = e.alpha_normal.minus(e.alpha_smooth);
        let (x, y) = (a.minus(lo), b.minus(lo));
        lemma_levels();
        lemma_negated(lo);
        lemma_plus_monotone(lo.negated(), a, b);
        lemma_plus_commutes(lo.negated(), a);
        lemma_plus_commutes(lo.negated(), b);
        lemma_over_monotone(x, y, c);
        lemma_times_monotone(x.over(c), y.over(c), d, d);
        let (u, v) = (x.over(c).times(d), y.over(c).times(d));
        lemma_negated(u);
        lemma_negated(v);
        lemma_plus_monotone(e.alpha_normal, v.negated(), u.negated());
    }
}

/// The width between the usual jitter levels is a positive number.
proof fn lemma_levels()
    ensures
        ({
            let lo = Double::integer(2);
            let c = Double::integer(8).minus(lo);
            &&& c.finite()
            &&& !c.parts().neg
            &&& c.parts().mag > 0
            &&& lo.minus(lo).value() == 0
            &&& lo.minus(lo).finite()
        }),
{
    lemma_double_format();
    reveal(Double::value);
    let (lo, hi) = (Double::integer(2), Double::integer(8));
    lemma2_to64();
    lemma2_to64_rest();
    lemma_integer_at(2, 1023, 0x10_0000_0000_0000, 51);
    lemma_integer_at(8, 1025, 0x10_0000_0000_0000, 49);
    lemma_at(1023, 0x10_0000_0000_0000);
    lemma_at(1025, 0x10_0000_0000_0000);
    lemma_at(1024, 0x18_0000_0000_0000);
    lemma_pow2_adds(1023, 1);
    lemma_pow2_adds(1023, 2);
    lemma_pow2_pos(1023);
    let p = pow2(1023);
    lemma_negated(lo);
    lemma_plus_value(hi, lo.negated());
    assert(hi.value() + lo.negated().value() == 0x30_0000_0000_0000 * p);
    assert(0x18_0000_0000_0000 * pow2(1024) == 0x30_0000_0000_0000 * p);
    let c = hi.minus(lo);
    lemma_encodes(c);
    assert(c.value() > 0);
    lemma_plus_value(lo, lo.negated());
    lemma_nearest_zero(binary64(), 1);
}

/// A difference of a number and a smaller one has no sign.
proof fn lemma_positive_difference(a: Double, b: Double)
    requires
        a.finite(),
        b.finite(),
        a.below(b),
    ensures
        !b.minus(a).parts().neg,
{
    reveal(Double::value);
    reveal(Double::plus);
    lemma_double_format();
    lemma_negated(a);
    lemma_encodes(a);
    lemma_parts_of(Parts { neg: !a.parts().neg, mag: a.parts().mag });
    let f = binary64();
    let s = f.value(b.parts()) + f.value(a.negated().parts());
    lemma_nearest_encodes(false, magnitude_of_int(s), 1);
    lemma_parts_of(f.plus(b.parts(), a.negated().parts()));
}

/// A number divided by one that is not less is finite.
proof fn lemma_over_finite(a: Double, c: Double)
    requires
        a.finite(),
        c.finite(),
        !a.parts().neg,
        !c.parts().neg,
        c.parts().mag > 0,
        a.at_most(c),
    ensures
        a.over(c).finite(),
        !a.over(c).parts().neg,
        a.over(c).at_most(Double::integer(1)),
{
    reveal(Double::value);
    lemma_double_format();
    lemma_over_monotone(a, c, c);
    lemma_over_defined(a, c);
    lemma_ratio(1, 1);
    lemma_ratio_finite(1, 1);
    lemma_zero();
    lemma_between_finite(Double::zero(), a.over(c), Double::integer(1));
}

/// The sum of tame numbers is tame.
proof fn lemma_total_tame(s: Seq<Double>, k: nat)
    requires
        k + s.len() <= 1000,
        forall|i: int| 0 <= i < s.len() ==> tame(#[trigger] s[i], k),
    ensures
        tame(total(s), k + s.len()),
    decreases s.len(),
{
    if s.len() == 0 {
        lemma_zero();
        lemma_pow2_pos(1074 + k);
    } else {
        let t = s.drop_last();
        assert forall|i: int| 0 <= i < t.len() implies tame(#[trigger] t[i], k) by {
            assert(t[i] == s[i]);
        }
        lemma_total_tame(t, k);
        assert(tame(s[s.len() - 1], k));
        lemma_tame_wider(s.last(), k, k + t.len());
        lemma_tame_plus(total(t), s.last(), k + t.len());
    }
}

/// The sum of numbers without a sign has none.
proof fn lemma_total_sign(s: Seq<Double>)
    requires
        forall|i: int| 0 <= i < s.len() ==> !(#[trigger] s[i]).parts().neg && s[i].finite(),
        forall|n: int| 0 <= n <= s.len() ==> (#[trigger] total(s.take(n))).finite(),
    ensures
        !total(s).parts().neg,
    decreases s.len(),
{
    lemma_double_format();
    if s.len() > 0 {
        let t = s.drop_last();
        assert forall|i: int| 0 <= i < t.len() implies !(#[trigger] t[i]).parts().neg
            && t[i].finite() by {
            assert(t[i] == s[i]);
        }
        assert forall|n: int| 0 <= n <= t.len() implies (#[trigger] total(t.take(n))).finite() by {
            assert(t.take(n) == s.take(n));
        }
        lemma_total_sign(t);
        assert(s.take(t.len() as int) == t);
        assert(!s[s.len() - 1].parts().neg);
        reveal(Double::plus);
        let f = binary64();
        let (a, b) = (total(t).parts(), s.last().parts());
        lemma_nearest_encodes(false, magnitude_of_int(f.value(a) + f.value(b)), 1);
        lemma_parts_of(f.plus(a, b));
    }
}

/// The standard deviation of tame numbers is a number.
pub proof fn lemma_deviation_number(s: Seq<Double>, k: nat)
    requires
        s.len() <= 100,
        k <= 100,
        forall|i: int| 0 <= i < s.len() ==> tame(#[trigger] s[i], k),
    ensures
        !standard_deviation(s).nan(),
{
    if s.len() == 0 {
        lemma_zero();
    } else {
        let n = s.len();
        let l = k + n;
        lemma_total_tame(s, k);
        lemma_tame_over(total(s), n, l);
        let m = mean(s);
        lemma_negated(m);
        let q = squares(s, m);
        assert forall|i: int| 0 <= i < q.len() implies tame(#[trigger] q[i], 2 * (l + 1))
            && !q[i].parts().neg by {
            assert(tame(s[i], k));
            lemma_tame_wider(s[i], k, l);
            lemma_tame_plus(s[i], m.negated(), l);
            let d = s[i].minus(m);
            lemma_tame_times(d, d, l + 1, l + 1);
            lemma_times_defined(d, d);
        }
        lemma_total_tame(q, 2 * (l + 1));
        assert forall|j: int| 0 <= j <= q.len() implies (#[trigger] total(q.take(j))).finite() by {
            let t = q.take(j);
            assert forall|i: int| 0 <= i < t.len() implies tame(#[trigger] t[i], 2 * (l + 1)) by {
                assert(t[i] == q[i]);
            }
            lemma_total_tame(t, 2 * (l + 1));
        }
        lemma_total_sign(q);
        lemma_tame_over(total(q), n, 2 * (l + 1) + n);
        lemma_root_number(mean(q), 2 * (l + 1) + n);
    }
}

/// The numbers with their signs changed.
pub open spec fn negations(s: Seq<Double>) -> Seq<Double> {
    s.map_values(|x: Double| x.negated())
}

/// The distances from the mean.
pub open spec fn distances(s: Seq<Double>) -> Seq<Double> {
    s.map_values(|x: Double| x.minus(mean(s)))
}

impl Jitter {
    /// The estimator that has seen every rate with the other sign.
    pub open spec fn mirrored(self) -> Jitter {
        Jitter { window: negations(self.window), ..self }
    }

    /// The estimator after some samples.
    pub open spec fn fed(self, rates: Seq<Double>) -> Jitter
        decreases rates.len(),
    {
        if rates.len() == 0 {
            self
        } else {
            self.fed(rates.drop_last()).after(rates.last())
        }
    }
}

/// Sums of mirrored numbers mirror each other.
proof fn lemma_mirror_total(s: Seq<Double>)
    ensures
        mirror(total(s), total(negations(s))),
    decreases s.len(),
{
    if s.len() == 0 {
        lemma_zero();
    } else {
        lemma_mirror_total(s.drop_last());
        lemma_mirror_negated(s.last());
        assert(negations(s).drop_last() =~= negations(s.drop_last()));
        lemma_mirror_plus(
            total(s.drop_last()),
            s.last(),
            total(negations(s).drop_last()),
            negations(s).last(),
        );
    }
}

/// The standard deviation does not depend on the sign.
pub proof fn lemma_mirror_deviation(s: Seq<Double>)
    requires
        s.len() < 0x20_0000_0000_0000,
    ensures
        standard_deviation(negations(s)) == standard_deviation(s),
{
    let t = negations(s);
    if s.len() > 0 {
        let n = Double::integer(s.len() as int);
        lemma_integer_exact(s.len() as int);
        lemma_mirror_total(s);
        lemma_mirror_over(total(s), total(t), n);
        assert forall|i: int| 0 <= i < s.len() implies #[trigger] squares(s, mean(s))[i] == squares(
            t,
            mean(t),
        )[i] by {
            lemma_mirror_negated(s[i]);
            lemma_mirror_minus(s[i], mean(s), t[i], mean(t));
            lemma_mirror_square(s[i].minus(mean(s)), t[i].minus(mean(t)));
        }
        assert(squares(s, mean(s)) =~= squares(t, mean(t)));
    }
}

/// The jitter and the smoothing factor do not depend on which way the clock drifts:
/// an estimator fed with the negated rates finds the same jitter and answers with
/// the same factors, sample by sample.
pub proof fn lemma_sign_is_no_jitter(e: Jitter, rates: Seq<Double>)
    requires
        e.wf(),
        e.window_size < 0x10_0000_0000_0000,
    ensures
        e.fed(rates).wf(),
        e.fed(rates).window_size == e.window_size,
        e.mirrored().fed(negations(rates)) == e.fed(rates).mirrored(),
        e.mirrored().fed(negations(rates)).last_alpha == e.fed(rates).last_alpha,
        e.mirrored().fed(negations(rates)).last_jitter == e.fed(rates).last_jitter,
    decreases rates.len(),
{
    if rates.len() > 0 {
        let (earlier, rate) = (rates.drop_last(), rates.last());
        lemma_sign_is_no_jitter(e, earlier);
        assert(negations(rates).drop_last() =~= negations(earlier));
        let f = e.fed(earlier);
        let window = f.window_after(rate);
        assert(f.mirrored().window_after(rate.negated()) =~= negations(window));
        lemma_mirror_deviation(window);
        assert(f.mirrored().after(rate.negated()) =~= f.after(rate).mirrored());
    }
}

/// The jitter and the smoothing factor depend on how far the rates lie from their
/// mean, and on nothing else: a constant drift on top of them does not count, as
/// far as it is added without rounding.
pub proof fn lemma_drift_is_no_jitter(e: Jitter, window: Seq<Double>, other: Seq<Double>)
    requires
        distances(window) == distances(other),
    ensures
        standard_deviation(window) == standard_deviation(other),
        e.factor(window) == e.factor(other),
{
    assert(distances(window).len() == window.len());
    assert(distances(other).len() == other.len());
    assert forall|i: int| 0 <= i < window.len() implies #[trigger] squares(
        window,
        mean(window),
    )[i] == squares(other, mean(other))[i] by {
        assert(distances(window)[i] == window[i].minus(mean(window)));
        assert(distances(other)[i] == other[i].minus(mean(other)));
    }
    assert(squares(window, mean(window)) =~= squares(other, mean(other)));
}

/// The sum of equal integers.
pub proof fn lemma_total_of_equals(s: Seq<Double>, r: int)
    requires
        forall|i: int| 0 <= i < s.len() ==> #[trigger] s[i] == Double::integer(r),
        -0x20_0000_0000_0000 < r < 0x20_0000_0000_0000,
        -0x20_0000_0000_0000 < r * s.len() < 0x20_0000_0000_0000,
    ensures
        total(s) == Double::integer(r * s.len()),
    decreases s.len(),
{
    let n = s.len();
    if n == 0 {
        lemma_no_integer();
        assert(r * 0 == 0);
    } else {
        assert(r * n == r * (n - 1) + r) by (nonlinear_arith);
        assert(-0x20_0000_0000_0000 < r * (n - 1) < 0x20_0000_0000_0000) by (nonlinear_arith)
            requires
                r * n == r * (n - 1) + r,
                n >= 1,
                -0x20_0000_0000_0000 < r * n < 0x20_0000_0000_0000,
        ;
        lemma_total_of_equals(s.drop_last(), r);
        lemma_integers_plus(r * (n - 1), r);
    }
}

/// Zero as an integer.
pub proof fn lemma_no_integer()
    ensures
        Double::integer(0) == Double::zero(),
{
    lemma_double_format();
    lemma_integer_exact(0);
    lemma_encodes(Double::integer(0));
}

/// A steady drift of a whole number of us/s has no jitter at all, and the smoothing
/// stays normal.
pub proof fn lemma_steady_drift(e: Jitter, window: Seq<Double>, r: int)
    requires
        window.len() > 0,
        forall|i: int| 0 <= i < window.len() ==> #[trigger] window[i] == Double::integer(r),
        -0x20_0000_0000_0000 < r < 0x20_0000_0000_0000,
        window.len() < 0x20_0000_0000_0000,
        -0x20_0000_0000_0000 < r * window.len() < 0x20_0000_0000_0000,
        Double::zero().at_most(e.jitter_low),
    ensures
        standard_deviation(window) == Double::zero(),
        e.factor(window) == e.alpha_normal,
{
    let n = window.len();
    let s = squares(window, mean(window));
    lemma_total_of_equals(window, r);
    lemma_integers_over(r, n);
    lemma_integers_minus(r, r);
    lemma_no_integer();
    lemma_zero();
    let z = Double::zero();
    assert(z.times(z) == z) by {
        lemma_double_format();
        lemma_times_defined(z, z);
        lemma_encodes(z.times(z));
        lemma_encodes(z);
        lemma_pow2_pos(1074);
        lemma_nearest_zero(binary64(), binary64().one());
        reveal(Double::value);
        assert(z.parts() == (Parts { neg: false, mag: 0 }));
        assert(binary64().units(z.parts()) == 0);
    }
    assert forall|i: int| 0 <= i < s.len() implies #[trigger] s[i] == Double::integer(0) by {
        assert(window[i] == Double::integer(r));
    }
    assert(0 * n == 0);
    lemma_total_of_equals(s, 0);
    lemma_integers_over(0, n);
    reveal(Double::root);
}

/// The sum of numbers between two integers lies between their multiples.
proof fn lemma_total_between(s: Seq<Double>, lo: int, hi: int)
    requires
        forall|i: int|
            0 <= i < s.len() ==> Double::integer(lo).at_most(#[trigger] s[i]) && s[i].at_most(
                Double::integer(hi),
            ),
        0 <= lo <= hi <= 1000,
        s.len() <= 1000,
    ensures
        Double::integer(lo * s.len()).at_most(total(s)),
        total(s).at_most(Double::integer(hi * s.len())),
        total(s).finite(),
    decreases s.len(),
{
    let n = s.len() as int;
    assert(0 <= lo * n <= 1_000_000 && 0 <= hi * n <= 1_000_000) by (nonlinear_arith)
        requires
            0 <= lo <= hi <= 1000,
            0 <= n <= 1000,
    ;
    lemma_integer_exact(lo * n);
    lemma_integer_exact(hi * n);
    if n == 0 {
        lemma_no_integer();
        lemma_zero();
        assert(lo * 0 == 0 && hi * 0 == 0);
    } else {
        let (t, x) = (total(s.drop_last()), s.last());
        assert(s.last() == s[n - 1]);
        lemma_total_between(s.drop_last(), lo, hi);
        assert(lo * n == lo * (n - 1) + lo && hi * n == hi * (n - 1) + hi) by (nonlinear_arith);
        assert(0 <= lo * (n - 1) && 0 <= hi * (n - 1)) by (nonlinear_arith)
            requires
                0 <= lo,
                0 <= hi,
                n >= 1,
        ;
        let (a, b) = (Double::integer(lo * (n - 1)), Double::integer(hi * (n - 1)));
        let (c, d) = (Double::integer(lo), Double::integer(hi));
        lemma_integer_exact(lo * (n - 1));
        lemma_integer_exact(hi * (n - 1));
        lemma_integer_exact(lo);
        lemma_integer_exact(hi);
        lemma_between_finite(c, x, d);
        lemma_integers_plus(lo * (n - 1), lo);
        lemma_integers_plus(hi * (n - 1), hi);
        lemma_plus_monotone(x, a, t);
        lemma_plus_monotone(x, t, b);
        lemma_plus_monotone(a, c, x);
        lemma_plus_monotone(b, x, d);
        lemma_plus_commutes(x, a);
        lemma_plus_commutes(x, t);
        lemma_plus_commutes(x, b);
        lemma_between_finite(Double::integer(lo * n), total(s), Double::integer(hi * n));
    }
}

/// The mean of numbers between two integers lies between them.
proof fn lemma_mean_between(s: Seq<Double>, lo: int, hi: int)
    requires
        forall|i: int|
            0 <= i < s.len() ==> Double::integer(lo).at_most(#[trigger] s[i]) && s[i].at_most(
                Double::integer(hi),
            ),
        0 <= lo <= hi <= 1000,
        0 < s.len() <= 1000,
        !total(s).parts().neg,
    ensures
        Double::integer(lo).at_most(mean(s)),
        mean(s).at_most(Double::integer(hi)),
        mean(s).finite(),
        !mean(s).parts().neg,
{
    let n = s.len() as int;
    lemma_total_between(s, lo, hi);
    assert(0 <= lo * n <= 1_000_000 && 0 <= hi * n <= 1_000_000) by (nonlinear_arith)
        requires
            0 <= lo <= hi <= 1000,
            0 <= n <= 1000,
    ;
    let k = Double::integer(n);
    lemma_integer_exact(n);
    lemma_integer_exact(lo);
    lemma_integer_exact(hi);
    lemma_integer_exact(lo * n);
    lemma_integer_exact(hi * n);
    lemma_integers_over(lo, n as nat);
    lemma_integers_over(hi, n as nat);
    lemma_over_monotone(Double::integer(lo * n), total(s), k);
    lemma_over_monotone(total(s), Double::integer(hi * n), k);
    lemma_between_finite(Double::integer(lo), mean(s), Double::integer(hi));
}

/// The difference of two numbers from 499 to 501 is at most two.
proof fn lemma_close_difference(x: Double, y: Double)
    requires
        Double::integer(499).at_most(x),
        x.at_most(Double::integer(501)),
        Double::integer(499).at_most(y),
        y.at_most(Double::integer(501)),
    ensures
        tame(x.minus(y), 1),
{
    let (a, b, z) = (Double::integer(499), Double::integer(501), y.negated());
    lemma_integer_exact(499);
    lemma_integer_exact(501);
    lemma_integer_exact(2);
    lemma_integer_exact(-2);
    lemma_between_finite(a, x, b);
    lemma_between_finite(a, y, b);
    lemma_negated(y);
    lemma_negated(a);
    lemma_negated(b);
    lemma_integers_minus(501, 499);
    lemma_integers_minus(499, 501);
    lemma_plus_monotone(z, a, x);
    lemma_plus_monotone(z, x, b);
    lemma_plus_monotone(b, z, a.negated());
    lemma_plus_monotone(a, b.negated(), z);
    lemma_plus_commutes(z, x);
    lemma_plus_commutes(z, a);
    lemma_plus_commutes(z, b);
    lemma_between_finite(Double::integer(-2), x.minus(y), Double::integer(2));
    lemma2_to64();
    lemma_pow2_adds(1074, 1);
}

/// Rates that all lie from 499 to 501 have a jitter of at most two.
pub proof fn lemma_close_rates(window: Seq<Double>)
    requires
        0 < window.len() <= 1000,
        forall|i: int|
            0 <= i < window.len() ==> Double::integer(499).at_most(#[trigger] window[i])
                && window[i].at_most(Double::integer(501)),
    ensures
        standard_deviation(window).at_most(Double::integer(2)),
{
    reveal(Double::value);
    lemma_double_format();
    let s = squares(window, mean(window));
    let n = window.len() as int;
    lemma_total_between(window, 499, 501);
    assert(499 * n > 0);
    lemma_integer_exact(499 * n);
    lemma_pow2_pos(1074);
    assert((499 * n) * pow2(1074) > 0) by (nonlinear_arith)
        requires
            n > 0,
            pow2(1074) > 0,
    ;
    lemma_mean_between(window, 499, 501);
    lemma_integer_exact(4);
    lemma_no_integer();
    lemma_zero();
    lemma2_to64();
    lemma_pow2_adds(1074, 2);
    assert forall|i: int| 0 <= i < s.len() implies Double::integer(0).at_most(#[trigger] s[i])
        && s[i].at_most(Double::integer(4)) && !s[i].parts().neg && tame(s[i], 2) by {
        let d = window[i].minus(mean(window));
        lemma_close_difference(window[i], mean(window));
        lemma_tame_times(d, d, 1, 1);
        lemma_times_defined(d, d);
    }
    assert forall|j: int| 0 <= j <= s.len() implies (#[trigger] total(s.take(j))).finite() by {
        let t = s.take(j);
        assert forall|i: int| 0 <= i < t.len() implies Double::integer(0).at_most(#[trigger] t[i])
            && t[i].at_most(Double::integer(4)) by {
            assert(t[i] == s[i]);
        }
        lemma_total_between(t, 0, 4);
    }
    lemma_total_sign(s);
    lemma_mean_between(s, 0, 4);
    lemma_root_of_four(mean(s));
}

} // verus!
