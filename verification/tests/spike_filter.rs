use dantesync::ieee::double::Double;
use dantesync::spike_filter::{
    FilterMode, JitterEstimator, SpikeFilter, DEFAULT_WINDOW_SIZE, WARMUP_SAMPLES,
};

fn native(x: Double) -> f64 {
    f64::from_bits(x.to_bits())
}

fn double(x: f64) -> Double {
    Double::from_bits(x.to_bits())
}

struct Outcome {
    value: f64,
    is_spike: bool,
    threshold: f64,
    deviation: f64,
    median: f64,
    mad: f64,
}

struct Filter(SpikeFilter);

impl Filter {
    fn new() -> Self {
        Filter(SpikeFilter::new())
    }

    fn with_window_size(n: usize) -> Self {
        Filter(SpikeFilter::with_window_size(n))
    }

    fn filter(&mut self, rate: f64, mode: FilterMode) -> Outcome {
        let r = self.0.filter(double(rate), mode);
        Outcome {
            value: native(r.value),
            is_spike: r.is_spike,
            threshold: native(r.threshold),
            deviation: native(r.deviation),
            median: native(r.median),
            mad: native(r.mad),
        }
    }

    fn stats(&self) -> (u64, u64, f64) {
        let (total, rejected, ratio) = self.0.stats();
        (total, rejected, native(ratio))
    }

    fn last_stats(&self) -> (f64, f64, f64) {
        let (median, mad, threshold) = self.0.last_stats();
        (native(median), native(mad), native(threshold))
    }

    fn clear(&mut self) {
        self.0.clear();
    }

    fn window_len(&self) -> usize {
        self.0.window_len()
    }
}

struct Estimator(JitterEstimator);

impl Estimator {
    fn new() -> Self {
        Estimator(JitterEstimator::new())
    }

    fn with_params(window_size: usize, min_samples: usize, low: f64, high: f64) -> Self {
        Estimator(JitterEstimator::with_params(
            window_size,
            min_samples,
            double(low),
            double(high),
        ))
    }

    fn add_sample(&mut self, rate: f64) -> f64 {
        native(self.0.add_sample(double(rate)))
    }

    fn last_jitter(&self) -> f64 {
        native(self.0.last_jitter())
    }

    fn last_alpha(&self) -> f64 {
        native(self.0.last_alpha())
    }

    fn clear(&mut self) {
        self.0.clear();
    }

    fn sample_count(&self) -> usize {
        self.0.sample_count()
    }
}

#[test]
fn test_new_filter_defaults() {
    let filter = Filter::new();
    assert_eq!(filter.0.window_size, DEFAULT_WINDOW_SIZE);
    assert_eq!(filter.0.warmup_samples, WARMUP_SAMPLES);
    assert!((native(filter.0.min_mad) - 0.5).abs() < 0.01);
    assert_eq!(filter.0.rate_history.len(), 0);
}

#[test]
fn test_warmup_passes_through() {
    let mut filter = Filter::new();

    // During warmup (first 5 samples), all values should pass through
    for i in 0..5 {
        let result = filter.filter(i as f64 * 10.0, FilterMode::Lock);
        assert!(
            !result.is_spike,
            "Sample {} should not be marked as spike during warmup",
            i
        );
        assert!((result.value - (i as f64 * 10.0)).abs() < 0.01);
    }
}

#[test]
fn test_normal_samples_pass_through() {
    let mut filter = Filter::new();

    // Fill with normal samples around 0
    for _ in 0..20 {
        let result = filter.filter(0.5, FilterMode::Lock);
        assert!(!result.is_spike);
    }

    // A sample within normal range should pass
    let result = filter.filter(1.0, FilterMode::Lock);
    assert!(!result.is_spike);
    assert!((result.value - 1.0).abs() < 0.01);
}

#[test]
fn test_obvious_spike_rejected() {
    let mut filter = Filter::new();

    // Fill with stable samples around 0 (+-1 us/s)
    for i in 0..20 {
        let noise = (i as f64 % 3.0) - 1.0; // -1, 0, 1
        filter.filter(noise, FilterMode::Lock);
    }

    // A massive spike (+100 us/s) should be rejected
    let result = filter.filter(100.0, FilterMode::Lock);
    assert!(result.is_spike, "100 us/s spike should be detected");
    // Should be replaced with median (close to 0)
    assert!(
        result.value.abs() < 5.0,
        "Spike should be replaced with median, got {}",
        result.value
    );
}

#[test]
fn test_negative_spike_rejected() {
    let mut filter = Filter::new();

    // Fill with stable samples
    for i in 0..20 {
        filter.filter((i % 3) as f64 - 1.0, FilterMode::Lock);
    }

    // A massive negative spike should also be rejected
    let result = filter.filter(-100.0, FilterMode::Lock);
    assert!(result.is_spike);
    assert!(result.value.abs() < 5.0);
}


#[test]
fn test_acq_mode_more_permissive() {
    let mut filter_acq = Filter::new();
    let mut filter_nano = Filter::new();

    // Fill both with same stable data
    for i in 0..20 {
        let val = (i % 3) as f64 - 1.0;
        filter_acq.filter(val, FilterMode::Acq);
        filter_nano.filter(val, FilterMode::Nano);
    }

    // Moderate spike (15 us/s)
    let result_acq = filter_acq.filter(15.0, FilterMode::Acq);
    let result_nano = filter_nano.filter(15.0, FilterMode::Nano);

    // ACQ should be more permissive (lower threshold)
    // NANO should be stricter (higher threshold relative to data)
    assert!(
        result_acq.threshold < result_nano.threshold,
        "ACQ threshold {} should be < NANO threshold {}",
        result_acq.threshold,
        result_nano.threshold
    );
}

#[test]
fn test_mode_thresholds_increase() {
    let filter = Filter::new();

    // Verify k values are ordered correctly
    assert!(native(filter.0.k_acq) < native(filter.0.k_prod), "ACQ should have lowest k");
    assert!(native(filter.0.k_prod) < native(filter.0.k_lock), "PROD k < LOCK k");
    assert!(native(filter.0.k_lock) < native(filter.0.k_nano), "LOCK k < NANO k");
}


#[test]
fn test_adapts_to_noisy_system() {
    let mut filter = Filter::new();

    // Simulate noisy system with +-5 us/s variation
    for i in 0..20 {
        let noise = ((i as f64) * 1.7).sin() * 5.0;
        filter.filter(noise, FilterMode::Lock);
    }

    let (_, mad1, threshold1) = filter.last_stats();

    // Clear and simulate quieter system with +-1 us/s
    filter.clear();
    for i in 0..20 {
        let noise = ((i as f64) * 1.7).sin() * 1.0;
        filter.filter(noise, FilterMode::Lock);
    }

    let (_, mad2, threshold2) = filter.last_stats();

    // Noisy system should have higher MAD and threshold
    assert!(
        mad1 > mad2,
        "Noisy system MAD {} should be > quiet system MAD {}",
        mad1,
        mad2
    );
    assert!(
        threshold1 > threshold2,
        "Noisy system threshold should be higher"
    );
}

#[test]
fn test_min_mad_floor_prevents_over_sensitivity() {
    let mut filter = Filter::new();

    // Ultra-stable system with identical samples
    for _ in 0..20 {
        filter.filter(0.0, FilterMode::Lock);
    }

    let (_, mad, threshold) = filter.last_stats();

    // MAD should be at minimum floor
    assert!(mad >= 0.0, "MAD should be non-negative");
    // Threshold should still be meaningful
    assert!(
        threshold >= native(filter.0.k_lock) * native(filter.0.min_mad),
        "Threshold should respect min_mad floor"
    );

    // A small deviation (2 us/s) should NOT be marked as spike
    let result = filter.filter(2.0, FilterMode::Lock);
    assert!(
        !result.is_spike,
        "2 us/s should not be spike on stable system with min_mad floor"
    );
}


#[test]
fn test_consecutive_spikes_accepted_as_step() {
    let mut filter = Filter::new();

    // Fill with samples around 0
    for _ in 0..20 {
        filter.filter(0.0, FilterMode::Lock);
    }

    // Send multiple consecutive "spikes" at new level (simulating real step change)
    let mut accepted = false;
    for i in 0..10 {
        let result = filter.filter(50.0, FilterMode::Lock);
        if !result.is_spike && (result.value - 50.0).abs() < 1.0 {
            accepted = true;
            assert!(
                i >= 4,
                "Should take at least 5 consecutive before accepting, accepted at {}",
                i
            );
            break;
        }
    }

    assert!(
        accepted,
        "Consecutive spikes at same level should eventually be accepted"
    );
}

#[test]
fn test_single_spike_resets_consecutive() {
    let mut filter = Filter::new();

    // Fill with stable data
    for _ in 0..20 {
        filter.filter(0.0, FilterMode::Lock);
    }

    // Two spikes
    filter.filter(100.0, FilterMode::Lock);
    filter.filter(100.0, FilterMode::Lock);

    // Good sample (resets counter)
    filter.filter(0.0, FilterMode::Lock);

    // Two more spikes (should restart counting)
    let r1 = filter.filter(100.0, FilterMode::Lock);
    let r2 = filter.filter(100.0, FilterMode::Lock);

    // Should still be rejected (counter was reset)
    assert!(
        r1.is_spike && r2.is_spike,
        "Spikes after reset should still be rejected"
    );
}


#[test]
fn test_statistics_tracking() {
    let mut filter = Filter::new();

    // Warmup
    for _ in 0..5 {
        filter.filter(0.0, FilterMode::Lock);
    }

    // More samples
    for _ in 0..10 {
        filter.filter(0.0, FilterMode::Lock);
    }

    // One spike
    filter.filter(100.0, FilterMode::Lock);

    let (total, rejected, ratio) = filter.stats();
    assert_eq!(total, 16);
    assert_eq!(rejected, 1);
    assert!((ratio - (1.0 / 16.0 * 100.0)).abs() < 0.1);
}

#[test]
fn test_clear_resets_state() {
    let mut filter = Filter::new();

    // Add samples
    for _ in 0..20 {
        filter.filter(5.0, FilterMode::Lock);
    }

    assert_eq!(filter.window_len(), 20);

    filter.clear();

    assert_eq!(filter.window_len(), 0);
    assert_eq!(filter.0.consecutive_spikes, 0);
}


#[test]
fn test_alternating_values() {
    let mut filter = Filter::new();

    // Alternating +-2 (this is normal variation, not spikes)
    for i in 0..20 {
        let val = if i % 2 == 0 { 2.0 } else { -2.0 };
        filter.filter(val, FilterMode::Lock);
    }

    // Should NOT be marked as spike (it's the normal pattern)
    let result = filter.filter(2.0, FilterMode::Lock);
    assert!(!result.is_spike);
}

#[test]
fn test_gradually_changing_baseline() {
    let mut filter = Filter::new();

    // Slowly drifting baseline (real frequency change)
    for i in 0..30 {
        let val = i as f64 * 0.5; // 0.5 us/s per sample increase
        let result = filter.filter(val, FilterMode::Lock);

        // Gradual changes should never be spikes
        assert!(
            !result.is_spike,
            "Gradual change at sample {} should not be spike",
            i
        );
    }
}

#[test]
fn test_realistic_log_pattern() {
    let mut filter = Filter::new();

    // Simulate realistic pattern from mbc.lan logs
    let samples = [
        -0.4, 0.2, -0.2, 0.5, 1.0, 2.5, -0.7, -0.1, 3.6, -0.7, -1.2, -2.0, -3.9, 2.5, 1.8, 0.8,
        0.4, 0.3, 4.4, 11.7, // 11.7 is borderline
        -1.4, 2.3, -5.5, -4.1, -3.2, 2.0, 1.4, -2.3, -2.8, 1.5,
    ];

    let mut spike_count = 0;
    for (i, &val) in samples.iter().enumerate() {
        let result = filter.filter(val, FilterMode::Lock);
        if result.is_spike {
            spike_count += 1;
            // The only real spikes should be large outliers
            assert!(
                val.abs() > 10.0,
                "Sample {} ({}) marked as spike but < 10",
                i,
                val
            );
        }
    }

    // Should have very few spikes (maybe 1-2 for the 11.7)
    assert!(
        spike_count <= 2,
        "Too many normal samples marked as spikes: {}",
        spike_count
    );
}

#[test]
fn test_massive_spike_from_logs() {
    let mut filter = Filter::new();

    // Build up normal baseline from log data
    let baseline = [
        -0.4, 0.2, -0.2, 0.5, 1.0, 2.5, -0.7, -0.1, 3.6, -0.7, -1.2, -2.0, -3.9, 2.5, 1.8, 0.8,
        0.4, -1.7, -1.5, 0.3,
    ];

    for &val in &baseline {
        filter.filter(val, FilterMode::Lock);
    }

    // The massive +149 us/s spike from logs MUST be rejected
    let result = filter.filter(149.1, FilterMode::Lock);
    assert!(result.is_spike, "+149 us/s must be detected as spike");
    assert!(
        result.value.abs() < 10.0,
        "Spike should be replaced with median, got {}",
        result.value
    );
}

#[test]
fn test_with_window_size() {
    let filter = Filter::with_window_size(30);
    assert_eq!(filter.0.window_size, 30);

    // Minimum window size is 5
    let filter_small = Filter::with_window_size(3);
    assert_eq!(filter_small.0.window_size, WARMUP_SAMPLES); // Minimum enforced
}


#[test]
fn test_jitter_estimator_defaults() {
    let estimator = Estimator::new();
    assert_eq!(estimator.0.window_size, 30);
    assert_eq!(estimator.0.min_samples, 15);
    assert!((native(estimator.0.jitter_low) - 2.0).abs() < 0.01);
    assert!((native(estimator.0.jitter_high) - 8.0).abs() < 0.01);
    assert!((native(estimator.0.alpha_normal) - 0.3).abs() < 0.01);
    assert!((native(estimator.0.alpha_smooth) - 0.1).abs() < 0.01);
}

#[test]
fn test_jitter_warmup_uses_normal_alpha() {
    let mut estimator = Estimator::with_params(20, 10, 2.0, 8.0);

    // During warmup (< 10 samples), should return normal alpha
    for i in 0..9 {
        let alpha = estimator.add_sample(i as f64 * 5.0);
        assert!(
            (alpha - 0.3).abs() < 0.01,
            "During warmup (sample {}), alpha should be 0.3, got {}",
            i,
            alpha
        );
    }
}

#[test]
fn test_jitter_low_noise_system() {
    // Simulate strih.lan: stddev ~0.8 us/s
    let mut estimator = Estimator::with_params(20, 10, 2.0, 8.0);

    // Add samples with low variance (around 0, stddev ~0.8)
    let low_jitter_samples = [
        -0.7, 0.3, -0.5, 0.8, -0.2, 0.6, -0.8, 0.4, -0.3, 0.5, -0.6, 0.2, -0.4, 0.7, -0.1, 0.3,
        -0.5, 0.4, -0.6, 0.5,
    ];

    let mut last_alpha = 0.3;
    for &sample in &low_jitter_samples {
        last_alpha = estimator.add_sample(sample);
    }

    // Low jitter system should keep normal alpha (0.3)
    assert!(
        (last_alpha - 0.3).abs() < 0.01,
        "Low jitter system should have alpha=0.3, got {}. Jitter={}",
        last_alpha,
        estimator.last_jitter()
    );
    assert!(
        estimator.last_jitter() < 2.0,
        "Jitter should be < 2.0, got {}",
        estimator.last_jitter()
    );
}

#[test]
fn test_jitter_high_noise_system() {
    // Simulate stream.lan: stddev ~10 us/s
    let mut estimator = Estimator::with_params(20, 10, 2.0, 8.0);

    // Add samples with high variance (oscillating +-15)
    let high_jitter_samples = [
        15.0, -12.0, 18.0, -14.0, 16.0, -10.0, 14.0, -16.0, 12.0, -15.0, 17.0, -11.0, 13.0,
        -17.0, 15.0, -13.0, 16.0, -14.0, 14.0, -12.0,
    ];

    let mut last_alpha = 0.3;
    for &sample in &high_jitter_samples {
        last_alpha = estimator.add_sample(sample);
    }

    // High jitter system should get smoothed alpha (0.1)
    assert!(
        (last_alpha - 0.1).abs() < 0.02,
        "High jitter system should have alpha~0.1, got {}. Jitter={}",
        last_alpha,
        estimator.last_jitter()
    );
    assert!(
        estimator.last_jitter() > 8.0,
        "Jitter should be > 8.0, got {}",
        estimator.last_jitter()
    );
}

#[test]
fn test_jitter_medium_noise_interpolation() {
    // Medium jitter: stddev ~5 us/s -> alpha should be interpolated
    let mut estimator = Estimator::with_params(20, 10, 2.0, 8.0);

    // Add samples with medium variance (oscillating +-7)
    let medium_jitter_samples = [
        7.0, -5.0, 6.0, -6.0, 5.0, -7.0, 6.0, -5.0, 7.0, -6.0, 5.0, -7.0, 6.0, -5.0, 7.0, -6.0,
        5.0, -7.0, 6.0, -5.0,
    ];

    let mut last_alpha = 0.3;
    for &sample in &medium_jitter_samples {
        last_alpha = estimator.add_sample(sample);
    }

    // Medium jitter: alpha should be between 0.1 and 0.3
    assert!(
        last_alpha > 0.1 && last_alpha < 0.3,
        "Medium jitter should interpolate alpha, got {}. Jitter={}",
        last_alpha,
        estimator.last_jitter()
    );
}

#[test]
fn test_jitter_recovery_from_high_to_low() {
    let mut estimator = Estimator::with_params(20, 10, 2.0, 8.0);

    // First, add high jitter samples
    for i in 0..15 {
        let val = if i % 2 == 0 { 15.0 } else { -15.0 };
        estimator.add_sample(val);
    }
    assert!(
        estimator.last_alpha() < 0.15,
        "Should have low alpha after high jitter"
    );

    // Now add low jitter samples - alpha should recover
    for _ in 0..20 {
        estimator.add_sample(0.5);
    }

    assert!(
        (estimator.last_alpha() - 0.3).abs() < 0.05,
        "Alpha should recover to ~0.3 after low jitter, got {}",
        estimator.last_alpha()
    );
}

#[test]
fn test_jitter_clear_resets_state() {
    let mut estimator = Estimator::new();

    // Add some samples
    for i in 0..20 {
        estimator.add_sample(i as f64);
    }
    assert!(estimator.sample_count() > 0);

    // Clear should reset
    estimator.clear();
    assert_eq!(estimator.sample_count(), 0);
    assert!((estimator.last_alpha() - 0.3).abs() < 0.01);
    assert!((estimator.last_jitter() - 0.0).abs() < 0.01);
}

#[test]
fn test_jitter_drift_step_not_confused_with_jitter() {
    // A real frequency step (drift changes from +2 to +10) should NOT
    // trigger high jitter because variance of sustained drift is low
    let mut estimator = Estimator::with_params(20, 10, 2.0, 8.0);

    // Sustained positive drift with slight variation
    let drift_step_samples = [
        2.0, 2.5, 3.0, 3.5, 4.0, 4.5, 5.0, 5.5, 6.0, 6.5, 7.0, 7.5, 8.0, 8.5, 9.0, 9.5, 10.0,
        10.5, 10.0, 9.5,
    ];

    let mut last_alpha = 0.3;
    for &sample in &drift_step_samples {
        last_alpha = estimator.add_sample(sample);
    }

    // Sustained drift has moderate stddev but consistent direction
    // This should NOT trigger heavy smoothing
    assert!(
        last_alpha > 0.15,
        "Drift step should not trigger heavy smoothing, got alpha={}. Jitter={}",
        last_alpha,
        estimator.last_jitter()
    );
}

#[test]
fn test_jitter_boundary_values() {
    let mut estimator = Estimator::with_params(10, 5, 2.0, 8.0);

    // Test exactly at jitter_low boundary
    // Samples with stddev = 2.0: [-2, 2, -2, 2, -2, 2, -2, 2, -2, 2]
    for i in 0..10 {
        let val = if i % 2 == 0 { -2.0 } else { 2.0 };
        estimator.add_sample(val);
    }
    // stddev of [-2,2,-2,2,...] = 2.0
    assert!(
        (estimator.last_alpha() - 0.3).abs() < 0.05,
        "At jitter_low boundary, alpha should be ~0.3, got {}",
        estimator.last_alpha()
    );
}

#[test]
fn test_jitter_strih_lan_simulation() {
    // Real data pattern from strih.lan LOCK mode: drift +-0.5-1.5 us/s
    let mut estimator = Estimator::new();

    let strih_samples = [
        -0.7, -0.3, 0.2, -0.5, 1.2, -0.8, 0.3, -1.0, -0.3, -1.0, -0.7, -0.6, 0.5, -0.6, 0.8,
        -0.2, -0.8, -0.7, 0.6, -0.8, 0.3, -1.0, -0.3, -0.6, -0.4, -0.7, -0.4, 0.4, -0.3, 0.2,
    ];

    let mut last_alpha = 0.3;
    for &sample in &strih_samples {
        last_alpha = estimator.add_sample(sample);
    }

    // strih.lan should keep normal alpha
    assert!(
        (last_alpha - 0.3).abs() < 0.01,
        "strih.lan pattern should have alpha=0.3, got {}. Jitter={}",
        last_alpha,
        estimator.last_jitter()
    );
}

#[test]
fn test_jitter_stream_lan_simulation() {
    // Real data pattern from stream.lan: drift +-10-20 us/s oscillation
    let mut estimator = Estimator::new();

    let stream_samples = [
        4.2, -2.3, -18.1, 18.0, -7.5, -16.3, -1.8, 10.8, -0.2, 1.5, -0.5, 25.4, -9.6, -18.4,
        -3.7, 12.3, -13.3, 1.5, -2.1, 5.8, -9.2, 8.5, -10.5, 19.6, 4.2, 6.1, -17.9, 24.5,
        -24.2, -18.5,
    ];

    let mut last_alpha = 0.3;
    for &sample in &stream_samples {
        last_alpha = estimator.add_sample(sample);
    }

    // stream.lan should get heavy smoothing
    assert!(
        last_alpha < 0.15,
        "stream.lan pattern should have alpha<0.15, got {}. Jitter={}",
        last_alpha,
        estimator.last_jitter()
    );
}

#[test]
fn test_jitter_mbc_lan_simulation() {
    // mbc.lan: moderate jitter with occasional spikes (spikes filtered by spike filter)
    // After spike filter, drift should be moderate (~3-8 us/s)
    let mut estimator = Estimator::new();

    let mbc_samples = [
        -1.6, 3.0, 1.3, -2.2, 7.4, -2.5, -4.5, 2.0, -1.7, 3.8, -3.2, 5.5, -0.8, 2.3, -4.1,
        -1.4, 3.2, -0.5, 2.1, -3.5, 2.5, 0.5, -2.4, 3.7, 0.8, 1.7, 3.9, -4.3, -0.1, 2.5,
    ];

    let mut last_alpha = 0.3;
    for &sample in &mbc_samples {
        last_alpha = estimator.add_sample(sample);
    }

    // mbc.lan after spike filtering should have moderate jitter
    // Alpha should be between 0.2 and 0.3
    assert!(
        last_alpha >= 0.2,
        "mbc.lan should have alpha>=0.2, got {}. Jitter={}",
        last_alpha,
        estimator.last_jitter()
    );
}

/// The same computation with the machine's own numbers.
fn reference_filter(window: &[f64], raw: f64, k: f64) -> (f64, f64, f64, bool) {
    let mut sorted = window.to_vec();
    sorted.sort_by(|a, b| a.partial_cmp(b).unwrap());
    let median = sorted[sorted.len() / 2];
    let mut deviations: Vec<f64> = sorted.iter().map(|x| (x - median).abs()).collect();
    deviations.sort_by(|a, b| a.partial_cmp(b).unwrap());
    let mad = deviations[deviations.len() / 2];
    let threshold = k * mad.max(0.5);
    (median, mad, threshold, (raw - median).abs() > threshold)
}

#[test]
fn filter_agrees_with_native_arithmetic() {
    let mut filter = Filter::new();
    let mut window: Vec<f64> = Vec::new();
    let mut run = 0;
    for i in 0..400u32 {
        let raw = ((i as f64) * 0.7).sin() * 3.0 + if i % 17 == 0 { 80.0 } else { 0.0 };
        window.push(raw);
        if window.len() > 20 {
            window.remove(0);
        }
        let r = filter.filter(raw, FilterMode::Prod);
        if window.len() < 5 {
            assert_eq!(r.value, raw);
            assert_eq!(r.threshold, f64::MAX);
            continue;
        }
        let (median, mad, threshold, spike) = reference_filter(&window, raw, 5.0);
        assert_eq!(r.median, median);
        assert_eq!(r.mad, mad);
        assert_eq!(r.threshold, threshold);
        assert_eq!(r.deviation, (raw - median).abs());
        assert_eq!(r.is_spike, spike);
        if spike {
            run += 1;
            if run >= 5 {
                run = 0;
                assert_eq!(r.value, raw);
            } else {
                assert_eq!(r.value, median);
            }
        } else {
            run = 0;
            assert_eq!(r.value, raw);
        }
    }
}

#[test]
fn fifth_spike_in_a_row_is_accepted() {
    let mut filter = Filter::new();
    for _ in 0..20 {
        filter.filter(0.0, FilterMode::Lock);
    }
    for _ in 0..4 {
        let r = filter.filter(50.0, FilterMode::Lock);
        assert!(r.is_spike);
        assert_eq!(r.value, 0.0);
    }
    let r = filter.filter(50.0, FilterMode::Lock);
    assert!(r.is_spike);
    assert_eq!(r.value, 50.0);
    assert_eq!(filter.0.consecutive_spikes, 0);
    assert_eq!(filter.0.rejected_spikes, 4);
}

#[test]
fn thresholds_grow_from_mode_to_mode() {
    let modes = [FilterMode::Acq, FilterMode::Prod, FilterMode::Lock, FilterMode::Nano];
    let mut last = 0.0;
    for mode in modes {
        let mut filter = Filter::new();
        for i in 0..20 {
            filter.filter((i % 5) as f64, mode);
        }
        let r = filter.filter(1.0, mode);
        assert!(r.threshold > last);
        last = r.threshold;
    }
}

#[test]
fn jitter_agrees_with_native_arithmetic() {
    let mut estimator = Estimator::new();
    let mut window: Vec<f64> = Vec::new();
    for i in 0..200u32 {
        let rate = ((i as f64) * 1.3).sin() * (1.0 + (i as f64) / 15.0);
        window.push(rate);
        if window.len() > 30 {
            window.remove(0);
        }
        let alpha = estimator.add_sample(rate);
        if window.len() < 15 {
            assert_eq!(alpha, 0.3);
            continue;
        }
        let n = window.len() as f64;
        let mut sum = 0.0;
        for x in &window {
            sum += x;
        }
        let mean = sum / n;
        let mut squares = 0.0;
        for x in &window {
            squares += (x - mean) * (x - mean);
        }
        let jitter = (squares / n).sqrt();
        assert_eq!(estimator.last_jitter(), jitter);
        let expected = if jitter <= 2.0 {
            0.3
        } else if jitter >= 8.0 {
            0.1
        } else {
            0.3 - (jitter - 2.0) / (8.0 - 2.0) * (0.3 - 0.1)
        };
        assert_eq!(alpha, expected);
        assert!(alpha >= 0.1 && alpha <= 0.3);
    }
}

#[test]
fn warmup_answers_with_anything() {
    let mut f = Filter::new();
    let r = f.filter(f64::NAN, FilterMode::Acq);
    assert!(r.value.is_nan() && r.median.is_nan());
    assert!(!r.is_spike);
    assert_eq!(r.threshold, f64::MAX);
    let r = f.filter(f64::INFINITY, FilterMode::Nano);
    assert_eq!(r.value, f64::INFINITY);
    assert_eq!(f.window_len(), 2);
    f.clear();
    for _ in 0..WARMUP_SAMPLES {
        assert_eq!(f.filter(2.0, FilterMode::Acq).value, 2.0);
    }
}

#[test]
fn the_mode_leaves_the_history_alone() {
    let modes = [FilterMode::Acq, FilterMode::Prod, FilterMode::Lock, FilterMode::Nano];
    let samples = [3.0, 4.5, 2.0, 3.5, 9.0, 3.0, -2.0, 40.0, 3.25, 5.0, 4.0, 12.0];
    for i in 0..4 {
        for j in i + 1..4 {
            let (mut f, mut g) = (Filter::new(), Filter::new());
            for (n, x) in samples.iter().enumerate() {
                let (r, q) = (f.filter(*x, modes[i]), g.filter(*x, modes[j]));
                assert_eq!(r.median, q.median);
                assert_eq!(r.mad, q.mad);
                assert_eq!(r.deviation, q.deviation);
                assert!(!q.is_spike || r.is_spike);
                assert_eq!(r.threshold < q.threshold, n + 1 >= WARMUP_SAMPLES);
            }
        }
    }
}

#[test]
fn a_cleared_filter_is_as_a_new_one() {
    let samples = [3.0, 4.5, 2.0, 3.5, 9.0, 3.0, -2.0, 40.0, 41.0, 42.0, 40.0, 41.0, 3.0];
    let mut used = Filter::with_window_size(7);
    for x in samples {
        used.filter(x * 3.0, FilterMode::Prod);
    }
    let (total, rejected, _) = used.stats();
    used.clear();
    assert_eq!(used.window_len(), 0);
    assert_eq!(used.last_stats(), (0.0, 0.0, 0.0));
    assert_eq!((used.stats().0, used.stats().1), (total, rejected));
    let mut new = Filter::with_window_size(7);
    for x in samples {
        let (r, q) = (used.filter(x, FilterMode::Acq), new.filter(x, FilterMode::Acq));
        assert_eq!(r.value, q.value);
        assert_eq!(r.is_spike, q.is_spike);
        assert_eq!(r.threshold, q.threshold);
        assert_eq!(r.deviation, q.deviation);
        assert_eq!(r.median, q.median);
        assert_eq!(r.mad, q.mad);
    }
}

#[test]
fn the_sign_of_the_drift_is_no_jitter() {
    let (mut e, mut m) = (Estimator::new(), Estimator::new());
    let mut between = 0;
    for i in 0..60 {
        let x = 0.1 + 4.7 * ((i * i) as f64).sin();
        let a = e.add_sample(x);
        assert_eq!(a, m.add_sample(-x));
        assert_eq!(e.last_jitter(), m.last_jitter());
        between += (a > 0.1 && a < 0.3) as usize;
    }
    assert!(between > 0);
}

#[test]
fn a_steady_drift_is_no_jitter() {
    for rate in [0.0, 7.0, -450.0] {
        let mut e = Estimator::new();
        for _ in 0..40 {
            assert_eq!(e.add_sample(rate), 0.3);
            assert_eq!(e.last_jitter(), 0.0);
        }
    }
    // jitter on top of a drift counts as without it
    let mut e = Estimator::with_params(4, 4, 2.0, 8.0);
    let mut d = Estimator::with_params(4, 4, 2.0, 8.0);
    for i in 0..40 {
        let x = if i % 2 == 0 { 5.0 } else { -5.0 };
        assert_eq!(e.add_sample(x), d.add_sample(x + 64.0));
    }
    assert_eq!(e.last_jitter(), 5.0);
}
