//! Tunable parameters of the synchronisation.
use crate::ieee::double::Double;
use vstd::prelude::*;

verus! {

#[derive(Clone, Copy, Debug)]
pub struct SystemConfig {
    pub servo: ServoConfig,
    pub filters: FilterConfig,
}

#[derive(Clone, Copy, Debug)]
pub struct ServoConfig {
    pub kp: Double,
    pub ki: Double,
    pub max_freq_adj_ppm: Double,
    pub max_integral_ppm: Double,
}

#[derive(Clone, Copy, Debug)]
pub struct FilterConfig {
    pub step_threshold_ns: i64,
    pub panic_threshold_ns: i64,
    /// Number of offsets of which the least is fed to the servo.
    pub sample_window_size: usize,
    /// Least distance of two samples in master time; 0 selects the default.
    pub min_delta_ns: i64,
    /// Number of samples for timestamp calibration (0 = disabled).
    pub calibration_samples: usize,
    /// Enable stepping based on PTP offset.
    pub ptp_stepping_enabled: bool,
    /// Seconds during which sync pairs are ignored (0 = disabled).
    pub warmup_secs: Double,
}

impl ServoConfig {
    /// Gains that are numbers, and limits that are numbers and not negative.
    pub open spec fn sound(self) -> bool {
        &&& self.kp.finite()
        &&& self.ki.finite()
        &&& self.max_freq_adj_ppm.finite()
        &&& self.max_integral_ppm.finite()
        &&& self.max_freq_adj_ppm.value() >= 0
        &&& self.max_integral_ppm.value() >= 0
    }
}

impl SystemConfig {
    /// The parameters for a kernel that timestamps packets and honours
    /// frequency adjustments.
    pub open spec fn standard() -> SystemConfig {
        SystemConfig {
            servo: ServoConfig {
                kp: Double::ratio(5, 10_000),
                ki: Double::ratio(5, 100_000),
                max_freq_adj_ppm: Double::integer(500),
                max_integral_ppm: Double::integer(100),
            },
            filters: FilterConfig {
                step_threshold_ns: 5_000_000,
                panic_threshold_ns: 10_000_000,
                sample_window_size: 4,
                min_delta_ns: 1_000_000,
                calibration_samples: 0,
                ptp_stepping_enabled: true,
                warmup_secs: Double::zero(),
            },
        }
    }

    /// The parameters for Windows, where stepping does the correction and
    /// frequency adjustment only assists.
    pub open spec fn stepping() -> SystemConfig {
        SystemConfig {
            servo: ServoConfig {
                kp: Double::ratio(5, 1_000),
                ki: Double::ratio(5, 10_000),
                max_freq_adj_ppm: Double::integer(10_000),
                max_integral_ppm: Double::integer(5_000),
            },
            filters: FilterConfig {
                step_threshold_ns: 1_500_000,
                panic_threshold_ns: 5_000_000,
                sample_window_size: 8,
                min_delta_ns: 0,
                calibration_samples: 0,
                ptp_stepping_enabled: true,
                warmup_secs: Double::zero(),
            },
        }
    }

    /// The parameters for Windows.
    pub fn windows() -> (r: SystemConfig)
        ensures
            r == SystemConfig::stepping(),
    {
        SystemConfig {
            servo: ServoConfig {
                kp: Double::from_ratio(5, 1_000),
                ki: Double::from_ratio(5, 10_000),
                max_freq_adj_ppm: Double::from_i64(10_000),
                max_integral_ppm: Double::from_i64(5_000),
            },
            filters: FilterConfig {
                step_threshold_ns: 1_500_000,
                panic_threshold_ns: 5_000_000,
                sample_window_size: 8,
                min_delta_ns: 0,
                calibration_samples: 0,
                ptp_stepping_enabled: true,
                warmup_secs: Double::from_bits(0),
            },
        }
    }
}

impl Default for SystemConfig {
    /// The parameters for every system but Windows.
    fn default() -> (r: SystemConfig)
        ensures
            r == SystemConfig::standard(),
    {
        SystemConfig {
            servo: ServoConfig {
                kp: Double::from_ratio(5, 10_000),
                ki: Double::from_ratio(5, 100_000),
                max_freq_adj_ppm: Double::from_i64(500),
                max_integral_ppm: Double::from_i64(100),
            },
            filters: FilterConfig {
                step_threshold_ns: 5_000_000,
                panic_threshold_ns: 10_000_000,
                sample_window_size: 4,
                min_delta_ns: 1_000_000,
                calibration_samples: 0,
                ptp_stepping_enabled: true,
                warmup_secs: Double::from_bits(0),
            },
        }
    }
}

/// The parameters that a system starts with: a window of four samples one millisecond or
/// more apart, on Windows of eight at any distance; no calibration and no warm-up.
pub proof fn lemma_defaults(r: SystemConfig, w: SystemConfig)
    requires
        call_ensures(SystemConfig::default, (), r),
        call_ensures(SystemConfig::windows, (), w),
    ensures
        r.filters.sample_window_size == 4 && r.filters.min_delta_ns == 1_000_000,
        w.filters.sample_window_size == 8 && w.filters.min_delta_ns == 0,
        r.filters.calibration_samples == 0 && w.filters.calibration_samples == 0,
        r.filters.warmup_secs == Double::zero() && w.filters.warmup_secs == Double::zero(),
        r.filters.step_threshold_ns == 5_000_000 && r.filters.panic_threshold_ns == 10_000_000,
        w.filters.step_threshold_ns == 1_500_000 && w.filters.panic_threshold_ns == 5_000_000,
        r.filters.ptp_stepping_enabled && w.filters.ptp_stepping_enabled,
        r.servo.max_freq_adj_ppm == Double::integer(500),
        r.servo.max_integral_ppm == Double::integer(100),
        w.servo.max_freq_adj_ppm == Double::integer(10_000),
        w.servo.max_integral_ppm == Double::integer(5_000),
        r.servo.kp == Double::ratio(5, 10_000) && r.servo.ki == Double::ratio(5, 100_000),
        w.servo.kp == Double::ratio(5, 1_000) && w.servo.ki == Double::ratio(5, 10_000),
{
}

} // verus!
