use dantesync::clock::linux::{LinuxClock, TimeVal};
use dantesync::clock::windows::{
    current_ppm, delta_of_ppm, filetime_of, filetime_parts, offset_100ns, ppm_of_factor,
    ppm_per_unit, step_target, time_service, NegativeTime, TimeService, WindowsClock,
};
use dantesync::ieee::double::Double;
use dantesync::rtc::{LocalFields, RtcTime};
use dantesync::time::{Span, WallTime};

fn native(x: Double) -> f64 {
    f64::from_bits(x.to_bits())
}

fn double(x: f64) -> Double {
    Double::from_bits(x.to_bits())
}

/// Test PPM to freq_val conversion math
#[test]
fn test_ppm_to_freq_val_conversion() {
    fn factor_to_freq_val(factor: f64) -> i64 {
        LinuxClock::frequency_value(double(factor))
    }

    // No adjustment
    assert_eq!(factor_to_freq_val(1.0), 0);

    // +100ppm, allow a unit for rounding
    let freq_100ppm = factor_to_freq_val(1.0001);
    assert!((freq_100ppm - 6553600).abs() <= 1);

    // -100ppm
    let freq_neg100ppm = factor_to_freq_val(0.9999);
    assert!((freq_neg100ppm + 6553600).abs() <= 1);

    // Exact PPM values
    let freq_1ppm_direct = double(1.0).mul(double(65536.0)).to_i64();
    assert_eq!(freq_1ppm_direct, 65536);
    let freq_neg1ppm_direct = double(-1.0).mul(double(65536.0)).to_i64();
    assert_eq!(freq_neg1ppm_direct, -65536);
    let freq_500ppm = double(500.0).mul(double(65536.0)).to_i64();
    assert_eq!(freq_500ppm, 32768000);

    for factor in [1.0005, 0.9995, 1.0000123, 0.99991, 2.0, 0.0] {
        let expected = ((factor - 1.0) * 1_000_000.0 * 65536.0) as i64;
        assert_eq!(factor_to_freq_val(factor), expected);
    }
}

/// Test tv_usec normalization logic
#[test]
fn test_tv_usec_normalization() {
    fn normalize_timeval(tv_sec: &mut i64, tv_usec: &mut i64) {
        let t = TimeVal { tv_sec: *tv_sec, tv_usec: *tv_usec }.normalized();
        *tv_sec = t.tv_sec;
        *tv_usec = t.tv_usec;
    }

    // Overflow
    let (mut sec, mut usec) = (10, 1_500_000);
    normalize_timeval(&mut sec, &mut usec);
    assert_eq!(sec, 11);
    assert_eq!(usec, 500_000);

    // Double overflow
    let (mut sec, mut usec) = (10, 2_500_000);
    normalize_timeval(&mut sec, &mut usec);
    assert_eq!(sec, 12);
    assert_eq!(usec, 500_000);

    // Underflow
    let (mut sec, mut usec) = (10, -500_000);
    normalize_timeval(&mut sec, &mut usec);
    assert_eq!(sec, 9);
    assert_eq!(usec, 500_000);

    // Double underflow
    let (mut sec, mut usec) = (10, -1_500_000);
    normalize_timeval(&mut sec, &mut usec);
    assert_eq!(sec, 8);
    assert_eq!(usec, 500_000);

    // No change needed
    let (mut sec, mut usec) = (10, 500_000);
    normalize_timeval(&mut sec, &mut usec);
    assert_eq!(sec, 10);
    assert_eq!(usec, 500_000);
}

/// Test step_clock offset calculation
#[test]
fn test_step_offset_calculation() {
    fn apply_step(base_sec: i64, base_usec: i64, offset: Span, sign: i8) -> (i64, i64) {
        let now = TimeVal { tv_sec: base_sec, tv_usec: base_usec };
        let t = LinuxClock::stepped(now, offset, sign);
        (t.tv_sec, t.tv_usec)
    }

    // Step forward by 1.5 seconds
    let (sec, usec) = apply_step(100, 250_000, Span::from_micros(1_500_000), 1);
    assert_eq!(sec, 101);
    assert_eq!(usec, 750_000);

    // Step backward by 1.5 seconds
    let (sec, usec) = apply_step(100, 250_000, Span::from_micros(1_500_000), -1);
    assert_eq!(sec, 98);
    assert_eq!(usec, 750_000);

    // Small step forward (500us)
    let (sec, usec) = apply_step(100, 999_000, Span::from_micros(500), 1);
    assert_eq!(sec, 100);
    assert_eq!(usec, 999_500);

    // Small step causing overflow
    let (sec, usec) = apply_step(100, 999_000, Span::from_micros(2000), 1);
    assert_eq!(sec, 101);
    assert_eq!(usec, 1_000);
}

#[test]
fn step_and_step_back_cancel() {
    let now = TimeVal { tv_sec: 1_700_000_000, tv_usec: 123_456 };
    for nanos in [1_000u64, 999_999_000, 1_234_567_891_000, 86_400_000_000_000] {
        let offset = Span::from_nanos(nanos);
        let there = LinuxClock::stepped(now, offset, 1);
        assert_eq!(LinuxClock::stepped(there, offset, -1), now);
        let back = LinuxClock::stepped(now, offset, -1);
        assert_eq!(LinuxClock::stepped(back, offset, 1), now);
    }
}

#[test]
fn original_frequency_is_kept() {
    assert_eq!(LinuxClock::with_original(-4711).original_freq, -4711);
}

/// Test PPM to frequency adjustment delta conversion
#[test]
fn test_ppm_to_adjustment_delta_conversion() {
    let perf_frequency: i64 = 10_000_000;

    // +10 PPM: decrease the adjustment to speed up
    assert_eq!(delta_of_ppm(double(10.0), perf_frequency), -100);

    // -10 PPM
    assert_eq!(delta_of_ppm(double(-10.0), perf_frequency), 100);

    // 0 PPM
    assert_eq!(delta_of_ppm(double(0.0), perf_frequency), 0);
}

/// Test that adjustment delta correctly modifies increment
#[test]
fn test_adjustment_applied_to_increment() {
    let original_increment: u64 = 156_250;
    let perf_frequency: i64 = 10_000_000;

    // +50 PPM
    let adjustment_delta = delta_of_ppm(double(50.0), perf_frequency);
    let new_adj = (original_increment as i64 + adjustment_delta) as u64;
    assert_eq!(new_adj, 155_750);
    assert!(new_adj < original_increment);

    // -50 PPM
    let adjustment_delta = delta_of_ppm(double(-50.0), perf_frequency);
    let new_adj = (original_increment as i64 + adjustment_delta) as u64;
    assert_eq!(new_adj, 156_750);
    assert!(new_adj > original_increment);

    // The same through the clock
    let mut clock = WindowsClock::started(original_increment, perf_frequency, 0, 0, 0);
    assert_eq!(clock.begin_adjustment(double(1.00005)), 155_750);
    assert_eq!(clock.begin_adjustment(double(0.99995)), 156_750);
    assert_eq!(clock.adjustment_count, 2);
    assert_eq!(clock.last_adjustment, original_increment);
    clock.finish_adjustment(double(0.99995), 156_750);
    assert_eq!(clock.last_adjustment, 156_750);
    assert_eq!(native(clock.last_requested_ppm), (0.99995 - 1.0) * 1_000_000.0);
}

/// Test factor to PPM conversion
#[test]
fn test_factor_to_ppm_conversion() {
    // no adjustment
    let ppm = native(ppm_of_factor(double(1.0)));
    assert_eq!(ppm, 0.0);

    // speed up by 10 ppm
    let ppm = native(ppm_of_factor(double(1.00001)));
    assert!((ppm - 10.0).abs() < 0.01);

    // slow down by 10 ppm
    let ppm = native(ppm_of_factor(double(0.99999)));
    assert!((ppm - (-10.0)).abs() < 0.01);
}

/// Test PPM per unit sensitivity calculation
#[test]
fn test_ppm_sensitivity() {
    let inc: u64 = 156_250;
    let ppm_per_unit = native(ppm_per_unit(inc));
    assert!((ppm_per_unit - 6.4).abs() < 0.1);
}

/// Test current PPM offset calculation from adjustment
#[test]
fn test_current_ppm_offset_calculation() {
    let inc: u64 = 156_250;

    // nominal
    assert_eq!(native(current_ppm(inc, inc)), 0.0);

    // slow
    assert!((native(current_ppm(156_350, inc)) - 640.0).abs() < 10.0);

    // fast
    assert!((native(current_ppm(156_150, inc)) - (-640.0)).abs() < 10.0);
}

/// Test step clock offset to 100ns conversion
#[test]
fn test_step_offset_to_100ns() {
    assert_eq!(offset_100ns(Span::from_millis(1)), 10_000);
    assert_eq!(offset_100ns(Span::from_millis(1000)), 10_000_000);
    assert_eq!(offset_100ns(Span::from_micros(1)), 10);
}

#[test]
fn windows_steps() {
    let offset = Span::from_micros(100);
    assert_eq!(step_target(5_000, offset, 1), Ok(6_000));
    assert_eq!(step_target(5_000, offset, -1), Ok(4_000));
    assert_eq!(step_target(1_000, offset, -1), Err(NegativeTime));
    assert_eq!(step_target(1_001, offset, -1), Ok(1));
    // There and back.
    assert_eq!(step_target(step_target(5_000, offset, 1).unwrap(), offset, -1), Ok(5_000));
    assert_eq!(step_target(step_target(5_000, offset, -1).unwrap(), offset, 1), Ok(5_000));
}

#[test]
fn filetime_halves() {
    let t: u64 = 0x01D9_ABCD_8765_4321;
    assert_eq!(filetime_parts(t), (0x01D9_ABCD, 0x8765_4321));
    assert_eq!(filetime_of(0x01D9_ABCD, 0x8765_4321), t);
}

#[test]
fn adjustment_wraps_below_zero() {
    let mut clock = WindowsClock::started(5, 10_000_000, 0, 0, 0);
    assert_eq!(clock.begin_adjustment(double(2.0)), 5u64.wrapping_sub(10_000_000));
}

#[test]
fn effectiveness_is_measured_every_ten_seconds() {
    let mut clock = WindowsClock::started(156_250, 10_000_000, 1_000, 5_000, 0);
    clock.finish_adjustment(double(1.00005), 155_750);
    assert!(clock.measure(2_000, 6_000, 9_999_999_999).is_none());
    assert_eq!(clock.baseline_perf_counter, 1_000);
    // 10 s by the counter, 10 s and 400 us by the system time
    let e = clock.measure(100_001_000, 100_009_000, 10_000_000_000).unwrap();
    let wall = 100_000_000.0 / 10_000_000.0 * 1_000_000_000.0;
    let system = 100_004_000.0 * 100.0;
    let ppm = (system - wall) / wall * 1_000_000.0;
    let requested = (1.00005 - 1.0) * 1_000_000.0;
    assert_eq!(native(e.wall_time_ns), wall);
    assert_eq!(native(e.observed_ppm), ppm);
    assert_eq!(native(e.effectiveness), ppm / requested);
    assert!(!e.low);
    assert_eq!(clock.baseline_perf_counter, 100_001_000);
    assert_eq!(clock.last_measurement_time, 10_000_000_000);
    // no effect at all
    let e = clock.measure(200_001_000, 200_009_000, 20_000_000_000).unwrap();
    assert_eq!(native(e.effectiveness), 0.0);
    assert!(e.low);
}

#[test]
fn effectiveness_without_a_request() {
    let mut clock = WindowsClock::started(156_250, 10_000_000, 0, 0, 0);
    let e = clock.measure(100_000_000, 100_000_000, 10_000_000_000).unwrap();
    assert_eq!(native(e.effectiveness), 1.0);
    let e = clock.measure(200_000_000, 200_010_000, 20_000_000_000).unwrap();
    assert_eq!(native(e.effectiveness), 0.0);
    assert!(!e.low);
}

#[test]
fn state_of_the_time_service() {
    assert_eq!(time_service("STATE : 4  RUNNING"), TimeService::Running);
    assert_eq!(time_service("STATE : 1  STOPPED"), TimeService::Stopped);
    assert_eq!(time_service("no such service"), TimeService::Unknown);
    assert_eq!(time_service(""), TimeService::Unknown);
}

#[test]
fn hardware_clock_fields() {
    let f = LocalFields { second: 7, minute: 8, hour: 9, day: 10, month0: 11, year: 2024 };
    let v = RtcTime::from_fields(f);
    assert_eq!((v.tm_sec, v.tm_min, v.tm_hour), (7, 8, 9));
    assert_eq!((v.tm_mday, v.tm_mon, v.tm_year), (10, 11, 124));
    assert_eq!((v.tm_wday, v.tm_yday, v.tm_isdst), (0, 0, 0));
    let d = RtcTime::default();
    assert_eq!((d.tm_sec, d.tm_min, d.tm_hour, d.tm_mday, d.tm_mon, d.tm_year), (0, 0, 0, 0, 0, 0));
}

/// Seconds since 1970 that calendar fields tell.
fn seconds_of(v: &RtcTime) -> i64 {
    let year = v.tm_year as i64 + 1900;
    let y = if v.tm_mon < 2 { year - 1 } else { year };
    let m = (v.tm_mon as i64 + 10) % 12;
    let days = 365 * y + y.div_euclid(4) - y.div_euclid(100)
        + y.div_euclid(400)
        + (153 * m + 2) / 5
        + v.tm_mday as i64
        - 719_469;
    days * 86_400 + v.tm_hour as i64 * 3_600 + v.tm_min as i64 * 60 + v.tm_sec as i64
}

#[test]
fn hardware_clock_tells_local_time() {
    for secs in [
        0i64,
        -1,
        951_782_400,
        1_700_000_000,
        4_102_444_799,
        -2_208_988_800,
        253_402_300_799,
        -62_135_596_800,
        7_999_999_999_999,
        -7_999_999_999_999,
    ] {
        let v = RtcTime::at(WallTime { nanos: secs as i128 * 1_000_000_000 + 5 }).unwrap();
        let shift = seconds_of(&v) - secs;
        assert!(shift > -86_400 && shift < 86_400);
        // Time zones are shifted by whole minutes in our day.
        if secs > 0 && secs < 4_200_000_000 {
            assert_eq!(shift % 60, 0);
        }
    }
    assert!(RtcTime::at(WallTime { nanos: i128::MAX }).is_none());
    assert!(RtcTime::at(WallTime { nanos: i128::MIN }).is_none());
}
