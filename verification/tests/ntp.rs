use dantesync::ieee::double::Double;
use dantesync::ntp::{split_offset, NtpClient};
use dantesync::time::{elapsed, seconds, wrap, Span, WallTime};

fn split(offset_secs: f64) -> (Span, i8) {
    split_offset(Double::from_bits(offset_secs.to_bits()))
}

#[test]
fn test_offset_to_duration_positive() {
    // local clock behind, needs step forward
    let (duration, sign) = split(1.5);
    assert_eq!(sign, 1);
    assert_eq!(duration.secs, 1);
    assert_eq!(duration.nanos, 500_000_000);
}

#[test]
fn test_offset_to_duration_negative() {
    // local clock ahead, needs step backward
    let (duration, sign) = split(-2.25);
    assert_eq!(sign, -1);
    assert_eq!(duration.secs, 2);
    assert_eq!(duration.nanos, 250_000_000);
}

#[test]
fn test_offset_to_duration_zero() {
    let (duration, sign) = split(0.0);
    assert_eq!(sign, 1);
    assert_eq!(duration.secs, 0);
    assert_eq!(duration.nanos, 0);
}

#[test]
fn test_offset_small_values() {
    // 2ms
    let (duration, _) = split(0.002);
    assert_eq!(duration.secs, 0);
    assert_eq!(duration.nanos / 1_000_000, 2);
}

#[test]
fn test_offset_microsecond_precision() {
    // 500us
    let (duration, _) = split(0.000500);
    assert_eq!(duration.secs, 0);
    assert_eq!(duration.nanos / 1_000, 500);
}

#[test]
fn test_ntp_client_new() {
    let client = NtpClient::new("pool.ntp.org");
    assert_eq!(client.server, "pool.ntp.org");
}

#[test]
fn offsets_are_split_as_by_the_machine() {
    let mut x = 1.0e-9f64;
    while x < 1.0e12 {
        for y in [x, -x, x * 1.37, -x * 2.71] {
            let (span, sign) = split(y);
            assert_eq!(sign, if y < 0.0 { -1 } else { 1 });
            assert_eq!(span.secs, y.abs().trunc() as u64);
            assert_eq!(span.nanos, (y.abs().fract() * 1_000_000_000.0) as u32);
        }
        x *= 3.1;
    }
    let (span, sign) = split(f64::INFINITY);
    assert_eq!((span.secs, span.nanos, sign), (u64::MAX, 0, 1));
    let (span, sign) = split(f64::NAN);
    assert_eq!((span.secs, span.nanos, sign), (0, 0, 1));
    let (span, sign) = split(-1.0e300);
    assert_eq!((span.secs, span.nanos, sign), (u64::MAX, 0, -1));
}

#[test]
fn spans() {
    assert_eq!(Span::from_nanos(1_000_000_007), Span { secs: 1, nanos: 7 });
    assert_eq!(Span::from_micros(2_000_003), Span { secs: 2, nanos: 3_000 });
    assert_eq!(Span::from_millis(3_004), Span { secs: 3, nanos: 4_000_000 });
    assert_eq!(Span::from_millis(3_004).as_nanos(), 3_004_000_000);
    assert_eq!(Span { secs: 3, nanos: 4_999_999 }.as_millis(), 3_004);
}

#[test]
fn readings_of_clocks() {
    assert_eq!(WallTime { nanos: -5 }.as_epoch_nanos(), 0);
    assert_eq!(WallTime { nanos: 5 }.as_epoch_nanos(), 5);
    assert_eq!(WallTime { nanos: 1 << 63 }.as_epoch_nanos(), i64::MIN);
    assert_eq!(WallTime { nanos: -5 }.as_epoch_seconds(), 0);
    assert_eq!(WallTime { nanos: 2_999_999_999 }.as_epoch_seconds(), 2);
    assert_eq!(WallTime { nanos: i128::MAX }.as_epoch_seconds(), u64::MAX);
    assert_eq!(wrap(u128::MAX), -1);
    assert_eq!(elapsed(5, 9), 4);
    assert_eq!(elapsed(9, 5), 0);
    let s = f64::from_bits(seconds(1_234_567_891).to_bits());
    assert_eq!(s, 1.0 + 234_567_891.0 / 1_000_000_000.0);
}
