use dantesync::clock::SystemClock;
use dantesync::config::SystemConfig;
use dantesync::controller::{needs_initial_step, PtpController};
use dantesync::ieee::double::Double;
use dantesync::order::least_i64;
use dantesync::ptp::{PtpV1Control, PtpV1FollowUpBody, PtpV1Header, PtpV1SyncMessageBody};
use dantesync::rate_servo::{
    nano_deadband_us, nano_enter_rate_us, nano_exit_rate_us, Nano, RateServo, LOCK_STABLE_COUNT,
    NANO_EXIT_COUNT, NANO_SUSTAIN_COUNT,
};
use dantesync::status::SyncStatus;
use dantesync::sync_state::{calculate_phase_offset, Action, SyncState};
use dantesync::time::{Span, WallTime};
use dantesync::traits::{Failure, NtpSource, PtpNetwork};
use std::cell::RefCell;
use std::collections::VecDeque;
use std::rc::Rc;
use std::sync::{Arc, RwLock};

fn native(x: Double) -> f64 {
    f64::from_bits(x.to_bits())
}

fn double(x: f64) -> Double {
    Double::from_bits(x.to_bits())
}

#[derive(Default)]
struct Calls {
    frequencies: Vec<f64>,
    steps: Vec<(Span, i8)>,
    resets: usize,
    /// Steps fail from now on.
    steps_fail: bool,
    /// What the source of UTC will answer.
    answers: VecDeque<Result<(Span, i8), Failure>>,
}

struct MockClock {
    calls: Rc<RefCell<Calls>>,
}

impl SystemClock for MockClock {
    fn adjust_frequency(&mut self, factor: Double) -> Result<(), Failure> {
        self.calls.borrow_mut().frequencies.push(native(factor));
        Ok(())
    }

    fn step_clock(&mut self, offset: Span, sign: i8) -> Result<(), Failure> {
        self.calls.borrow_mut().steps.push((offset, sign));
        if self.calls.borrow().steps_fail {
            Err(Failure { reason: "no permission".to_string() })
        } else {
            Ok(())
        }
    }
}

type Received = Result<Option<(Vec<u8>, usize, WallTime)>, Failure>;

struct MockNetwork {
    packets: VecDeque<Received>,
    calls: Rc<RefCell<Calls>>,
}

impl PtpNetwork for MockNetwork {
    fn recv_packet(&mut self) -> Received {
        match self.packets.pop_front() {
            Some(p) => p,
            None => Ok(None),
        }
    }

    fn reset(&mut self) -> Result<(), Failure> {
        self.calls.borrow_mut().resets += 1;
        Ok(())
    }
}

struct MockNtp {
    calls: Rc<RefCell<Calls>>,
}

impl NtpSource for MockNtp {
    fn get_offset(&self) -> Result<(Span, i8), Failure> {
        let answer = self.calls.borrow_mut().answers.pop_front();
        match answer {
            Some(a) => a,
            None => Err(Failure { reason: "silent".to_string() }),
        }
    }
}

type Controller = PtpController<MockClock, MockNetwork, MockNtp>;

fn controller(
    packets: Vec<Received>,
    answers: Vec<Result<(Span, i8), Failure>>,
    config: SystemConfig,
) -> (Controller, Rc<RefCell<Calls>>, Arc<RwLock<SyncStatus>>) {
    let calls = Rc::new(RefCell::new(Calls { answers: answers.into(), ..Calls::default() }));
    let status = Arc::new(RwLock::new(SyncStatus::default()));
    let c = PtpController::new(
        MockClock { calls: calls.clone() },
        MockNetwork { packets: packets.into(), calls: calls.clone() },
        MockNtp { calls: calls.clone() },
        status.clone(),
        config,
    );
    (c, calls, status)
}

const GM: [u8; 6] = [0x01, 0x02, 0x03, 0x04, 0x05, 0x06];

fn make_sync(seq: u16, gm: [u8; 6]) -> Vec<u8> {
    let mut buf = vec![0u8; 60];
    buf[0] = 0x10;
    buf[32] = 0x00;
    buf[22..28].copy_from_slice(&GM);
    buf[30..32].copy_from_slice(&seq.to_be_bytes());
    buf[49..55].copy_from_slice(&gm);
    buf
}

fn make_followup(seq: u16, t1_ns: u64) -> Vec<u8> {
    let mut buf = vec![0u8; 60];
    buf[0] = 0x10;
    buf[32] = 0x02;
    buf[22..28].copy_from_slice(&GM);
    buf[30..32].copy_from_slice(&seq.to_be_bytes());
    buf[42..44].copy_from_slice(&seq.to_be_bytes());
    buf[44..48].copy_from_slice(&((t1_ns / 1_000_000_000) as u32).to_be_bytes());
    buf[48..52].copy_from_slice(&((t1_ns % 1_000_000_000) as u32).to_be_bytes());
    buf
}

#[test]
fn test_ntp_sync_trigger() {
    let (mut c, calls, _) = controller(
        vec![],
        vec![Ok((Span::from_millis(100), 1))],
        SystemConfig::default(),
    );
    c.run_ntp_sync(false);
    assert_eq!(calls.borrow().steps, vec![(Span::from_millis(100), 1)]);
    assert!(calls.borrow().answers.is_empty());
}

#[test]
fn test_ptp_locking_flow() {
    let mut packets: Vec<Received> = Vec::new();
    for i in 0..8u64 {
        let t1 = 1_000_000_000 + i * 1_000_000_000;
        let t2 = WallTime { nanos: (t1 + 1000) as i128 };
        packets.push(Ok(Some((make_sync(i as u16, GM), 60, t2))));
        packets.push(Ok(Some((make_followup(i as u16, t1), 60, t2))));
    }
    let mut config = SystemConfig::default();
    config.filters.sample_window_size = 4;
    config.filters.calibration_samples = 0;
    config.filters.warmup_secs = double(0.0);

    let (mut c, calls, _) = controller(packets, vec![], config);

    for _ in 0..16 {
        let _ = c.process_loop_iteration();
    }

    assert_eq!(calls.borrow().frequencies.len(), 2);
    assert!(c.get_status_shared().read().unwrap().settled);
}

/// A controller for the tests of NANO mode.
fn create_nano_test_controller() -> Controller {
    let mut config = SystemConfig::default();
    config.filters.calibration_samples = 0;
    config.filters.warmup_secs = double(0.0);
    controller(vec![], vec![], config).0
}

#[test]
fn test_nano_mode_requires_lock_first() {
    let c = create_nano_test_controller();
    assert!(!c.state.servo.is_locked);
    assert!(!c.state.servo.nano.active);
    assert_eq!(c.state.servo.nano.sustain_count, 0);
    assert_eq!(c.state.servo.nano.exit_count, 0);
}

#[test]
fn test_nano_entry_requires_sustained_low_drift() {
    let mut c = create_nano_test_controller();

    // Simulate locked state
    c.state.servo.is_locked = true;
    c.state.servo.in_production_mode = true;
    c.state.warmup_complete = true;
    c.state.clock_settled = true;

    // Sustained low drift
    for i in 0..NANO_SUSTAIN_COUNT {
        c.state.servo.nano.update(true, double(0.4));
        if i < NANO_SUSTAIN_COUNT - 1 {
            assert!(!c.state.servo.nano.active);
        }
    }
    assert!(c.state.servo.nano.active);
}

fn in_nano(exit_count: usize) -> Nano {
    Nano { active: true, sustain_count: NANO_SUSTAIN_COUNT, exit_count }
}

#[test]
fn test_nano_exit_single_spike_no_exit() {
    let mut nano = in_nano(0);
    nano.update(true, double(1.5));
    assert_eq!(nano.exit_count, 1);
    assert!(nano.active);
    assert!(nano.exit_count < NANO_EXIT_COUNT);
}

#[test]
fn test_nano_exit_requires_consecutive_spikes() {
    let mut nano = in_nano(0);
    for i in 1..NANO_EXIT_COUNT {
        nano.update(true, double(1.5));
        assert_eq!(nano.exit_count, i);
        assert!(nano.active);
    }
    nano.update(true, double(1.5));
    assert!(!nano.active);
    assert_eq!(nano.sustain_count, 0);
    assert_eq!(nano.exit_count, 0);
}

#[test]
fn test_nano_exit_counter_resets_on_good_sample() {
    let mut nano = in_nano(3);
    nano.update(true, double(0.2));
    assert!(nano.active);
    assert_eq!(nano.exit_count, 0);
    assert_eq!(nano.sustain_count, NANO_SUSTAIN_COUNT + 1);
}

#[test]
fn test_nano_constants_are_correct() {
    assert_eq!(NANO_SUSTAIN_COUNT, 15);
    assert_eq!(NANO_EXIT_COUNT, 5);
    assert!((native(nano_enter_rate_us()) - 0.5).abs() < 0.001);
    assert!((native(nano_exit_rate_us()) - 1.0).abs() < 0.001);
}

#[test]
fn test_mode_transition_not_locked_resets_nano() {
    let mut c = create_nano_test_controller();
    c.state.servo.nano = in_nano(2);

    // Loss of lock
    c.state.servo.is_locked = false;
    let locked = c.state.servo.is_locked;
    c.state.servo.nano.update(locked, double(0.2));

    assert!(!c.state.servo.nano.active);
    assert_eq!(c.state.servo.nano.sustain_count, 0);
    assert_eq!(c.state.servo.nano.exit_count, 0);
}

#[test]
fn test_nano_deadband_constant() {
    assert!((native(nano_deadband_us()) - 0.1).abs() < 0.001);
}

#[test]
fn between_the_nano_thresholds_only_the_exit_counter_changes() {
    let mut nano = in_nano(3);
    nano.update(true, double(0.7));
    assert_eq!(nano, in_nano(0));
}

#[test]
fn small_offsets_are_not_stepped_at_the_start() {
    assert!(!needs_initial_step(Span { secs: 0, nanos: 50_999_999 }));
    assert!(needs_initial_step(Span { secs: 0, nanos: 51_000_000 }));
    let (mut c, calls, _) = controller(
        vec![],
        vec![Ok((Span::from_millis(50), 1)), Err(Failure { reason: "x".to_string() })],
        SystemConfig::default(),
    );
    c.run_ntp_sync(false);
    c.run_ntp_sync(false);
    assert!(calls.borrow().steps.is_empty());
    assert!(calls.borrow().answers.is_empty());
}

#[test]
fn initial_sync_can_be_skipped() {
    let (mut c, calls, _) = controller(
        vec![],
        vec![Ok((Span::from_millis(100), 1))],
        SystemConfig::default(),
    );
    c.run_ntp_sync(true);
    assert!(calls.borrow().steps.is_empty());
    assert_eq!(calls.borrow().answers.len(), 1);
}

#[test]
fn utc_is_asked_for_every_thirty_seconds_while_locked() {
    let second = 1_000_000_000u64;
    let (mut c, calls, status) = controller(
        vec![],
        vec![
            Ok((Span::from_micros(500), -1)),
            Ok((Span::from_micros(501), -1)),
            Ok((Span::from_micros(1_500), 1)),
        ],
        SystemConfig::default(),
    );
    assert!(c.query_ntp_at(100 * second).is_none());
    c.state.servo.is_locked = true;
    assert!(c.query_ntp_at(29 * second).is_none());
    assert_eq!(calls.borrow().answers.len(), 3);
    // up to 500 us are left alone
    assert_eq!(c.query_ntp_at(30 * second), Some((Span::from_micros(500), -1, false)));
    assert_eq!(status.read().unwrap().ntp_offset_us, -500);
    assert!(c.query_ntp_at(59 * second).is_none());
    // more is stepped
    assert_eq!(c.query_ntp_at(60 * second), Some((Span::from_micros(501), -1, true)));
    assert_eq!(calls.borrow().steps, vec![(Span::from_micros(501), -1)]);
    assert!(calls.borrow().frequencies.is_empty());
    // a step that fails
    calls.borrow_mut().steps_fail = true;
    assert_eq!(c.query_ntp_at(90 * second), Some((Span::from_micros(1_500), 1, false)));
    // no answer
    assert!(c.query_ntp_at(120 * second).is_none());
    assert_eq!(c.state.last_ntp_check, 120 * second);
    c.set_ntp_tracking(false);
    assert!(c.query_ntp_at(500 * second).is_none());
    assert_eq!(c.state.last_ntp_check, 120 * second);
}

#[test]
fn only_seven_utc_offsets_are_kept() {
    let mut state = SyncState::new(SystemConfig::default(), 0);
    for i in 0..10u64 {
        let (us, step) = state.ntp_answer(Span::from_micros(i), 1);
        assert_eq!(us, i as i64);
        assert!(step.is_none());
    }
    let kept: Vec<i64> = state.ntp_offset_samples.iter().copied().collect();
    assert_eq!(kept, vec![3, 4, 5, 6, 7, 8, 9]);
    let (us, step) = state.ntp_answer(Span { secs: u64::MAX, nanos: 0 }, -1);
    let wrapped = (u64::MAX as u128 * 1_000_000_000) as i64;
    assert_eq!(us, -(wrapped / 1000));
    assert!(step.is_some());
}

#[test]
fn a_step_starts_the_measurement_afresh() {
    let mut state = SyncState::new(SystemConfig::default(), 0);
    state.sample_window.push(5);
    state.servo.last_offset_us = Some(double(3.0));
    state.servo.last_offset_time = Some(7);
    state.ntp_answer(Span::from_micros(9), 1);
    state.ntp_stepped(42);
    assert!(state.sample_window.is_empty());
    assert!(state.ntp_offset_samples.is_empty());
    assert_eq!(state.last_ntp_step, Some(42));
    assert!(state.servo.last_offset_us.is_none());
    assert!(state.servo.last_offset_time.is_none());
}

#[test]
fn samples_are_skipped_in_the_grace_period() {
    let mut state = SyncState::new(SystemConfig::default(), 0);
    state.ntp_stepped(1_000);
    let t1 = 5_000_000_000i64;
    state.process_sync_pair(t1, WallTime { nanos: t1 as i128 }, 2_000_000_999);
    assert!(state.sample_window.is_empty());
    let t1 = 6_000_000_000i64;
    state.process_sync_pair(t1, WallTime { nanos: t1 as i128 }, 2_000_001_000);
    assert_eq!(state.sample_window.len(), 1);
}

#[test]
fn close_pairs_are_no_samples() {
    let mut config = SystemConfig::default();
    config.filters.min_delta_ns = 0;
    let mut state = SyncState::new(config, 0);
    let mut t1 = 1_000_000_000i64;
    state.process_sync_pair(t1, WallTime { nanos: t1 as i128 }, 0);
    t1 += 99_999_999;
    state.process_sync_pair(t1, WallTime { nanos: t1 as i128 }, 0);
    assert_eq!(state.sample_window.len(), 1);
    t1 += 100_000_000;
    state.process_sync_pair(t1, WallTime { nanos: t1 as i128 }, 0);
    assert_eq!(state.sample_window.len(), 2);
}

#[test]
fn calibration_takes_the_median() {
    let mut config = SystemConfig::default();
    config.filters.calibration_samples = 3;
    let mut state = SyncState::new(config, 0);
    for (i, offset) in [300i64, 100, 200].iter().enumerate() {
        let t1 = (i as i64 + 1) * 1_000_000_000;
        let action = state.process_sync_pair(t1, WallTime { nanos: (t1 + offset) as i128 }, 0);
        assert_eq!(action, Action::Nothing);
        assert_eq!(state.calibration_complete, i == 2);
        assert!(!state.clock_settled);
    }
    assert_eq!(state.calibration_offset_ns, 200);
    let t1 = 9_000_000_000i64;
    state.process_sync_pair(t1, WallTime { nanos: (t1 + 250) as i128 }, 0);
    assert_eq!(state.sample_window, vec![50]);
}

#[test]
fn warmup_ignores_pairs() {
    let mut config = SystemConfig::default();
    config.filters.warmup_secs = double(1.5);
    let mut state = SyncState::new(config, 1_000);
    let t1 = 1_000_000_000i64;
    state.process_sync_pair(t1, WallTime { nanos: t1 as i128 }, 1_500_000_999);
    assert!(!state.warmup_complete);
    assert_eq!(state.valid_count, 0);
    state.process_sync_pair(t1, WallTime { nanos: t1 as i128 }, 1_500_001_000);
    assert!(state.warmup_complete);
    assert_eq!(state.valid_count, 1);
}

#[test]
fn phase_offsets_stay_within_the_second() {
    assert_eq!(calculate_phase_offset(1_000_000_000, 1_000_001_000), 1_000);
    assert_eq!(calculate_phase_offset(1_900_000_000, 7_100_000_000), 200_000_000);
    assert_eq!(calculate_phase_offset(1_100_000_000, 7_900_000_000), -200_000_000);
    assert_eq!(calculate_phase_offset(0, 500_000_000), 500_000_000);
    assert_eq!(calculate_phase_offset(0, -400_000_000), -400_000_000);
    assert_eq!(calculate_phase_offset(0, i64::MIN), i64::MIN % 1_000_000_000 + 1_000_000_000);
}

#[test]
fn change_of_the_grandmaster_resets() {
    let t2 = WallTime { nanos: 5_000_000_000 };
    let other = [9u8; 6];
    let (mut c, calls, status) = controller(
        vec![
            Ok(Some((make_sync(1, GM), 60, t2))),
            Ok(Some((make_followup(1, 4_000_000_000), 60, t2))),
            Ok(Some((make_sync(2, GM), 60, t2))),
            Ok(Some((make_sync(3, other), 60, t2))),
        ],
        vec![],
        SystemConfig::default(),
    );
    for _ in 0..3 {
        c.process_loop_iteration().unwrap();
    }
    assert_eq!(calls.borrow().resets, 0);
    assert!(c.state.clock_settled);
    c.state.servo.is_locked = true;
    c.state.servo.nano = in_nano(2);
    c.state.servo.drift_baseline_ppm = double(-12.5);
    c.state.servo.applied_freq_ppm = double(-13.25);
    c.state.servo.smoothed_rate_ppm = double(4.0);
    c.process_loop_iteration().unwrap();
    // what was learned of the local clock stays
    assert_eq!(native(c.state.servo.drift_baseline_ppm), -12.5);
    assert_eq!(native(c.state.servo.applied_freq_ppm), -13.25);
    assert_eq!(native(c.state.servo.smoothed_rate_ppm), 0.0);
    assert_eq!(calls.borrow().resets, 1);
    assert_eq!(c.state.current_gm_uuid.unwrap().bytes, other);
    assert!(!c.state.clock_settled);
    assert_eq!(c.state.valid_count, 0);
    assert_eq!(c.state.prev_t1_ns, 0);
    assert!(!c.state.servo.is_locked);
    assert!(!c.state.servo.nano.active);
    assert_eq!(status.read().unwrap().gm_uuid.unwrap().bytes, other);
    assert_eq!(status.read().unwrap().mode, "ACQ");
}

#[test]
fn foreign_followups_are_dropped() {
    let t2 = WallTime { nanos: 5_000_000_000 };
    let mut state = SyncState::new(SystemConfig::default(), 0);
    assert!(state.handle_packet(&make_sync(1, GM), t2, 0).is_some());
    assert_eq!(state.pending_syncs.len(), 1);
    let mut foreign = make_followup(1, 4_000_000_000);
    foreign[22] = 0xEE;
    state.handle_packet(&foreign, t2, 0);
    assert_eq!(state.pending_syncs.len(), 0);
    assert_eq!(state.valid_count, 0);
    // one that nothing waits for
    state.handle_packet(&make_followup(7, 4_000_000_000), t2, 0);
    assert_eq!(state.valid_count, 0);
}

#[test]
fn short_packets_are_ignored() {
    let t2 = WallTime { nanos: 5_000_000_000 };
    let mut state = SyncState::new(SystemConfig::default(), 0);
    assert_eq!(state.handle_packet(&[0u8; 35], t2, 0), None);
    // a header alone is a Sync message of an unknown grandmaster
    assert_eq!(state.handle_packet(&[0u8; 36], t2, 0), Some(Action::Nothing));
    assert_eq!(state.pending_syncs.len(), 1);
    assert!(state.current_gm_uuid.is_none());
    assert_eq!(state.handle_packet(&make_sync(1, GM)[..54], t2, 0), Some(Action::Nothing));
    assert!(state.current_gm_uuid.is_none());
    assert_eq!(state.handle_packet(&make_sync(1, GM)[..55], t2, 0), Some(Action::Nothing));
    assert!(state.current_gm_uuid.is_some());
    assert_eq!(
        state.handle_packet(&make_followup(1, 4_000_000_000)[..51], t2, 0),
        Some(Action::Nothing)
    );
    assert_eq!(state.pending_syncs.len(), 2);
}

#[test]
fn stale_messages_are_dropped_when_many_wait() {
    let mut state = SyncState::new(SystemConfig::default(), 0);
    for i in 0..100u16 {
        state.handle_packet(&make_sync(i, GM), WallTime { nanos: i as i128 * 1_000_000_000 }, 0);
    }
    state.prune(WallTime { nanos: 100_000_000_000 });
    assert_eq!(state.pending_syncs.len(), 100);
    state.handle_packet(&make_sync(100, GM), WallTime { nanos: 500_000_000_000 }, 0);
    state.prune(WallTime { nanos: 100_000_000_000 });
    let mut left: Vec<u16> = state.pending_syncs.keys().copied().collect();
    left.sort();
    assert_eq!(left, vec![96, 97, 98, 99, 100]);
}

#[test]
fn errors_of_the_network_are_handed_on() {
    let (mut c, _, _) = controller(
        vec![Err(Failure { reason: "down".to_string() }), Ok(None)],
        vec![],
        SystemConfig::default(),
    );
    assert_eq!(c.process_loop_iteration().unwrap_err().reason, "down");
    assert!(c.process_loop_iteration().is_ok());
}

#[test]
fn messages_are_read() {
    let sync = make_sync(0x1234, [1, 2, 3, 4, 5, 6]);
    let h = PtpV1Header::parse(&sync).unwrap();
    assert_eq!(h.message_type, PtpV1Control::Sync);
    assert_eq!(h.sequence_id, 0x1234);
    assert_eq!(h.source_uuid.bytes, GM);
    let b = PtpV1SyncMessageBody::parse(&sync[36..]).unwrap();
    assert_eq!(b.grandmaster_clock_uuid.bytes, [1, 2, 3, 4, 5, 6]);
    let f = make_followup(0xABCD, 4_294_967_295_999_999_999);
    let b = PtpV1FollowUpBody::parse(&f[36..]).unwrap();
    assert_eq!(b.associated_sequence_id, 0xABCD);
    assert_eq!(b.precise_origin_timestamp.to_nanos(), 4_294_967_295_999_999_999);
    assert!(PtpV1Header::parse(&f[..35]).is_err());
    assert!(PtpV1FollowUpBody::parse(&f[36..51]).is_err());
    assert!(PtpV1SyncMessageBody::parse(&f[36..54]).is_err());
    let kinds = [
        (1u8, PtpV1Control::DelayReq),
        (2, PtpV1Control::FollowUp),
        (3, PtpV1Control::DelayResp),
        (4, PtpV1Control::Management),
        (5, PtpV1Control::Other),
    ];
    for (byte, kind) in kinds {
        let mut m = make_sync(1, GM);
        m[32] = byte;
        assert_eq!(PtpV1Header::parse(&m).unwrap().message_type, kind);
    }
}

/// The servo with the machine's own numbers.
struct Reference {
    baseline: f64,
    locked: bool,
    stable: usize,
    production: bool,
    nano: bool,
    sustain: usize,
    exit: usize,
    last: Option<(f64, u64)>,
    rate: f64,
    window: Vec<f64>,
    weight: f64,
}

impl Reference {
    fn apply(&mut self, offset_us: f64, now: u64) -> f64 {
        let raw = match self.last {
            Some((prev, t)) => {
                let d = now - t;
                let dt = (d / 1_000_000_000) as f64 + (d % 1_000_000_000) as f64 / 1e9;
                if dt > 0.1 {
                    ((offset_us - prev) / dt).clamp(-500.0, 500.0)
                } else {
                    self.rate
                }
            }
            None => 0.0,
        };
        self.last = Some((offset_us, now));
        self.window.push(raw);
        if self.window.len() > 30 {
            self.window.remove(0);
        }
        let n = self.window.len() as f64;
        let a = if self.window.len() < 15 {
            0.3
        } else {
            let mean = self.window.iter().sum::<f64>() / n;
            let squares = self.window.iter().map(|x| (x - mean) * (x - mean)).sum::<f64>();
            let jitter = (squares / n).sqrt();
            if jitter <= 2.0 {
                0.3
            } else if jitter >= 8.0 {
                0.1
            } else {
                0.3 - (jitter - 2.0) / (8.0 - 2.0) * (0.3 - 0.1)
            }
        };
        self.weight = a;
        self.rate = self.rate * (1.0 - a) + raw * a;
        let abs = self.rate.abs();
        if self.locked {
            if abs < 0.5 {
                self.sustain += 1;
                self.exit = 0;
                if self.sustain >= 15 {
                    self.nano = true;
                }
            } else if abs > 1.0 {
                self.exit += 1;
                if self.nano && self.exit >= 5 {
                    self.nano = false;
                    self.exit = 0;
                }
                self.sustain = 0;
            } else {
                self.exit = 0;
            }
        } else {
            self.nano = false;
            self.sustain = 0;
            self.exit = 0;
        }
        if abs < 5.0 {
            self.production = true;
        } else if abs > 20.0 {
            self.production = false;
        }
        let (p, p_max, i) = if self.nano {
            (0.01, 10.0, 0.005)
        } else if self.production {
            (0.1, 100.0, 0.05)
        } else {
            (0.8, 200.0, 0.05)
        };
        let effective = if self.nano && abs < 0.1 { 0.0 } else { self.rate };
        let p_term = (-effective * p).clamp(-p_max, p_max);
        self.baseline = (self.baseline + -effective * i).clamp(-500.0, 500.0);
        let total = (self.baseline + p_term).clamp(-500.0, 500.0);
        if abs < 5.0 {
            self.stable += 1;
            if self.stable >= 5 {
                self.locked = true;
            }
        } else {
            if self.stable > 0 {
                self.stable -= 1;
            }
            if self.stable == 0 {
                self.locked = false;
            }
        }
        1.0 + total / 1_000_000.0
    }
}

#[test]
fn servo_agrees_with_the_machine() {
    let mut servo = RateServo::new();
    let mut reference = Reference {
        baseline: 0.0,
        locked: false,
        stable: 0,
        production: false,
        nano: false,
        sustain: 0,
        exit: 0,
        last: None,
        rate: 0.0,
        window: Vec::new(),
        weight: 0.3,
    };
    let mut now = 0u64;
    let mut offset = 0.0f64;
    let mut seen_nano = 0;
    let mut left_nano = 0;
    let mut unlocked = 0;
    let (mut light, mut between, mut full) = (0, 0, 0);
    for i in 0..3_000u64 {
        now += if i % 41 == 0 { 50_000_000 } else { 500_000_000 + i };
        offset += match i / 100 % 5 {
            0 => 40.0 - (i % 7) as f64,
            1 => 0.2 * ((i % 3) as f64 - 1.0),
            2 => 0.0,
            3 => 3.0 * ((i % 5) as f64 - 1.0),
            _ => -250.0 * ((i % 2) as f64),
        };
        let was_nano = servo.nano.active;
        let was_locked = servo.is_locked;
        let f = native(servo.apply(double(offset), now));
        assert_eq!(f, reference.apply(offset, now));
        assert_eq!(native(servo.smoothed_rate_ppm), reference.rate);
        assert_eq!(native(servo.drift_baseline_ppm), reference.baseline);
        assert_eq!(servo.is_locked, reference.locked);
        assert_eq!(servo.lock_stable_count, reference.stable);
        assert_eq!(servo.in_production_mode, reference.production);
        assert_eq!(servo.nano.active, reference.nano);
        assert_eq!(servo.nano.sustain_count, reference.sustain);
        assert_eq!(servo.nano.exit_count, reference.exit);
        assert!(native(servo.last_adj_ppm).abs() <= 500.0);
        assert!(native(servo.drift_baseline_ppm).abs() <= 500.0);
        assert!(native(servo.smoothed_rate_ppm).abs() <= 512.0);
        assert_eq!(native(servo.jitter.last_alpha()), reference.weight);
        light += (reference.weight == 0.1) as usize;
        between += (reference.weight > 0.1 && reference.weight < 0.3) as usize;
        full += (reference.weight == 0.3) as usize;
        if servo.nano.active && !was_nano {
            assert!(was_locked);
            seen_nano += 1;
        }
        if was_nano && !servo.nano.active {
            left_nano += 1;
        }
        if was_locked && !servo.is_locked {
            unlocked += 1;
        }
    }
    assert!(seen_nano > 0 && left_nano > 0 && unlocked > 0);
    assert!(light > 0 && between > 0 && full > 0);
}

#[test]
fn lock_needs_stable_samples() {
    let mut servo = RateServo::new();
    for i in 0..LOCK_STABLE_COUNT {
        assert!(!servo.is_locked);
        servo.apply(double(0.0), i as u64 * 1_000_000_000);
    }
    assert!(servo.is_locked);
}

#[test]
fn modes_are_reported() {
    let (c, _, status) = controller(vec![], vec![], SystemConfig::default());
    let mut c = c;
    let cases = [
        (false, false, false, "ACQ"),
        (false, true, false, "PROD"),
        (true, true, false, "LOCK"),
        (true, true, true, "NANO"),
    ];
    for (locked, production, nano, name) in cases {
        c.state.servo.is_locked = locked;
        c.state.servo.in_production_mode = production;
        c.state.servo.nano.active = nano;
        c.state.last_phase_offset_ns = 17;
        c.log_status();
        let s = status.read().unwrap().clone();
        assert_eq!(s.mode, name);
        assert_eq!(s.is_locked, locked);
        assert_eq!(s.offset_ns, 17);
        assert!(s.updated_ts > 1_500_000_000);
    }
}

#[test]
fn stepping_through_the_loop_in_real_time() {
    let t2 = WallTime { nanos: 5_000_000_000 };
    let (mut c, calls, _) = controller(
        vec![Ok(Some((make_sync(1, GM), 60, t2)))],
        vec![Ok((Span::from_millis(3), 1))],
        SystemConfig::default(),
    );
    c.check_ntp_utc_tracking();
    c.process_loop_iteration().unwrap();
    // Nothing is due in the first moments, so UTC was not asked for.
    assert_eq!(calls.borrow().answers.len(), 1);
    assert_eq!(c.state.pending_syncs.len(), 1);
}

#[test]
fn nothing_is_corrected_in_the_noise_floor() {
    let mut servo = RateServo::new();
    servo.is_locked = true;
    servo.in_production_mode = true;
    servo.nano = Nano { active: true, sustain_count: 20, exit_count: 0 };
    servo.drift_baseline_ppm = double(-12.5);
    servo.smoothed_rate_ppm = double(0.05);
    servo.last_offset_us = Some(double(100.0));
    servo.last_offset_time = Some(0);
    let factor = servo.apply(double(100.05), 1_000_000_000);
    assert!(native(servo.smoothed_rate_ppm).abs() < 0.1);
    assert_eq!(native(factor), 1.0 + -12.5 / 1_000_000.0);
    assert_eq!(native(servo.applied_freq_ppm), -12.5);
    assert_eq!(native(servo.drift_baseline_ppm), -12.5);
}

#[test]
fn counters_at_their_end_are_seen() {
    let mut state = SyncState::new(SystemConfig::default(), 0);
    assert!(state.can_count());
    state.valid_count = usize::MAX;
    assert!(!state.can_count());
    state.valid_count = 0;
    state.servo.lock_stable_count = usize::MAX;
    assert!(!state.can_count());
    assert!(!state.servo.can_count());
    state.servo.lock_stable_count = 0;
    state.servo.nano.sustain_count = usize::MAX;
    assert!(!state.can_count());
    state.servo.nano.sustain_count = 0;
    state.servo.nano.exit_count = usize::MAX;
    assert!(!state.can_count());
}

#[test]
fn the_least_offset_of_a_window_is_used() {
    let orders = [
        [7_000i64, -3_000, 5_000, 9_000],
        [-3_000, 5_000, 7_000, 9_000],
        [9_000, 7_000, 5_000, -3_000],
    ];
    for order in orders {
        let mut config = SystemConfig::default();
        config.filters.sample_window_size = 4;
        config.filters.calibration_samples = 0;
        config.filters.warmup_secs = double(0.0);
        let mut state = SyncState::new(config, 0);
        let mut now = 0u64;
        for (i, offset) in order.iter().enumerate() {
            let t1 = (i as i64 + 1) * 1_000_000_000;
            now += 1_000_000_000;
            state.process_sync_pair(t1, WallTime { nanos: (t1 + offset) as i128 }, now);
        }
        assert!(state.sample_window.is_empty());
        assert_eq!(state.last_phase_offset_ns, -3_000);
        assert_eq!(state.servo.last_offset_us.map(native), Some(-3.0));
    }
    assert_eq!(least_i64(&vec![4, 9, 4]), 4);
    assert_eq!(least_i64(&vec![i64::MAX, i64::MIN, 0]), i64::MIN);
}

#[test]
fn a_failed_query_is_published() {
    let second = 1_000_000_000u64;
    let (mut c, _, status) = controller(
        vec![],
        vec![
            Ok((Span::from_micros(400), 1)),
            Err(Failure { reason: "timeout".to_string() }),
            Ok((Span::from_micros(300), -1)),
        ],
        SystemConfig::default(),
    );
    c.state.servo.is_locked = true;
    c.query_ntp_at(30 * second);
    assert_eq!(status.read().unwrap().ntp_offset_us, 400);
    assert!(!status.read().unwrap().ntp_failed);
    assert!(c.query_ntp_at(60 * second).is_none());
    assert!(status.read().unwrap().ntp_failed);
    assert_eq!(status.read().unwrap().ntp_offset_us, 400);
    c.query_ntp_at(90 * second);
    assert!(!status.read().unwrap().ntp_failed);
    assert_eq!(status.read().unwrap().ntp_offset_us, -300);
}

#[test]
fn a_failed_step_changes_no_measurement() {
    let second = 1_000_000_000u64;
    let (mut c, calls, _) = controller(
        vec![],
        vec![Ok((Span::from_millis(3), 1)), Ok((Span::from_millis(3), 1))],
        SystemConfig::default(),
    );
    c.state.servo.is_locked = true;
    c.state.sample_window.push(5);
    c.state.servo.last_offset_us = Some(double(3.0));
    c.state.servo.last_offset_time = Some(7);
    calls.borrow_mut().steps_fail = true;
    let (_, _, taken) = c.query_ntp_at(30 * second).unwrap();
    c.state.ntp_step_done(taken, 30 * second);
    assert_eq!(calls.borrow().steps.len(), 1);
    assert_eq!(c.state.sample_window, vec![5]);
    assert_eq!(c.state.servo.last_offset_us.map(native), Some(3.0));
    assert_eq!(c.state.servo.last_offset_time, Some(7));
    assert_eq!(c.state.last_ntp_step, None);
    calls.borrow_mut().steps_fail = false;
    let (_, _, taken) = c.query_ntp_at(60 * second).unwrap();
    c.state.ntp_step_done(taken, 60 * second);
    assert!(c.state.sample_window.is_empty());
    assert!(c.state.servo.last_offset_us.is_none());
    assert_eq!(c.state.last_ntp_step, Some(60 * second));
}

#[test]
fn only_a_taken_step_counts() {
    let mut state = SyncState::new(SystemConfig::default(), 0);
    state.sample_window.push(5);
    state.ntp_step_done(false, 42);
    assert_eq!(state.sample_window, vec![5]);
    assert_eq!(state.last_ntp_step, None);
    state.ntp_step_done(true, 42);
    assert!(state.sample_window.is_empty());
    assert_eq!(state.last_ntp_step, Some(42));
}

#[test]
fn a_step_keeps_what_was_learned_of_the_jitter() {
    let mut state = SyncState::new(SystemConfig::default(), 0);
    for i in 0..40u64 {
        let offset = if i % 2 == 0 { 0.0 } else { 20.0 };
        state.servo.apply(double(offset), i * 1_000_000_000);
    }
    assert_eq!(native(state.servo.jitter.last_alpha()), 0.1);
    state.ntp_step_done(true, 42);
    assert_eq!(native(state.servo.jitter.last_alpha()), 0.1);
    assert_eq!(state.servo.jitter.sample_count(), 30);
}

#[test]
fn a_repeated_followup_changes_nothing() {
    let t2 = WallTime { nanos: 5_000_000_000 };
    let mut state = SyncState::new(SystemConfig::default(), 0);
    state.handle_packet(&make_sync(1, GM), t2, 0);
    state.handle_packet(&make_sync(2, GM), t2, 0);
    state.handle_packet(&make_followup(1, 4_000_000_000), t2, 0);
    assert_eq!(state.valid_count, 1);
    assert_eq!(state.pending_syncs.len(), 1);
    assert!(state.pending_syncs.contains_key(&2));
    let (t1, window) = (state.prev_t1_ns, state.sample_window.clone());
    assert_eq!(
        state.handle_packet(&make_followup(1, 4_500_000_000), t2, 0),
        Some(Action::Nothing)
    );
    assert_eq!(state.valid_count, 1);
    assert_eq!(state.pending_syncs.len(), 1);
    assert_eq!((state.prev_t1_ns, state.sample_window), (t1, window));
}

#[test]
fn shifted_offsets_are_corrected_alike() {
    let offsets = [0.0, 12.0, 19.0, 45.0, 44.0, 44.0, 60.0, -3.0, 8.0, 9.0];
    for shift in [1.0, -750.0, 1_000_000.0] {
        let (mut a, mut b) = (RateServo::new(), RateServo::new());
        for (i, offset) in offsets.iter().cycle().take(60).enumerate() {
            let now = i as u64 * 1_000_000_000;
            let (f, g) = (a.apply(double(*offset), now), b.apply(double(*offset + shift), now));
            assert_eq!(native(f), native(g));
            assert_eq!(native(a.smoothed_rate_ppm), native(b.smoothed_rate_ppm));
            assert_eq!(a.is_locked, b.is_locked);
            assert_eq!(a.nano.active, b.nano.active);
        }
    }
    // a shift that swallows the offsets
    let (mut a, mut b) = (RateServo::new(), RateServo::new());
    for (i, offset) in [0.0, 0.25].iter().enumerate() {
        let now = i as u64 * 1_000_000_000;
        a.apply(double(*offset), now);
        b.apply(double(*offset + 1e16), now);
    }
    assert!(native(a.smoothed_rate_ppm) > 0.0);
    assert_eq!(native(b.smoothed_rate_ppm), 0.0);
}

#[test]
fn without_masters_utc_alone_is_kept_to() {
    let second = 1_000_000_000u64;
    let (mut c, calls, status) = controller(
        vec![],
        vec![
            Ok((Span::from_millis(3), 1)),
            Err(Failure { reason: "timeout".to_string() }),
            Ok((Span::from_micros(100), 1)),
        ],
        SystemConfig::default(),
    );
    c.state.servo.nano = in_nano(0);
    // A master may still come.
    assert!(c.query_fallback_at(30 * second - 1).is_none());
    assert!(!c.state.ptp_offline);
    c.log_status();
    assert_eq!(status.read().unwrap().mode, "NANO");
    // None came: UTC is asked for without lock, and the clock is stepped to it.
    let (_, _, taken) = c.query_fallback_at(30 * second).unwrap();
    assert!(taken && c.state.ptp_offline && !c.state.servo.is_locked);
    assert_eq!(calls.borrow().steps, vec![(Span::from_millis(3), 1)]);
    assert!(calls.borrow().frequencies.is_empty());
    c.log_status();
    assert_eq!(status.read().unwrap().mode, "NTP-only");
    assert_eq!(status.read().unwrap().ntp_offset_us, 3_000);
    // Not more often than every 30 seconds.
    assert!(c.query_fallback_at(59 * second).is_none());
    assert_eq!(calls.borrow().answers.len(), 2);
    assert!(c.query_fallback_at(60 * second).is_none());
    assert!(status.read().unwrap().ntp_failed);
    c.set_ntp_tracking(false);
    assert!(c.query_fallback_at(95 * second).is_none());
    assert_eq!(calls.borrow().answers.len(), 1);
    c.set_ntp_tracking(true);
    // A master is back.
    let t2 = WallTime { nanos: 5_000_000_000 };
    c.process_packet_at(&make_sync(1, GM), t2, 96 * second, t2);
    assert!(!c.state.ptp_offline);
    assert_eq!(c.state.last_sync, 96 * second);
    c.log_status();
    assert_eq!(status.read().unwrap().mode, "NANO");
    assert!(c.query_fallback_at(125 * second).is_none());
    assert_eq!(calls.borrow().answers.len(), 1);
}

#[test]
fn other_messages_are_no_master() {
    let second = 1_000_000_000u64;
    let t2 = WallTime { nanos: 5_000_000_000 };
    let mut state = SyncState::new(SystemConfig::default(), 0);
    state.handle_packet(&make_followup(1, 4_000_000_000), t2, 20 * second);
    assert!(state.watch(30 * second));
    state.handle_packet(&make_followup(1, 4_000_000_000), t2, 31 * second);
    assert!(state.ptp_offline);
    state.handle_packet(&make_sync(1, GM), t2, 32 * second);
    assert!(!state.ptp_offline);
    assert!(!state.watch(61 * second));
    assert!(state.watch(62 * second));
}

#[test]
fn watching_in_real_time_asks_nothing_at_first() {
    let (mut c, calls, _) = controller(
        vec![],
        vec![Ok((Span::from_millis(3), 1))],
        SystemConfig::default(),
    );
    c.watch_ptp();
    assert!(!c.state.ptp_offline);
    assert_eq!(calls.borrow().answers.len(), 1);
}

#[test]
fn rates_and_corrections_stay_within_five_hundred() {
    for sign in [1.0, -1.0] {
        let mut servo = RateServo::new();
        let mut now = 0u64;
        let mut offset = 0.0;
        let mut reached = false;
        for i in 0..3_000u64 {
            // most samples drift as fast as can be, some jitter, some come too soon
            now += if i % 7 == 3 { 50_000_000 } else { 1_000_000_000 };
            offset += if i % 401 == 400 { -3_000.0 } else { 1_000.0 };
            let factor = native(servo.apply(double(sign * offset), now));
            let rate = native(servo.smoothed_rate_ppm);
            assert!(rate.abs() <= 500.0);
            assert!(native(servo.last_adj_ppm).abs() <= 500.0);
            assert!(factor >= 1.0 - 500.0 / 1_000_000.0);
            assert!(factor <= 1.0 + 500.0 / 1_000_000.0);
            reached = reached || rate.abs() > 499.999;
        }
        assert!(reached);
    }
}
