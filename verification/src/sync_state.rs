//! State machine of the synchronisation: from packets, clock readings and NTP
//! answers to requests on the clock.
use crate::config::SystemConfig;
use crate::ieee::double::Double;
use crate::ieee::laws::{lemma_over_shrinks, lemma_ratio, lemma_ratio_finite, lemma_ratio_order};
use crate::order::{
    integer_keys, least, least_i64, lemma_middle, median_i64, median_integer, middle,
};
use crate::ptp::{
    control_of, word, ClockUuid, PtpV1Control, PtpV1FollowUpBody, PtpV1Header, PtpV1SyncMessageBody,
    FOLLOW_UP_BODY_SIZE, HEADER_SIZE, SYNC_BODY_SIZE,
};
use crate::rate_servo::{
    drift_max, lemma_correction_bounded, lemma_restarted_sound, near_one, within, RateServo, Servo,
};
use crate::status::SyncStatus;
use crate::time::{elapsed, in_seconds, seconds, since, wrap, wrapped, Span, WallTime};
use std::collections::{HashMap, VecDeque};
use vstd::prelude::*;
use vstd::slice::slice_subrange;

verus! {

broadcast use vstd::std_specs::hash::group_hash_axioms;

/// Least distance of two samples in master time, unless configured.
pub const DEFAULT_MIN_T1_DELTA_NS: i64 = 100_000_000;

/// Time between two NTP queries.
pub const NTP_CHECK_INTERVAL_NS: u64 = 30_000_000_000;

/// Masters count as unavailable once none was heard for as long as between two NTP
/// queries.
pub const PTP_TIMEOUT_NS: u64 = NTP_CHECK_INTERVAL_NS;

/// NTP answers that make a reliable median.
pub const NTP_SAMPLE_COUNT: usize = 5;

/// The clock is stepped if it is further than this from UTC.
pub const NTP_STEP_THRESHOLD_US: i64 = 500;

/// How long samples are ignored after a step.
pub const STEP_GRACE_NS: u64 = 2_000_000_000;

/// Sync messages without a Follow_Up that are kept whatever their age.
pub const PENDING_LIMIT: usize = 100;

/// Age at which such messages are stale.
pub const PENDING_AGE_NS: i128 = 5_000_000_000;

/// Bound on a phase offset.
pub const PHASE_BOUND_NS: i64 = 2_000_000_000;

/// A Sync message that waits for its Follow_Up.
#[derive(Clone, Copy, Debug)]
pub struct PendingSync {
    pub rx_time: WallTime,
    pub source_uuid: ClockUuid,
}

/// What a packet asks for.
#[derive(Clone, Copy, Debug, PartialEq, Eq, Structural)]
pub enum Action {
    Nothing,
    /// Reset the network and publish the status.
    Reset,
    /// Run the clock at this factor and publish the status.
    Adjust(Double),
}

/// State of the synchronisation.
pub struct SyncState {
    pub config: SystemConfig,
    pub pending_syncs: HashMap<u16, PendingSync>,
    /// Master and local time of the last sync pair.
    pub prev_t1_ns: i64,
    pub prev_t2_ns: i64,
    pub current_gm_uuid: Option<ClockUuid>,
    pub sample_window: Vec<i64>,
    pub last_phase_offset_ns: i64,
    pub initial_epoch_offset_ns: i64,
    pub epoch_aligned: bool,
    pub valid_count: usize,
    pub clock_settled: bool,
    pub settling_threshold: usize,
    pub calibration_samples: Vec<i64>,
    pub calibration_offset_ns: i64,
    pub calibration_complete: bool,
    pub warmup_start: u64,
    pub warmup_complete: bool,
    pub servo: RateServo,
    pub last_ntp_check: u64,
    /// Recent offsets to UTC (us), oldest first.
    pub ntp_offset_samples: VecDeque<i64>,
    pub ntp_tracking_enabled: bool,
    pub last_ntp_step: Option<u64>,
    /// When the last Sync message came, or when the wait for one began.
    pub last_sync: u64,
    /// No master was heard for so long that UTC alone is kept to.
    pub ptp_offline: bool,
}

/// State of the synchronisation with mathematical collections.
#[verifier::ext_equal]
pub struct Model {
    pub config: SystemConfig,
    pub pending: Map<u16, PendingSync>,
    pub prev_t1_ns: i64,
    pub prev_t2_ns: i64,
    pub gm: Option<ClockUuid>,
    pub window: Seq<i64>,
    pub last_phase_offset_ns: i64,
    pub initial_epoch_offset_ns: i64,
    pub epoch_aligned: bool,
    pub valid_count: usize,
    pub clock_settled: bool,
    pub settling_threshold: usize,
    pub calibration: Seq<i64>,
    pub calibration_offset_ns: i64,
    pub calibration_complete: bool,
    pub warmup_start: u64,
    pub warmup_complete: bool,
    pub servo: Servo,
    pub last_ntp_check: u64,
    pub ntp_samples: Seq<i64>,
    pub ntp_tracking_enabled: bool,
    pub last_ntp_step: Option<u64>,
    pub last_sync: u64,
    pub ptp_offline: bool,
}

/// The part of a second, with the sign of the time.
pub open spec fn part_of_second(t: int) -> int {
    if t < 0 {
        -((-t) % 1_000_000_000)
    } else {
        t % 1_000_000_000
    }
}

/// Local minus master time, within the second.
pub open spec fn phase_offset(t1_ns: int, t2_ns: int) -> int {
    let d = part_of_second(t2_ns) - part_of_second(t1_ns);
    if d > 500_000_000 {
        d - 1_000_000_000
    } else if d < -500_000_000 {
        d + 1_000_000_000
    } else {
        d
    }
}

/// All offsets are within a phase offset's bound.
pub open spec fn bounded(s: Seq<i64>) -> bool {
    forall|i: int| 0 <= i < s.len() ==> -PHASE_BOUND_NS <= #[trigger] s[i] <= PHASE_BOUND_NS
}

/// The difference of two 64-bit integers, modulo `2^64`.
pub open spec fn wrapped_difference(a: i64, b: i64) -> i64 {
    a.wrapping_sub(b)
}

/// An offset to UTC in whole microseconds, with its sign.
pub open spec fn signed_micros(offset: Span, sign: i8) -> int {
    let n = wrapped(offset.total_nanos() as int);
    let q = if n < 0 {
        -((-n) / 1000)
    } else {
        n / 1000
    };
    q * sign
}

/// A pending message is not stale.
pub open spec fn fresh(p: PendingSync, now: WallTime) -> bool {
    now.nanos - p.rx_time.nanos < PENDING_AGE_NS
}

/// Whether a pending message is not stale.
pub fn is_fresh(p: &PendingSync, now: WallTime) -> (r: bool)
    ensures
        r == fresh(*p, now),
{
    if p.rx_time.nanos >= now.nanos {
        true
    } else if p.rx_time.nanos >= 0 {
        now.nanos - p.rx_time.nanos < PENDING_AGE_NS
    } else {
        // The difference may exceed the range of the integers.
        now.nanos < PENDING_AGE_NS + p.rx_time.nanos
    }
}

/// `HashMap::retain` with a test of the age: exactly the messages that are not
/// stale stay, under their numbers.
#[verifier::external_body]
fn retain_fresh(pending: &mut HashMap<u16, PendingSync>, now: WallTime)
    ensures
        final(pending)@ == old(pending)@.restrict(
            Set::new(|k: u16| old(pending)@.contains_key(k) && fresh(old(pending)@[k], now)),
        ),
{
    pending.retain(|_, p| is_fresh(p, now));
}

impl Model {
    /// The state before the first packet.
    pub open spec fn initial(config: SystemConfig, now: u64) -> Model {
        Model {
            config,
            pending: Map::empty(),
            prev_t1_ns: 0,
            prev_t2_ns: 0,
            gm: None,
            window: Seq::empty(),
            last_phase_offset_ns: 0,
            initial_epoch_offset_ns: 0,
            epoch_aligned: false,
            valid_count: 0,
            clock_settled: false,
            settling_threshold: 1,
            calibration: Seq::empty(),
            calibration_offset_ns: 0,
            calibration_complete: config.filters.calibration_samples == 0,
            warmup_start: now,
            warmup_complete: false,
            servo: Servo::initial(),
            last_ntp_check: now,
            ntp_samples: Seq::empty(),
            ntp_tracking_enabled: true,
            last_ntp_step: None,
            last_sync: now,
            ptp_offline: false,
        }
    }

    /// The measured offsets are offsets within a second.
    pub open spec fn wf(self) -> bool {
        &&& -PHASE_BOUND_NS <= self.calibration_offset_ns <= PHASE_BOUND_NS
        &&& bounded(self.calibration)
        &&& 0 <= self.prev_t1_ns < 0x4000_0000_0000_0000
        &&& self.ntp_samples.len() <= NTP_SAMPLE_COUNT + 2
        &&& self.pending.dom().finite()
        &&& self.servo.wf()
    }

    /// No counter is at its end.
    pub open spec fn has_headroom(self) -> bool {
        self.valid_count < usize::MAX && self.servo.has_headroom()
    }

    /// Samples are ignored because the clock was stepped a moment ago.
    pub open spec fn in_grace(self, now: u64) -> bool {
        self.last_ntp_step matches Some(t) && since(t, now) < STEP_GRACE_NS
    }

    /// Phase offsets are still collected for the calibration.
    pub open spec fn calibrating(self) -> bool {
        !self.calibration_complete && self.config.filters.calibration_samples != 0
    }

    /// The state after a phase offset for the calibration: the median of all,
    /// once there are enough.
    pub open spec fn calibrated(self, phase: i64) -> Model {
        let samples = self.calibration.push(phase);
        if samples.len() >= self.config.filters.calibration_samples {
            Model {
                calibration: samples,
                calibration_offset_ns: median_integer(samples),
                calibration_complete: true,
                ..self
            }
        } else {
            Model { calibration: samples, ..self }
        }
    }

    /// The warm-up is over, or there is none.
    pub open spec fn warm(self, now: u64) -> bool {
        let w = self.config.filters.warmup_secs;
        self.warmup_complete || w.at_most(Double::zero()) || w.at_most(
            in_seconds(since(self.warmup_start, now)),
        )
    }

    /// The least distance of two samples in master time.
    pub open spec fn min_delta(self) -> i64 {
        if self.config.filters.min_delta_ns > 0 {
            self.config.filters.min_delta_ns
        } else {
            DEFAULT_MIN_T1_DELTA_NS
        }
    }

    /// A sync pair counts as a sample.
    pub open spec fn takes_sample(self, t1_ns: int, now: u64) -> bool {
        let d = t1_ns - self.prev_t1_ns;
        !self.in_grace(now) && (self.prev_t1_ns == 0 || d >= self.min_delta() || -d
            >= self.min_delta())
    }

    /// The state after a full window, whose least offset counts, and the factor for
    /// the clock.
    pub open spec fn windowed(self, now: u64) -> (Model, Action) {
        let lucky = least(self.window);
        let offset_us = Double::integer(lucky as int).over(Double::integer(1000));
        let cleared = Model { window: Seq::empty(), last_phase_offset_ns: lucky, ..self };
        if self.in_grace(now) {
            (cleared, Action::Nothing)
        } else {
            (
                Model { servo: self.servo.after(offset_us, now), ..cleared },
                Action::Adjust(
                    Double::integer(1).plus(
                        self.servo.correction(offset_us, now).over(Double::integer(1_000_000)),
                    ),
                ),
            )
        }
    }

    /// The state after a sync pair that counts.
    pub open spec fn settled(self, t1_ns: i64, t2_ns: i64, offset: i64, now: u64) -> (
        Model,
        Action,
    ) {
        let m = if self.clock_settled {
            self
        } else {
            Model {
                clock_settled: true,
                initial_epoch_offset_ns: wrapped_difference(t2_ns, t1_ns),
                epoch_aligned: true,
                ..self
            }
        };
        let n = if m.takes_sample(t1_ns as int, now) {
            Model { window: m.window.push(offset), ..m }
        } else {
            m
        };
        if n.window.len() > 0 && n.window.len() >= n.config.filters.sample_window_size {
            n.windowed(now)
        } else {
            (n, Action::Nothing)
        }
    }

    /// The state after a sync pair.
    pub open spec fn paired(self, t1_ns: i64, t2_ns: i64, now: u64) -> (Model, Action) {
        let phase = phase_offset(t1_ns as int, t2_ns as int) as i64;
        if self.calibrating() {
            (self.calibrated(phase), Action::Nothing)
        } else if !self.warm(now) {
            (self, Action::Nothing)
        } else {
            let m = Model {
                warmup_complete: true,
                valid_count: (self.valid_count + 1) as usize,
                ..self
            };
            let (n, action) = if m.valid_count >= m.settling_threshold {
                m.settled(t1_ns, t2_ns, (phase - self.calibration_offset_ns) as i64, now)
            } else {
                (m, Action::Nothing)
            };
            (Model { prev_t1_ns: t1_ns, prev_t2_ns: t2_ns, ..n }, action)
        }
    }

    /// The state after a change of the grandmaster.
    pub open spec fn restarted(self, now: u64) -> Model {
        Model {
            valid_count: 0,
            clock_settled: false,
            prev_t1_ns: 0,
            prev_t2_ns: 0,
            window: Seq::empty(),
            warmup_start: now,
            warmup_complete: false,
            servo: self.servo.restarted(),
            ntp_samples: Seq::empty(),
            last_ntp_check: now,
            last_ntp_step: None,
            ..self
        }
    }

    /// The state after a Sync message: a master is there, the message waits for its
    /// Follow_Up, and it tells who the grandmaster is.
    pub open spec fn synced(
        self,
        sequence_id: u16,
        sync: PendingSync,
        gm: Option<ClockUuid>,
        now: u64,
    ) -> (Model, Action) {
        let m = Model { pending: self.pending.insert(sequence_id, sync), ..self.met(now) };
        match (gm, self.gm) {
            (Some(new), Some(current)) => if current.bytes@ != new.bytes@ {
                (Model { gm: Some(new), ..m }.restarted(now), Action::Reset)
            } else {
                (m, Action::Nothing)
            },
            (Some(new), None) => (Model { gm: Some(new), ..m }, Action::Nothing),
            (None, _) => (m, Action::Nothing),
        }
    }

    /// The state after a Follow_Up message from a source: it completes the Sync
    /// message that it names, if that came from the same source.
    pub open spec fn followed(self, body: PtpV1FollowUpBody, source: Seq<u8>, now: u64) -> (
        Model,
        Action,
    ) {
        let id = body.associated_sequence_id;
        let m = Model { pending: self.pending.remove(id), ..self };
        if !self.pending.contains_key(id) {
            (self, Action::Nothing)
        } else if self.pending[id].source_uuid.bytes@ != source {
            (m, Action::Nothing)
        } else {
            m.paired(
                body.precise_origin_timestamp.total_nanos() as i64,
                self.pending[id].rx_time.epoch_nanos() as i64,
                now,
            )
        }
    }

    /// The state after stale messages were dropped, if there are many.
    pub open spec fn pruned(self, wall: WallTime) -> Model {
        if self.pending.len() > PENDING_LIMIT {
            Model {
                pending: self.pending.restrict(
                    Set::new(|k: u16| self.pending.contains_key(k) && fresh(self.pending[k], wall)),
                ),
                ..self
            }
        } else {
            self
        }
    }

    /// The state once a master was heard.
    pub open spec fn met(self, now: u64) -> Model {
        Model { last_sync: now, ptp_offline: false, ..self }
    }

    /// The state after a look at how long no master was heard.
    pub open spec fn watched(self, now: u64) -> Model {
        Model { ptp_offline: since(self.last_sync, now) >= PTP_TIMEOUT_NS, ..self }
    }

    /// It is time to ask for UTC because no master is there.
    pub open spec fn fallback_due(self, now: u64) -> bool {
        self.ptp_offline && self.ntp_tracking_enabled && since(self.last_ntp_check, now)
            >= NTP_CHECK_INTERVAL_NS
    }

    /// It is time to ask for UTC.
    pub open spec fn ntp_due(self, now: u64) -> bool {
        self.servo.is_locked && self.ntp_tracking_enabled && since(self.last_ntp_check, now)
            >= NTP_CHECK_INTERVAL_NS
    }

    /// The state after an answer to that.
    pub open spec fn answered(self, offset: Span, sign: i8) -> Model {
        let s = self.ntp_samples.push(signed_micros(offset, sign) as i64);
        Model {
            ntp_samples: if s.len() > NTP_SAMPLE_COUNT + 2 {
                s.drop_first()
            } else {
                s
            },
            ..self
        }
    }

    /// The state after a step of the clock.
    pub open spec fn stepped(self, now: u64) -> Model {
        Model {
            ntp_samples: Seq::empty(),
            window: Seq::empty(),
            last_ntp_step: Some(now),
            servo: self.servo.detached(),
            ..self
        }
    }

    /// A status at a wall-clock time tells the state; the rest of it is that of
    /// the status before.
    pub open spec fn reported(self, before: SyncStatus, wall: WallTime, after: SyncStatus) -> bool {
        &&& after.offset_ns == self.last_phase_offset_ns
        &&& after.drift_ppm == self.servo.last_adj_ppm
        &&& after.gm_uuid == self.gm
        &&& after.settled == self.clock_settled
        &&& after.updated_ts == wall.epoch_seconds()
        &&& after.is_locked == self.servo.is_locked
        &&& after.smoothed_rate_ppm == self.servo.smoothed_rate_ppm
        &&& after.mode@ == self.mode()
        &&& after.ntp_offset_us == before.ntp_offset_us
        &&& after.ntp_failed == before.ntp_failed
    }

    /// Name of the operating mode.
    pub open spec fn mode(self) -> Seq<char> {
        if self.ptp_offline {
            "NTP-only"@
        } else if self.servo.nano.active {
            "NANO"@
        } else if self.servo.is_locked {
            "LOCK"@
        } else if self.servo.in_production_mode {
            "PROD"@
        } else {
            "ACQ"@
        }
    }
}

/// The step that an offset to UTC calls for.
pub open spec fn step_for(offset_us: int) -> Option<(nat, int)> {
    if offset_us > NTP_STEP_THRESHOLD_US {
        Some((offset_us as nat, 1))
    } else if offset_us < -NTP_STEP_THRESHOLD_US {
        Some(((-offset_us) as nat, -1))
    } else {
        None
    }
}

/// The state after a message, and what it asks for. The identities that a
/// message holds are known by their bytes.
pub open spec fn handled(
    before: Model,
    data: Seq<u8>,
    arrival: WallTime,
    now: u64,
    after: Model,
    action: Action,
) -> bool {
    let body = data.skip(HEADER_SIZE as int);
    match control_of(data[32]) {
        PtpV1Control::Sync => exists|sync: PendingSync, gm: Option<ClockUuid>| #[trigger]
            before.synced(word(data, 30) as u16, sync, gm, now) == (after, action) && sync.rx_time
                == arrival && sync.source_uuid.bytes@ == data.subrange(22, 28) && (gm is Some
                <==> body.len() >= SYNC_BODY_SIZE) && (gm matches Some(u) ==> u.bytes@
                == body.subrange(13, 19)),
        PtpV1Control::FollowUp => if body.len() >= FOLLOW_UP_BODY_SIZE {
            (after, action) == before.followed(
                PtpV1FollowUpBody::read(body),
                data.subrange(22, 28),
                now,
            )
        } else {
            (after, action) == (before, Action::Nothing)
        },
        _ => (after, action) == (before, Action::Nothing),
    }
}

impl View for SyncState {
    type V = Model;

    open spec fn view(&self) -> Model {
        Model {
            config: self.config,
            pending: self.pending_syncs@,
            prev_t1_ns: self.prev_t1_ns,
            prev_t2_ns: self.prev_t2_ns,
            gm: self.current_gm_uuid,
            window: self.sample_window@,
            last_phase_offset_ns: self.last_phase_offset_ns,
            initial_epoch_offset_ns: self.initial_epoch_offset_ns,
            epoch_aligned: self.epoch_aligned,
            valid_count: self.valid_count,
            clock_settled: self.clock_settled,
            settling_threshold: self.settling_threshold,
            calibration: self.calibration_samples@,
            calibration_offset_ns: self.calibration_offset_ns,
            calibration_complete: self.calibration_complete,
            warmup_start: self.warmup_start,
            warmup_complete: self.warmup_complete,
            servo: self.servo@,
            last_ntp_check: self.last_ntp_check,
            ntp_samples: self.ntp_offset_samples@,
            ntp_tracking_enabled: self.ntp_tracking_enabled,
            last_ntp_step: self.last_ntp_step,
            last_sync: self.last_sync,
            ptp_offline: self.ptp_offline,
        }
    }
}

fn second_part(t: i64) -> (r: i64)
    ensures
        r == part_of_second(t as int),
        -1_000_000_000 < r < 1_000_000_000,
        t >= 0 ==> r >= 0,
{
    if t < 0 {
        let m: u128 = (-(t as i128)) as u128 % 1_000_000_000;
        -(m as i64)
    } else {
        (t as u64 % 1_000_000_000) as i64
    }
}

/// Local minus master time, within the second.
pub fn calculate_phase_offset(t1_ns: i64, t2_ns: i64) -> (r: i64)
    ensures
        r == phase_offset(t1_ns as int, t2_ns as int),
        -PHASE_BOUND_NS <= r <= PHASE_BOUND_NS,
{
    let d: i64 = second_part(t2_ns) - second_part(t1_ns);
    if d > 500_000_000 {
        d - 1_000_000_000
    } else if d < -500_000_000 {
        d + 1_000_000_000
    } else {
        d
    }
}

impl SyncState {
    /// The state before the first packet, at a monotonic time.
    pub fn new(config: SystemConfig, now: u64) -> (r: SyncState)
        ensures
            r@ == Model::initial(config, now),
            r@.wf(),
            r@.has_headroom(),
    {
        SyncState {
            config,
            pending_syncs: HashMap::new(),
            prev_t1_ns: 0,
            prev_t2_ns: 0,
            current_gm_uuid: None,
            sample_window: Vec::new(),
            last_phase_offset_ns: 0,
            initial_epoch_offset_ns: 0,
            epoch_aligned: false,
            valid_count: 0,
            clock_settled: false,
            settling_threshold: 1,
            calibration_samples: Vec::new(),
            calibration_offset_ns: 0,
            calibration_complete: config.filters.calibration_samples == 0,
            warmup_start: now,
            warmup_complete: false,
            servo: RateServo::new(),
            last_ntp_check: now,
            ntp_offset_samples: VecDeque::new(),
            ntp_tracking_enabled: true,
            last_ntp_step: None,
            last_sync: now,
            ptp_offline: false,
        }
    }

    /// Whether no counter is at its end.
    pub fn can_count(&self) -> (r: bool)
        ensures
            r == self@.has_headroom(),
    {
        self.valid_count < usize::MAX && self.servo.can_count()
    }

    fn in_grace(&self, now: u64) -> (r: bool)
        ensures
            r == self@.in_grace(now),
    {
        match self.last_ntp_step {
            Some(t) => elapsed(t, now) < STEP_GRACE_NS,
            None => false,
        }
    }

    /// Takes a phase offset for the calibration; whether it was needed.
    fn process_calibration(&mut self, phase_offset_ns: i64) -> (r: bool)
        requires
            old(self)@.wf(),
            -PHASE_BOUND_NS <= phase_offset_ns <= PHASE_BOUND_NS,
        ensures
            final(self)@.wf(),
            r == old(self)@.calibrating(),
            final(self)@ == if r {
                old(self)@.calibrated(phase_offset_ns)
            } else {
                old(self)@
            },
    {
        let count = self.config.filters.calibration_samples;
        if self.calibration_complete || count == 0 {
            return false;
        }
        self.calibration_samples.push(phase_offset_ns);
        if self.calibration_samples.len() >= count {
            proof {
                lemma_middle(integer_keys(self.calibration_samples@));
            }
            self.calibration_offset_ns = median_i64(&self.calibration_samples);
            self.calibration_complete = true;
        }
        true
    }

    /// Whether the warm-up is over.
    fn process_warmup(&mut self, now: u64) -> (r: bool)
        requires
            old(self)@.wf(),
        ensures
            final(self)@.wf(),
            r == old(self)@.warm(now),
            final(self)@ == if r {
                Model { warmup_complete: true, ..old(self)@ }
            } else {
                old(self)@
            },
    {
        if self.warmup_complete {
            return true;
        }
        let warmup_secs = self.config.filters.warmup_secs;
        if warmup_secs.le(Double::from_bits(0)) || warmup_secs.le(
            seconds(elapsed(self.warmup_start, now)),
        ) {
            self.warmup_complete = true;
            true
        } else {
            false
        }
    }

    fn should_add_sample(&self, t1_ns: i64, now: u64) -> (r: bool)
        requires
            self@.wf(),
            0 <= t1_ns < 0x4000_0000_0000_0000,
        ensures
            r == self@.takes_sample(t1_ns as int, now),
    {
        if self.in_grace(now) {
            return false;
        }
        if self.prev_t1_ns == 0 {
            return true;
        }
        let min_delta: i64 = if self.config.filters.min_delta_ns > 0 {
            self.config.filters.min_delta_ns
        } else {
            DEFAULT_MIN_T1_DELTA_NS
        };
        let d: i64 = t1_ns - self.prev_t1_ns;
        d >= min_delta || -d >= min_delta
    }

    /// Feeds the least offset of a full window to the servo: that of the packet
    /// that waited least.
    fn process_sample_window(&mut self, now: u64) -> (r: Action)
        requires
            old(self)@.wf(),
            old(self)@.servo.has_headroom(),
            old(self)@.window.len() > 0,
        ensures
            final(self)@.wf(),
            (final(self)@, r) == old(self)@.windowed(now),
    {
        let lucky = least_i64(&self.sample_window);
        let offset_us = Double::from_i64(lucky).div(Double::from_i64(1000));
        self.last_phase_offset_ns = lucky;
        let action = if self.in_grace(now) {
            Action::Nothing
        } else {
            Action::Adjust(self.servo.apply(offset_us, now))
        };
        self.sample_window.clear();
        action
    }

    fn process_settled_sync(&mut self, t1_ns: i64, t2_ns: i64, offset_ns: i64, now: u64) -> (r:
        Action)
        requires
            old(self)@.wf(),
            old(self)@.servo.has_headroom(),
            0 <= t1_ns < 0x4000_0000_0000_0000,
        ensures
            final(self)@.wf(),
            (final(self)@, r) == old(self)@.settled(t1_ns, t2_ns, offset_ns, now),
    {
        if !self.clock_settled {
            self.clock_settled = true;
            self.initial_epoch_offset_ns = t2_ns.wrapping_sub(t1_ns);
            self.epoch_aligned = true;
        }
        if self.should_add_sample(t1_ns, now) {
            self.sample_window.push(offset_ns);
        }
        if self.sample_window.len() > 0 && self.sample_window.len()
            >= self.config.filters.sample_window_size {
            self.process_sample_window(now)
        } else {
            Action::Nothing
        }
    }

    /// Takes a sync pair: when a message left the master, and when it arrived.
    pub fn process_sync_pair(&mut self, t1_ns: i64, t2: WallTime, now: u64) -> (r: Action)
        requires
            old(self)@.wf(),
            old(self)@.has_headroom(),
            0 <= t1_ns < 0x4000_0000_0000_0000,
        ensures
            final(self)@.wf(),
            (final(self)@, r) == old(self)@.paired(t1_ns, t2.epoch_nanos() as i64, now),
    {
        let t2_ns = t2.as_epoch_nanos();
        let phase_offset_ns = calculate_phase_offset(t1_ns, t2_ns);
        if self.process_calibration(phase_offset_ns) {
            return Action::Nothing;
        }
        let offset_ns: i64 = phase_offset_ns - self.calibration_offset_ns;
        if !self.process_warmup(now) {
            return Action::Nothing;
        }
        self.valid_count = self.valid_count + 1;
        let action = if self.valid_count >= self.settling_threshold {
            self.process_settled_sync(t1_ns, t2_ns, offset_ns, now)
        } else {
            Action::Nothing
        };
        self.prev_t1_ns = t1_ns;
        self.prev_t2_ns = t2_ns;
        action
    }

    /// Starts afresh with another grandmaster.
    fn reset_filter(&mut self, now: u64)
        requires
            old(self)@.wf(),
        ensures
            final(self)@.wf(),
            final(self)@ == old(self)@.restarted(now),
    {
        self.valid_count = 0;
        self.clock_settled = false;
        self.prev_t1_ns = 0;
        self.prev_t2_ns = 0;
        self.sample_window.clear();
        self.warmup_start = now;
        self.warmup_complete = false;
        self.servo.restart();
        self.ntp_offset_samples.clear();
        self.last_ntp_check = now;
        self.last_ntp_step = None;
    }

    fn handle_sync_message(
        &mut self,
        header: &PtpV1Header,
        body: &[u8],
        t2: WallTime,
        now: u64,
    ) -> (r: Action)
        requires
            old(self)@.wf(),
        ensures
            final(self)@.wf(),
            exists|gm: Option<ClockUuid>| #[trigger]
                old(self)@.synced(
                    header.sequence_id,
                    PendingSync { rx_time: t2, source_uuid: header.source_uuid },
                    gm,
                    now,
                ) == (final(self)@, r) && (gm is Some <==> body@.len() >= SYNC_BODY_SIZE) && (
                gm matches Some(u) ==> u.bytes@ == body@.subrange(13, 19)),
    {
        let ghost before = self@;
        let sync = PendingSync { rx_time: t2, source_uuid: header.source_uuid };
        let _ = self.pending_syncs.insert(header.sequence_id, sync);
        self.last_sync = now;
        self.ptp_offline = false;
        match PtpV1SyncMessageBody::parse(body) {
            Ok(b) => {
                let new = b.grandmaster_clock_uuid;
                let ghost gm = Some(new);
                let action = match self.current_gm_uuid {
                    Some(current) => {
                        if !current.same(&new) {
                            self.current_gm_uuid = Some(new);
                            self.reset_filter(now);
                            Action::Reset
                        } else {
                            Action::Nothing
                        }
                    },
                    None => {
                        self.current_gm_uuid = Some(new);
                        Action::Nothing
                    },
                };
                assert(before.synced(header.sequence_id, sync, gm, now) == (self@, action));
                action
            },
            Err(_) => {
                let ghost gm: Option<ClockUuid> = None;
                assert(before.synced(header.sequence_id, sync, gm, now) == (
                    self@,
                    Action::Nothing,
                ));
                Action::Nothing
            },
        }
    }

    fn handle_followup_message(&mut self, header: &PtpV1Header, body: &[u8], now: u64) -> (r:
        Action)
        requires
            old(self)@.wf(),
            old(self)@.has_headroom(),
        ensures
            final(self)@.wf(),
            (final(self)@, r) == if body@.len() >= FOLLOW_UP_BODY_SIZE {
                old(self)@.followed(
                    PtpV1FollowUpBody::read(body@),
                    header.source_uuid.bytes@,
                    now,
                )
            } else {
                (old(self)@, Action::Nothing)
            },
    {
        let ghost before = self@;
        match PtpV1FollowUpBody::parse(body) {
            Ok(b) => {
                match self.pending_syncs.remove(&b.associated_sequence_id) {
                    Some(sync) => {
                        assert(self@ == (Model {
                            pending: before.pending.remove(b.associated_sequence_id),
                            ..before
                        }));
                        if sync.source_uuid.same(&header.source_uuid) {
                            self.process_sync_pair(
                                b.precise_origin_timestamp.to_nanos(),
                                sync.rx_time,
                                now,
                            )
                        } else {
                            Action::Nothing
                        }
                    },
                    None => {
                        assert(self@ == before);
                        Action::Nothing
                    },
                }
            },
            Err(_) => Action::Nothing,
        }
    }

    /// Handles a message that arrived at a wall-clock time, at a monotonic time;
    /// `None` if it is no PTP message.
    pub fn handle_packet(&mut self, data: &[u8], t2: WallTime, now: u64) -> (r: Option<Action>)
        requires
            old(self)@.wf(),
            old(self)@.has_headroom(),
        ensures
            final(self)@.wf(),
            r is None <==> data@.len() < HEADER_SIZE,
            r is None ==> final(self)@ == old(self)@,
            r matches Some(action) ==> handled(
                old(self)@,
                data@,
                t2,
                now,
                final(self)@,
                action,
            ),
    {
        let ghost before = self@;
        match PtpV1Header::parse(data) {
            Ok(header) => {
                let body = slice_subrange(data, HEADER_SIZE, data.len());
                assert(body@ == data@.skip(HEADER_SIZE as int));
                let action = match header.message_type {
                    PtpV1Control::Sync => {
                        let action = self.handle_sync_message(&header, body, t2, now);
                        proof {
                            let sync = PendingSync { rx_time: t2, source_uuid: header.source_uuid };
                            let gm = choose|gm: Option<ClockUuid>|
                                #[trigger] before.synced(header.sequence_id, sync, gm, now) == (
                                    self@,
                                    action,
                                ) && (gm is Some <==> body@.len() >= SYNC_BODY_SIZE) && (
                                gm matches Some(u) ==> u.bytes@ == body@.subrange(13, 19));
                            assert(before.synced(word(data@, 30) as u16, sync, gm, now) == (
                                self@,
                                action,
                            ));
                        }
                        action
                    },
                    PtpV1Control::FollowUp => self.handle_followup_message(&header, body, now),
                    _ => Action::Nothing,
                };
                Some(action)
            },
            Err(_) => None,
        }
    }

    /// Drops stale messages, if many wait.
    pub fn prune(&mut self, wall: WallTime)
        requires
            old(self)@.wf(),
        ensures
            final(self)@.wf(),
            final(self)@ == old(self)@.pruned(wall),
    {
        if self.pending_syncs.len() > PENDING_LIMIT {
            retain_fresh(&mut self.pending_syncs, wall);
        }
    }

    /// Whether it is time to ask for UTC; if so, the next time is set.
    pub fn ntp_due(&mut self, now: u64) -> (r: bool)
        requires
            old(self)@.wf(),
        ensures
            final(self)@.wf(),
            r == old(self)@.ntp_due(now),
            final(self)@ == if r {
                Model { last_ntp_check: now, ..old(self)@ }
            } else {
                old(self)@
            },
    {
        if !self.servo.is_locked || !self.ntp_tracking_enabled {
            return false;
        }
        if elapsed(self.last_ntp_check, now) < NTP_CHECK_INTERVAL_NS {
            return false;
        }
        self.last_ntp_check = now;
        true
    }

    /// Looks at how long no master was heard: whether none is there.
    pub fn watch(&mut self, now: u64) -> (r: bool)
        requires
            old(self)@.wf(),
        ensures
            final(self)@.wf(),
            final(self)@ == old(self)@.watched(now),
            r == final(self)@.ptp_offline,
    {
        self.ptp_offline = elapsed(self.last_sync, now) >= PTP_TIMEOUT_NS;
        self.ptp_offline
    }

    /// Whether it is time to ask for UTC because no master is there; if so, the next
    /// time is counted from now.
    pub fn fallback_due(&mut self, now: u64) -> (r: bool)
        requires
            old(self)@.wf(),
        ensures
            final(self)@.wf(),
            r == old(self)@.fallback_due(now),
            final(self)@ == if r {
                Model { last_ntp_check: now, ..old(self)@ }
            } else {
                old(self)@
            },
    {
        if !self.ptp_offline || !self.ntp_tracking_enabled {
            return false;
        }
        if elapsed(self.last_ntp_check, now) < NTP_CHECK_INTERVAL_NS {
            return false;
        }
        self.last_ntp_check = now;
        true
    }

    /// Takes an offset to UTC and its sign: the offset in microseconds, and the
    /// step that it calls for.
    pub fn ntp_answer(&mut self, offset: Span, sign: i8) -> (r: (i64, Option<(Span, i8)>))
        requires
            old(self)@.wf(),
        ensures
            final(self)@.wf(),
            final(self)@ == old(self)@.answered(offset, sign),
            r.0 == signed_micros(offset, sign),
            r.1 is Some <==> step_for(r.0 as int) is Some,
            r.1 matches Some((span, s)) ==> step_for(r.0 as int) == Some(
                (span.total_nanos() / 1000, s as int),
            ) && span.total_nanos() % 1000 == 0 && span.nanos < 1_000_000_000,
    {
        let n = wrap(offset.as_nanos());
        let q: i64 = if n < 0 {
            -(((-(n as i128)) as u128 / 1000) as i64)
        } else {
            (n as u64 / 1000) as i64
        };
        proof {
            let (a, b) = (q as int, sign as int);
            assert(-0x4000_0000_0000_0000 < a * b < 0x4000_0000_0000_0000) by (nonlinear_arith)
                requires
                    -10_000_000_000_000_000 < a < 10_000_000_000_000_000,
                    -128 <= b <= 127,
            ;
        }
        let offset_us: i64 = q * sign as i64;
        let ghost before = self@;
        self.ntp_offset_samples.push_back(offset_us);
        if self.ntp_offset_samples.len() > NTP_SAMPLE_COUNT + 2 {
            let _ = self.ntp_offset_samples.pop_front();
        }
        assert(self@ == before.answered(offset, sign));
        let step = if offset_us > NTP_STEP_THRESHOLD_US {
            Some((Span::from_micros(offset_us as u64), 1i8))
        } else if offset_us < -NTP_STEP_THRESHOLD_US {
            Some((Span::from_micros((-offset_us) as u64), -1i8))
        } else {
            None
        };
        (offset_us, step)
    }

    /// Starts afresh after a step of the clock at a monotonic time.
    pub fn ntp_stepped(&mut self, now: u64)
        requires
            old(self)@.wf(),
        ensures
            final(self)@.wf(),
            final(self)@ == old(self)@.stepped(now),
    {
        self.ntp_offset_samples.clear();
        self.sample_window.clear();
        self.last_ntp_step = Some(now);
        self.servo.detach();
    }

    /// Takes whether the clock took the step that an answer calls for, at a
    /// monotonic time: only then everything starts afresh.
    pub fn ntp_step_done(&mut self, taken: bool, now: u64)
        requires
            old(self)@.wf(),
        ensures
            final(self)@.wf(),
            final(self)@ == if taken {
                old(self)@.stepped(now)
            } else {
                old(self)@
            },
    {
        if taken {
            self.ntp_stepped(now);
        }
    }

    /// Enables or disables periodic UTC tracking.
    pub fn set_ntp_tracking(&mut self, enabled: bool)
        requires
            old(self)@.wf(),
        ensures
            final(self)@.wf(),
            final(self)@ == (Model { ntp_tracking_enabled: enabled, ..old(self)@ }),
    {
        self.ntp_tracking_enabled = enabled;
    }

    /// Writes the state into a status, at a wall-clock time. The offset to UTC
    /// stays as it is.
    pub fn report(&self, status: &mut SyncStatus, wall: WallTime)
        ensures
            self@.reported(*old(status), wall, *final(status)),
    {
        status.offset_ns = self.last_phase_offset_ns;
        status.drift_ppm = self.servo.last_adj_ppm;
        status.gm_uuid = self.current_gm_uuid;
        status.settled = self.clock_settled;
        status.updated_ts = wall.as_epoch_seconds();
        status.is_locked = self.servo.is_locked;
        status.smoothed_rate_ppm = self.servo.smoothed_rate_ppm;
        let mode = if self.ptp_offline {
            "NTP-only"
        } else if self.servo.nano.active {
            "NANO"
        } else if self.servo.is_locked {
            "LOCK"
        } else if self.servo.in_production_mode {
            "PROD"
        } else {
            "ACQ"
        };
        status.mode = mode.to_owned();
    }
}

/// The factor for the clock that a correction makes.
pub open spec fn factor_of(correction: Double) -> Double {
    Double::integer(1).plus(correction.over(Double::integer(1_000_000)))
}

/// What is asked of the clock is a correction of at most 500 ppm.
pub open spec fn moderate(action: Action) -> bool {
    action matches Action::Adjust(factor) ==> near_one(factor) && exists|c: Double|
        within(c, drift_max()) && factor == #[trigger] factor_of(c)
}

/// An offset in microseconds is finite.
pub proof fn lemma_offset_finite(offset_ns: i64)
    ensures
        Double::integer(offset_ns as int).over(Double::integer(1000)).finite(),
{
    let (a, k) = (Double::integer(offset_ns as int), Double::integer(1000));
    lemma_ratio_finite(offset_ns as int, 1);
    lemma_ratio_finite(1000, 1);
    lemma_ratio(1000, 1);
    lemma_ratio_order(1, 1, 1000, 1);
    lemma_over_shrinks(a, k);
}

/// A full window keeps the servo sound, and asks for a moderate correction.
proof fn lemma_windowed_moderate(m: Model, now: u64)
    requires
        m.servo.sound(),
    ensures
        m.windowed(now).0.servo.sound(),
        moderate(m.windowed(now).1),
{
    let lucky = least(m.window);
    lemma_offset_finite(lucky);
    let offset_us = Double::integer(lucky as int).over(Double::integer(1000));
    lemma_correction_bounded(m.servo, offset_us, now);
    let c = m.servo.correction(offset_us, now);
    if !m.in_grace(now) {
        assert(m.windowed(now).1 == Action::Adjust(factor_of(c)));
    }
}

/// A sync pair keeps the servo sound, and asks for a moderate correction.
pub proof fn lemma_paired_moderate(m: Model, t1_ns: i64, t2_ns: i64, now: u64)
    requires
        m.servo.sound(),
    ensures
        m.paired(t1_ns, t2_ns, now).0.servo.sound(),
        moderate(m.paired(t1_ns, t2_ns, now).1),
{
    let n = Model {
        warmup_complete: true,
        valid_count: (m.valid_count + 1) as usize,
        ..m
    };
    let offset = (phase_offset(t1_ns as int, t2_ns as int) as i64 - m.calibration_offset_ns) as i64;
    let settled = if n.clock_settled {
        n
    } else {
        Model {
            clock_settled: true,
            initial_epoch_offset_ns: wrapped_difference(t2_ns, t1_ns),
            epoch_aligned: true,
            ..n
        }
    };
    let sampled = if settled.takes_sample(t1_ns as int, now) {
        Model { window: settled.window.push(offset), ..settled }
    } else {
        settled
    };
    lemma_windowed_moderate(sampled, now);
}

/// No packet, whatever it holds and whenever it comes, asks the clock for more than
/// 500 ppm, or brings the servo out of its bounds.
pub proof fn lemma_packets_moderate(
    before: Model,
    data: Seq<u8>,
    arrival: WallTime,
    now: u64,
    after: Model,
    action: Action,
)
    requires
        before.servo.sound(),
        handled(before, data, arrival, now, after, action),
    ensures
        after.servo.sound(),
        moderate(action),
{
    let body = data.skip(HEADER_SIZE as int);
    lemma_restarted_sound(before.servo);
    match control_of(data[32]) {
        PtpV1Control::FollowUp => {
            if body.len() >= FOLLOW_UP_BODY_SIZE {
                let b = PtpV1FollowUpBody::read(body);
                let id = b.associated_sequence_id;
                let m = Model { pending: before.pending.remove(id), ..before };
                lemma_paired_moderate(
                    m,
                    b.precise_origin_timestamp.total_nanos() as i64,
                    before.pending[id].rx_time.epoch_nanos() as i64,
                    now,
                );
            }
        },
        _ => {},
    }
}

/// In the grace period after a step of the clock, no sync pair counts: the servo
/// stays as it is, and nothing is asked of the clock.
pub proof fn lemma_grace_period(m: Model, t1_ns: i64, t2_ns: i64, now: u64)
    requires
        m.in_grace(now),
    ensures
        m.paired(t1_ns, t2_ns, now).0.servo == m.servo,
        m.paired(t1_ns, t2_ns, now).1 == Action::Nothing,
        m.paired(t1_ns, t2_ns, now).0.window.len() <= m.window.len(),
{
}

/// With another grandmaster the synchronisation starts afresh, and the first pair
/// that comes then counts; the learned frequency stays. Messages of the same one
/// change nothing but what waits.
pub proof fn lemma_grandmaster(
    m: Model,
    sequence_id: u16,
    sync: PendingSync,
    current: ClockUuid,
    new: ClockUuid,
    now: u64,
)
    requires
        m.gm == Some(current),
    ensures
        ({
            let (n, action) = m.synced(sequence_id, sync, Some(new), now);
            if current.bytes@ == new.bytes@ {
                &&& n == (Model { pending: m.pending.insert(sequence_id, sync), ..m.met(now) })
                &&& action == Action::Nothing
            } else {
                &&& action == Action::Reset
                &&& n.gm == Some(new)
                &&& !n.clock_settled && !n.servo.is_locked && !n.servo.nano.active
                &&& n.servo.drift_baseline_ppm == m.servo.drift_baseline_ppm
                &&& n.servo.applied_freq_ppm == m.servo.applied_freq_ppm
                &&& n.servo.jitter == m.servo.jitter
                &&& n.window.len() == 0
                &&& forall|t1_ns: int, later: u64| #[trigger] n.takes_sample(t1_ns, later)
            }
        }),
{
}

/// Once calibrated, the calibration is one of the phase offsets that were measured.
pub proof fn lemma_calibration_was_measured(m: Model, phase: i64)
    requires
        m.calibrating(),
    ensures
        m.calibrated(phase).calibration_complete ==> m.calibrated(phase).calibration.contains(
            m.calibrated(phase).calibration_offset_ns,
        ),
        m.calibrated(phase).calibration_complete <==> m.calibration.len() + 1
            >= m.config.filters.calibration_samples,
{
    let s = m.calibration.push(phase);
    lemma_middle(integer_keys(s));
    assert(integer_keys(s).len() == s.len());
    assert(s.contains(s[middle(integer_keys(s))]));
}

/// After pruning, either few messages wait, or none that is stale.
pub proof fn lemma_pruned(m: Model, wall: WallTime, id: u16)
    requires
        m.pruned(wall).pending.contains_key(id),
    ensures
        m.pending.len() <= PENDING_LIMIT || fresh(m.pruned(wall).pending[id], wall),
        m.pending.contains_key(id),
        m.pruned(wall).pending[id] == m.pending[id],
{
}

/// A Follow_Up leaves no Sync message of its number waiting, and all others as they
/// are. A pair is used only if one of the same source waited; so one that comes
/// again, or without its Sync message, changes nothing.
pub proof fn lemma_follow_up(m: Model, body: PtpV1FollowUpBody, source: Seq<u8>, now: u64)
    ensures
        ({
            let id = body.associated_sequence_id;
            let (n, action) = m.followed(body, source, now);
            &&& n.pending == m.pending.remove(id)
            &&& !m.pending.contains_key(id) ==> n == m && action == Action::Nothing
            &&& m.pending.contains_key(id) && m.pending[id].source_uuid.bytes@ != source ==> n == (
            Model { pending: m.pending.remove(id), ..m }) && action == Action::Nothing
            &&& forall|again: PtpV1FollowUpBody, other: Seq<u8>, later: u64|
                again.associated_sequence_id == id ==> #[trigger] n.followed(again, other, later)
                    == (n, Action::Nothing)
        }),
{
    let id = body.associated_sequence_id;
    if !m.pending.contains_key(id) {
        assert(m.pending.remove(id) =~= m.pending);
    }
}

/// A Sync message and its Follow_Up from the same source make a pair, and nothing
/// of them is left waiting.
pub proof fn lemma_sync_and_follow_up(
    m: Model,
    sync: PendingSync,
    body: PtpV1FollowUpBody,
    now: u64,
    later: u64,
)
    ensures
        ({
            let id = body.associated_sequence_id;
            let n = m.synced(id, sync, None, now).0;
            let left = Model { pending: m.pending.remove(id), ..m.met(now) };
            n.followed(body, sync.source_uuid.bytes@, later) == left.paired(
                body.precise_origin_timestamp.total_nanos() as i64,
                sync.rx_time.epoch_nanos() as i64,
                later,
            )
        }),
{
    let id = body.associated_sequence_id;
    assert(m.pending.insert(id, sync).remove(id) =~= m.pending.remove(id));
}

/// A packet moves each counter by at most one step, so that the counters last for
/// as many packets as they can count.
pub proof fn lemma_counters_last(
    before: Model,
    data: Seq<u8>,
    arrival: WallTime,
    now: u64,
    after: Model,
    action: Action,
)
    requires
        before.has_headroom(),
        handled(before, data, arrival, now, after, action),
    ensures
        after.valid_count <= before.valid_count + 1,
        after.servo.lock_stable_count <= before.servo.lock_stable_count + 1,
        after.servo.nano.sustain_count <= before.servo.nano.sustain_count + 1,
        after.servo.nano.exit_count <= before.servo.nano.exit_count + 1,
{
}

/// Masters are taken for unavailable exactly once no Sync message came for the whole
/// time-out, and the mode then says so. The next Sync message ends it.
pub proof fn lemma_fallback(
    m: Model,
    now: u64,
    sequence_id: u16,
    sync: PendingSync,
    gm: Option<ClockUuid>,
    later: u64,
)
    ensures
        ({
            let w = m.watched(now);
            let n = w.synced(sequence_id, sync, gm, later).0;
            &&& w.ptp_offline <==> since(m.last_sync, now) >= PTP_TIMEOUT_NS
            &&& w.ptp_offline <==> w.mode() == "NTP-only"@
            &&& !w.ptp_offline ==> !w.fallback_due(now)
            &&& w.servo == m.servo && w.window == m.window && w.pending == m.pending
            &&& !n.ptp_offline && n.last_sync == later
            &&& !n.watched(later).ptp_offline
        }),
{
    reveal_strlit("NTP-only");
    reveal_strlit("NANO");
    reveal_strlit("LOCK");
    reveal_strlit("PROD");
    reveal_strlit("ACQ");
    assert("NTP-only"@.len() == 8 && "NANO"@.len() == 4 && "LOCK"@.len() == 4);
    assert("PROD"@.len() == 4 && "ACQ"@.len() == 3);
}

} // verus!
