//! What the daemon tells of its state.
use crate::ieee::double::Double;
use crate::ptp::ClockUuid;
use vstd::prelude::*;

verus! {

/// Snapshot of the synchronisation for display.
#[derive(Debug)]
pub struct SyncStatus {
    /// Phase offset to the master (ns).
    pub offset_ns: i64,
    /// Frequency correction (ppm).
    pub drift_ppm: Double,
    /// Identity of the grandmaster.
    pub gm_uuid: Option<ClockUuid>,
    pub settled: bool,
    /// Seconds since 1970 of the last update.
    pub updated_ts: u64,
    pub is_locked: bool,
    /// Smoothed drift rate (us/s).
    pub smoothed_rate_ppm: Double,
    /// Offset to UTC (us).
    pub ntp_offset_us: i64,
    /// Name of the operating mode.
    pub mode: String,
    /// The UTC source does not answer.
    pub ntp_failed: bool,
}

impl SyncStatus {
    /// All is as in another status.
    pub open spec fn copies(&self, o: &SyncStatus) -> bool {
        &&& self.offset_ns == o.offset_ns
        &&& self.drift_ppm == o.drift_ppm
        &&& self.gm_uuid == o.gm_uuid
        &&& self.settled == o.settled
        &&& self.updated_ts == o.updated_ts
        &&& self.is_locked == o.is_locked
        &&& self.smoothed_rate_ppm == o.smoothed_rate_ppm
        &&& self.ntp_offset_us == o.ntp_offset_us
        &&& self.mode@ == o.mode@
        &&& self.ntp_failed == o.ntp_failed
    }
}

impl Clone for SyncStatus {
    fn clone(&self) -> (r: SyncStatus)
        ensures
            r.copies(self),
    {
        SyncStatus {
            offset_ns: self.offset_ns,
            drift_ppm: self.drift_ppm,
            gm_uuid: self.gm_uuid,
            settled: self.settled,
            updated_ts: self.updated_ts,
            is_locked: self.is_locked,
            smoothed_rate_ppm: self.smoothed_rate_ppm,
            ntp_offset_us: self.ntp_offset_us,
            mode: self.mode.clone(),
            ntp_failed: self.ntp_failed,
        }
    }
}

impl Default for SyncStatus {
    fn default() -> (r: SyncStatus)
        ensures
            r.offset_ns == 0,
            r.drift_ppm == Double::zero(),
            r.gm_uuid is None,
            !r.settled,
            r.updated_ts == 0,
            !r.is_locked,
            r.smoothed_rate_ppm == Double::zero(),
            r.ntp_offset_us == 0,
            r.mode@ == Seq::<char>::empty(),
            !r.ntp_failed,
    {
        SyncStatus {
            offset_ns: 0,
            drift_ppm: Double::from_bits(0),
            gm_uuid: None,
            settled: false,
            updated_ts: 0,
            is_locked: false,
            smoothed_rate_ppm: Double::from_bits(0),
            ntp_offset_us: 0,
            mode: String::new(),
            ntp_failed: false,
        }
    }
}

/// Every copy holds what the original holds.
pub proof fn lemma_copy(s: &SyncStatus, r: SyncStatus)
    requires
        call_ensures(SyncStatus::clone, (s,), r),
    ensures
        r.offset_ns == s.offset_ns && r.drift_ppm == s.drift_ppm && r.gm_uuid == s.gm_uuid,
        r.settled == s.settled && r.updated_ts == s.updated_ts && r.is_locked == s.is_locked,
        r.smoothed_rate_ppm == s.smoothed_rate_ppm && r.ntp_offset_us == s.ntp_offset_us,
        r.mode@ == s.mode@ && r.ntp_failed == s.ntp_failed,
{
}

} // verus!
