//! The hardware clock's notion of a point in time.
use crate::time::WallTime;
use chrono::{DateTime, Datelike, Local, Timelike, Utc};
use vstd::prelude::*;

verus! {

/// A point in local time as the hardware clock takes it: the month from 0, the
/// year from 1900.
#[derive(Clone, Copy, Debug, PartialEq, Eq, Structural)]
pub struct RtcTime {
    pub tm_sec: i32,
    pub tm_min: i32,
    pub tm_hour: i32,
    pub tm_mday: i32,
    pub tm_mon: i32,
    pub tm_year: i32,
    pub tm_wday: i32,
    pub tm_yday: i32,
    pub tm_isdst: i32,
}

/// A point in local time by the calendar: the month from 0.
#[derive(Clone, Copy, Debug, PartialEq, Eq, Structural)]
pub struct LocalFields {
    pub second: u32,
    pub minute: u32,
    pub hour: u32,
    pub day: u32,
    pub month0: u32,
    pub year: i32,
}

impl LocalFields {
    /// The fields are within the bounds of clock and calendar.
    pub open spec fn in_range(self) -> bool {
        &&& self.second <= 59
        &&& self.minute <= 59
        &&& self.hour <= 23
        &&& 1 <= self.day <= 31
        &&& self.month0 <= 11
        &&& -262_145 <= self.year <= 262_143
    }

    /// Days since 1970 by the Gregorian calendar, which is counted from March of
    /// the year 0.
    pub open spec fn days(self) -> int {
        let y = if self.month0 < 2 {
            self.year - 1
        } else {
            self.year as int
        };
        let m = (self.month0 + 10) % 12;
        365 * y + y / 4 - y / 100 + y / 400 + (153 * m + 2) / 5 + self.day - 719_469
    }

    /// Seconds since 1970, without regard to the time zone.
    pub open spec fn seconds(self) -> int {
        self.days() * 86_400 + self.hour * 3_600 + self.minute * 60 + self.second
    }
}

/// `DateTime::from_timestamp`, `with_timezone` and the accessors of `Datelike` and
/// `Timelike`: a point in time, given in seconds since 1970 and nanoseconds, by
/// the calendar of the machine's time zone. The fields are in range and tell the
/// seconds since 1970, shifted by less than a day; `None` only beyond a quarter
/// of a million years. By how much the time zone shifts is the machine's matter.
#[verifier::external_body]
fn local_fields(secs: i64, nanos: u32) -> (r: Option<LocalFields>)
    requires
        nanos < 1_000_000_000,
    ensures
        -8_000_000_000_000 <= secs <= 8_000_000_000_000 ==> r is Some,
        r matches Some(f) ==> f.in_range() && secs - 86_400 < f.seconds() < secs + 86_400,
{
    let t: DateTime<Local> = DateTime::<Utc>::from_timestamp(secs, nanos)?.with_timezone(&Local);
    Some(LocalFields {
        second: t.second(),
        minute: t.minute(),
        hour: t.hour(),
        day: t.day(),
        month0: t.month0(),
        year: t.year(),
    })
}

impl Default for RtcTime {
    fn default() -> (r: RtcTime)
        ensures
            r == (RtcTime {
                tm_sec: 0,
                tm_min: 0,
                tm_hour: 0,
                tm_mday: 0,
                tm_mon: 0,
                tm_year: 0,
                tm_wday: 0,
                tm_yday: 0,
                tm_isdst: 0,
            }),
    {
        RtcTime {
            tm_sec: 0,
            tm_min: 0,
            tm_hour: 0,
            tm_mday: 0,
            tm_mon: 0,
            tm_year: 0,
            tm_wday: 0,
            tm_yday: 0,
            tm_isdst: 0,
        }
    }
}

/// The hardware clock's notion of a point in local time.
pub open spec fn rtc_of(f: LocalFields) -> RtcTime {
    RtcTime {
        tm_sec: f.second as i32,
        tm_min: f.minute as i32,
        tm_hour: f.hour as i32,
        tm_mday: f.day as i32,
        tm_mon: f.month0 as i32,
        tm_year: (f.year - 1900) as i32,
        tm_wday: 0,
        tm_yday: 0,
        tm_isdst: 0,
    }
}

/// The calendar of the machine's time zone told the fields of a point in time, or
/// that it has none.
pub closed spec fn told_by_calendar(secs: i64, nanos: u32, fields: Option<LocalFields>) -> bool {
    call_ensures(local_fields, (secs, nanos), fields)
}

/// The hardware clock's notion of what the calendar told.
pub open spec fn rtc_of_told(fields: Option<LocalFields>) -> Option<RtcTime> {
    match fields {
        Some(f) => Some(rtc_of(f)),
        None => None,
    }
}

/// The nanoseconds above the whole seconds.
pub open spec fn nanos_above(time: WallTime) -> int {
    time.nanos as int % 1_000_000_000
}

/// Whole seconds since 1970, rounded down.
pub open spec fn floor_seconds(time: WallTime) -> int {
    time.nanos as int / 1_000_000_000
}

impl RtcTime {
    /// The hardware clock's notion of a point in local time.
    pub fn from_fields(f: LocalFields) -> (r: RtcTime)
        requires
            f.in_range(),
        ensures
            r == rtc_of(f),
    {
        RtcTime {
            tm_sec: f.second as i32,
            tm_min: f.minute as i32,
            tm_hour: f.hour as i32,
            tm_mday: f.day as i32,
            tm_mon: f.month0 as i32,
            tm_year: f.year - 1900,
            tm_wday: 0,
            tm_yday: 0,
            tm_isdst: 0,
        }
    }

    /// The hardware clock's notion of a point in time, in the machine's time zone;
    /// `None` only beyond a quarter of a million years.
    pub fn at(time: WallTime) -> (r: Option<RtcTime>)
        ensures
            -8_000_000_000_000 <= floor_seconds(time) <= 8_000_000_000_000 ==> r is Some,
            i64::MIN <= floor_seconds(time) <= i64::MAX ==> exists|fields: Option<LocalFields>|
                r == #[trigger] rtc_of_told(fields) && told_by_calendar(
                    floor_seconds(time) as i64,
                    nanos_above(time) as u32,
                    fields,
                ),
            !(i64::MIN <= floor_seconds(time) <= i64::MAX) ==> r is None,
            r matches Some(v) ==> exists|f: LocalFields|
                v == #[trigger] rtc_of(f) && f.in_range() && floor_seconds(time) - 86_400
                    < f.seconds() < floor_seconds(time) + 86_400,
    {
        let (secs, nanos): (i128, u32) = if time.nanos < 0 {
            let m: u128 = (-(time.nanos + 1)) as u128;
            let q: u128 = m / 1_000_000_000;
            (-(q as i128) - 1, (999_999_999 - m % 1_000_000_000) as u32)
        } else {
            let m: u128 = time.nanos as u128;
            ((m / 1_000_000_000) as i128, (m % 1_000_000_000) as u32)
        };
        if secs < i64::MIN as i128 || secs > i64::MAX as i128 {
            return None;
        }
        let fields = local_fields(secs as i64, nanos);
        let r = match fields {
            Some(f) => Some(RtcTime::from_fields(f)),
            None => None,
        };
        assert(r == rtc_of_told(fields));
        r
    }
}

/// The hardware clock is told the local time field by field, months from zero and years
/// from 1900.
pub proof fn lemma_fields_told(f: LocalFields, r: RtcTime)
    requires
        f.in_range(),
        call_ensures(RtcTime::from_fields, (f,), r),
    ensures
        r.tm_sec == f.second && r.tm_min == f.minute && r.tm_hour == f.hour,
        r.tm_mday == f.day && r.tm_mon == f.month0 && r.tm_year + 1900 == f.year,
        r.tm_wday == 0 && r.tm_yday == 0 && r.tm_isdst == 0,
{
}

/// The seconds of a point in time are the whole ones before it, and the nanoseconds what is
/// left, before 1970 too.
pub proof fn lemma_floor_seconds(time: WallTime)
    ensures
        floor_seconds(time) * 1_000_000_000 + nanos_above(time) == time.nanos,
        0 <= nanos_above(time) < 1_000_000_000,
{
}

} // verus!
