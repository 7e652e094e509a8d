//! Timestamps in Winsock control messages.
use crate::time::WallTime;
use vstd::arithmetic::div_mod::*;
use vstd::prelude::*;

verus! {

/// Length of a control message's header: length, level and type.
pub const CONTROL_HEADER: usize = 16;

/// Level of socket options.
pub const SOL_SOCKET: u32 = 0xFFFF;

/// Type of a timestamp message.
pub const SO_TIMESTAMP: u32 = 0x300A;

/// Error of a receive that would have to wait.
pub const WSAEWOULDBLOCK: i32 = 10035;

/// A little-endian 32-bit number.
pub open spec fn little32(b: Seq<u8>, at: int) -> int {
    b[at] + b[at + 1] * 0x100 + b[at + 2] * 0x1_0000 + b[at + 3] * 0x100_0000
}

/// A little-endian 64-bit number.
pub open spec fn little64(b: Seq<u8>, at: int) -> int {
    little32(b, at) + little32(b, at + 4) * 0x1_0000_0000
}

/// A length rounded up to a multiple of 8.
pub open spec fn aligned(len: int) -> int {
    (len + 7) / 8 * 8
}

/// The message at an offset is a timestamp message with room for its data.
pub open spec fn is_stamp(control: Seq<u8>, end: int, at: int) -> bool {
    &&& little32(control, at + 8) == SOL_SOCKET
    &&& little32(control, at + 12) == SO_TIMESTAMP
    &&& at + 24 <= end
}

/// The timestamp in the control messages from an offset on: messages follow each
/// other, aligned to 8 bytes, up to one without length.
pub open spec fn stamp_from(control: Seq<u8>, end: int, at: int) -> Option<int>
    decreases
        if at < end {
            end - at
        } else {
            0
        },
{
    if at < 0 || at + 16 > end {
        None
    } else {
        let len = little64(control, at);
        if len <= 0 {
            None
        } else if is_stamp(control, end, at) {
            Some(little64(control, at + 16))
        } else {
            stamp_from(control, end, at + aligned(len))
        }
    }
}

fn read32(b: &[u8], at: usize) -> (r: u32)
    requires
        at + 4 <= b@.len(),
        at + 4 <= usize::MAX,
    ensures
        r == little32(b@, at as int),
{
    b[at] as u32 + b[at + 1] as u32 * 0x100 + b[at + 2] as u32 * 0x1_0000 + b[at + 3] as u32
        * 0x100_0000
}

fn read64(b: &[u8], at: usize) -> (r: u64)
    requires
        at + 8 <= b@.len(),
        at + 8 <= usize::MAX,
    ensures
        r == little64(b@, at as int),
{
    read32(b, at) as u64 + read32(b, at + 4) as u64 * 0x1_0000_0000
}

/// The timestamp (performance counter) in the control messages that came with a
/// packet, if there is one.
pub fn find_timestamp(control: &[u8], control_len: usize) -> (r: Option<u64>)
    requires
        control_len <= control@.len(),
    ensures
        r is Some <==> stamp_from(control@, control_len as int, 0) is Some,
        r matches Some(t) ==> stamp_from(control@, control_len as int, 0) == Some(t as int),
{
    let mut offset: usize = 0;
    while control_len >= CONTROL_HEADER && offset <= control_len - CONTROL_HEADER
        invariant
            control_len <= control@.len(),
            stamp_from(control@, control_len as int, 0) == stamp_from(
                control@,
                control_len as int,
                offset as int,
            ),
        decreases control_len - offset,
    {
        let len = read64(control, offset);
        if len == 0 {
            return None;
        }
        let level = read32(control, offset + 8);
        let kind = read32(control, offset + 12);
        if level == SOL_SOCKET && kind == SO_TIMESTAMP && control_len - offset >= 24 {
            return Some(read64(control, offset + 16));
        }
        let step: u128 = (len as u128 + 7) / 8 * 8;
        if step > (control_len - offset) as u128 {
            assert(stamp_from(control@, control_len as int, offset + aligned(len as int)) is None);
            return None;
        }
        offset = offset + step as usize;
    }
    None
}

/// Where the timestamp of a packet comes from.
#[derive(Clone, Copy, Debug, PartialEq, Eq, Structural)]
pub enum StampSource {
    /// The present time.
    Present,
    /// A reading of the performance counter.
    Counter(u64),
}

/// The timestamp of a packet: that of its control messages, if timestamping is
/// enabled and there is one.
pub fn extract_timestamp(timestamping_enabled: bool, control: &[u8], control_len: usize) -> (r:
    StampSource)
    requires
        control_len <= control@.len(),
    ensures
        r is Present <==> (!timestamping_enabled || stamp_from(control@, control_len as int, 0)
            is None),
        r matches StampSource::Counter(t) ==> stamp_from(control@, control_len as int, 0) == Some(
            t as int,
        ),
{
    if !timestamping_enabled || control_len == 0 {
        return StampSource::Present;
    }
    match find_timestamp(control, control_len) {
        Some(t) => StampSource::Counter(t),
        None => StampSource::Present,
    }
}

/// A quotient without its fractional part.
pub open spec fn truncated_quotient(n: int, d: int) -> int {
    if n < 0 {
        -((-n) / d)
    } else {
        n / d
    }
}

/// When the performance counter read `qpc`, if it reads `current` at `now`.
pub fn counter_time(qpc: i64, current: i64, frequency: i64, now: WallTime) -> (r: WallTime)
    requires
        frequency > 0,
        i64::MIN <= (current - qpc) * 1_000_000_000 <= i64::MAX,
        i128::MIN <= now.nanos - truncated_quotient(
            (current - qpc) * 1_000_000_000,
            frequency as int,
        ) <= i128::MAX,
    ensures
        r.nanos == now.nanos - truncated_quotient(
            (current - qpc) * 1_000_000_000,
            frequency as int,
        ),
{
    let ticks: i128 = (current as i128 - qpc as i128) * 1_000_000_000;
    let nanos: i128 = if ticks < 0 {
        -(((-ticks) as u128 / frequency as u128) as i128)
    } else {
        (ticks as u128 / frequency as u128) as i128
    };
    WallTime { nanos: now.nanos - nanos }
}

/// Whether an error means that no packet is there.
pub fn would_block(error: i32) -> (r: bool)
    ensures
        r == (error == WSAEWOULDBLOCK),
{
    error == WSAEWOULDBLOCK
}

/// A timestamp message that a walk over the control messages comes to is found: level
/// 0xFFFF, type 0x300A, and eight bytes of data within the length, of which the lowest
/// comes first.
pub proof fn lemma_stamp_here(control: Seq<u8>, end: int, at: int)
    requires
        0 <= at,
        at + 24 <= end <= control.len(),
        exists|i: int| at <= i < at + 8 && #[trigger] control[i] != 0,
        control[at + 8] == 0xFF && control[at + 9] == 0xFF && control[at + 10] == 0 && control[at
            + 11] == 0,
        control[at + 12] == 0x0A && control[at + 13] == 0x30 && control[at + 14] == 0 && control[at
            + 15] == 0,
    ensures
        stamp_from(control, end, at) == Some(
            control[at + 16] + control[at + 17] * 0x100 + control[at + 18] * 0x1_0000 + control[at
                + 19] * 0x100_0000 + control[at + 20] * 0x1_0000_0000 + control[at + 21]
                * 0x100_0000_0000 + control[at + 22] * 0x1_0000_0000_0000 + control[at + 23]
                * 0x100_0000_0000_0000,
        ),
{
    let i = choose|i: int| at <= i < at + 8 && #[trigger] control[i] != 0;
    assert(little64(control, at) > 0);
}

/// A control message of another kind is passed over: the next one follows at the next
/// multiple of eight bytes. A message without length ends the walk, and so does the end.
pub proof fn lemma_stamp_next(control: Seq<u8>, end: int, at: int, len: int)
    requires
        0 <= at <= end <= control.len(),
        at + 16 <= end ==> len == little64(control, at),
    ensures
        at + 16 > end || len == 0 ==> stamp_from(control, end, at) is None,
        at + 16 <= end && len > 0 && (control[at + 8] != 0xFF || control[at + 12] != 0x0A
            || control[at + 13] != 0x30) ==> exists|next: int|
            at + len <= next < at + len + 8 && (next - at) % 8 == 0 && stamp_from(control, end, at)
                == #[trigger] stamp_from(control, end, next),
{
    if at + 16 <= end && len > 0 && (control[at + 8] != 0xFF || control[at + 12] != 0x0A || control[
    at + 13] != 0x30) {
        assert(!is_stamp(control, end, at));
        let next = at + aligned(len);
        assert(at + len <= next < at + len + 8 && (next - at) % 8 == 0);
        assert(stamp_from(control, end, at) == stamp_from(control, end, next));
    }
}

/// A reading of the counter before the present one is as long ago as the ticks between
/// them take, to the nanosecond; one after it as far ahead.
pub proof fn lemma_counter_time(
    qpc: i64,
    current: i64,
    frequency: i64,
    now: WallTime,
    r: WallTime,
)
    requires
        frequency > 0,
        i64::MIN <= (current - qpc) * 1_000_000_000 <= i64::MAX,
        i128::MIN <= now.nanos - truncated_quotient(
            (current - qpc) * 1_000_000_000,
            frequency as int,
        ) <= i128::MAX,
        call_ensures(counter_time, (qpc, current, frequency, now), r),
    ensures
        current >= qpc ==> r.nanos <= now.nanos,
        current <= qpc ==> r.nanos >= now.nanos,
        -frequency < (now.nanos - r.nanos) * frequency - (current - qpc) * 1_000_000_000
            < frequency,
{
    let n = (current - qpc) * 1_000_000_000;
    let f = frequency as int;
    let m = if n < 0 {
        -n
    } else {
        n
    };
    lemma_fundamental_div_mod(m, f);
    lemma_mod_bound(m, f);
    let q = m / f;
    assert(q >= 0) by (nonlinear_arith)
        requires
            m == f * q + m % f,
            0 <= m % f < f,
            m >= 0,
    ;
    assert(f * q == q * f && (-q) * f == -(q * f)) by (nonlinear_arith);
}

/// Every packet has the timestamp of its control messages, if timestamping is enabled and
/// there is one, and else the present.
pub proof fn lemma_extracted(enabled: bool, control: &[u8], len: usize, r: StampSource)
    requires
        len <= control@.len(),
        call_ensures(extract_timestamp, (enabled, control, len), r),
    ensures
        !enabled ==> r is Present,
        enabled && stamp_from(control@, len as int, 0) is None ==> r is Present,
        enabled && stamp_from(control@, len as int, 0) is Some ==> r is Counter
            && r->Counter_0 == stamp_from(control@, len as int, 0)->0,
{
}

} // verus!
