//! PTP version 1 messages.
use vstd::prelude::*;

verus! {

/// UDP port of event messages.
pub const PTP_EVENT_PORT: u16 = 319;

/// UDP port of general messages.
pub const PTP_GENERAL_PORT: u16 = 320;

/// Length of the common header.
pub const HEADER_SIZE: usize = 36;

/// Length of a Sync body up to the end of the grandmaster's identity.
pub const SYNC_BODY_SIZE: usize = 19;

/// Length of a Follow_Up body.
pub const FOLLOW_UP_BODY_SIZE: usize = 16;

/// A message is shorter than its layout.
#[derive(Clone, Copy, Debug, PartialEq, Eq, Structural)]
pub struct TooShort;

/// Identity of a clock.
#[derive(Clone, Copy, Debug)]
pub struct ClockUuid {
    pub bytes: [u8; 6],
}

impl ClockUuid {
    /// Whether two identities are the same.
    pub fn same(&self, o: &ClockUuid) -> (r: bool)
        ensures
            r == (self.bytes@ == o.bytes@),
    {
        let mut i: usize = 0;
        while i < 6
            invariant
                i <= 6,
                forall|k: int| 0 <= k < i ==> self.bytes[k] == o.bytes[k],
            decreases 6 - i,
        {
            if self.bytes[i] != o.bytes[i] {
                assert(self.bytes@[i as int] != o.bytes@[i as int]);
                return false;
            }
            i = i + 1;
        }
        assert(self.bytes@ =~= o.bytes@);
        true
    }
}

/// Kind of a message.
#[derive(Clone, Copy, Debug, PartialEq, Eq, Structural)]
pub enum PtpV1Control {
    Sync,
    DelayReq,
    FollowUp,
    DelayResp,
    Management,
    Other,
}

/// The kind that a control byte stands for.
pub open spec fn control_of(b: u8) -> PtpV1Control {
    if b == 0 {
        PtpV1Control::Sync
    } else if b == 1 {
        PtpV1Control::DelayReq
    } else if b == 2 {
        PtpV1Control::FollowUp
    } else if b == 3 {
        PtpV1Control::DelayResp
    } else if b == 4 {
        PtpV1Control::Management
    } else {
        PtpV1Control::Other
    }
}

/// A big-endian 16-bit number.
pub open spec fn word(b: Seq<u8>, at: int) -> int {
    b[at] * 256 + b[at + 1]
}

/// A big-endian 32-bit number.
pub open spec fn long(b: Seq<u8>, at: int) -> int {
    word(b, at) * 65536 + word(b, at + 2)
}

fn read_word(b: &[u8], at: usize) -> (r: u16)
    requires
        at <= 64,
        at + 2 <= b@.len(),
    ensures
        r == word(b@, at as int),
{
    b[at] as u16 * 256 + b[at + 1] as u16
}

fn read_long(b: &[u8], at: usize) -> (r: u32)
    requires
        at <= 62,
        at + 4 <= b@.len(),
    ensures
        r == long(b@, at as int),
{
    read_word(b, at) as u32 * 65536 + read_word(b, at + 2) as u32
}

fn read_uuid(b: &[u8], at: usize) -> (r: ClockUuid)
    requires
        at <= 64,
        at + 6 <= b@.len(),
    ensures
        r.bytes@ == b@.subrange(at as int, at + 6),
{
    let r = ClockUuid {
        bytes: [b[at], b[at + 1], b[at + 2], b[at + 3], b[at + 4], b[at + 5]],
    };
    assert(r.bytes@ =~= b@.subrange(at as int, at + 6));
    r
}

/// Common header of all messages.
#[derive(Clone, Copy, Debug)]
pub struct PtpV1Header {
    pub source_uuid: ClockUuid,
    pub sequence_id: u16,
    pub message_type: PtpV1Control,
}

impl PtpV1Header {
    /// Reads the header at the start of a message.
    pub fn parse(data: &[u8]) -> (r: Result<PtpV1Header, TooShort>)
        ensures
            r is Ok <==> data@.len() >= HEADER_SIZE,
            r matches Ok(h) ==> {
                &&& h.source_uuid.bytes@ == data@.subrange(22, 28)
                &&& h.sequence_id == word(data@, 30)
                &&& h.message_type == control_of(data@[32])
            },
    {
        if data.len() < HEADER_SIZE {
            return Err(TooShort);
        }
        let message_type = match data[32] {
            0 => PtpV1Control::Sync,
            1 => PtpV1Control::DelayReq,
            2 => PtpV1Control::FollowUp,
            3 => PtpV1Control::DelayResp,
            4 => PtpV1Control::Management,
            _ => PtpV1Control::Other,
        };
        Ok(
            PtpV1Header {
                source_uuid: read_uuid(data, 22),
                sequence_id: read_word(data, 30),
                message_type,
            },
        )
    }
}

/// A point in the master's time.
#[derive(Clone, Copy, Debug, PartialEq, Eq, Structural)]
pub struct PtpV1Timestamp {
    pub seconds: u32,
    pub nanoseconds: u32,
}

impl PtpV1Timestamp {
    pub open spec fn total_nanos(self) -> int {
        self.seconds * 1_000_000_000 + self.nanoseconds
    }

    pub fn to_nanos(&self) -> (r: i64)
        ensures
            r == self.total_nanos(),
            0 <= r < 0x4000_0000_0000_0000,
    {
        self.seconds as i64 * 1_000_000_000 + self.nanoseconds as i64
    }
}

/// What follows the header of a Sync message.
#[derive(Clone, Copy, Debug)]
pub struct PtpV1SyncMessageBody {
    pub grandmaster_clock_uuid: ClockUuid,
}

impl PtpV1SyncMessageBody {
    /// Reads the body, which starts after the header.
    pub fn parse(body: &[u8]) -> (r: Result<PtpV1SyncMessageBody, TooShort>)
        ensures
            r is Ok <==> body@.len() >= SYNC_BODY_SIZE,
            r matches Ok(b) ==> b.grandmaster_clock_uuid.bytes@ == body@.subrange(13, 19),
    {
        if body.len() < SYNC_BODY_SIZE {
            return Err(TooShort);
        }
        Ok(PtpV1SyncMessageBody { grandmaster_clock_uuid: read_uuid(body, 13) })
    }
}

/// What follows the header of a Follow_Up message.
#[derive(Clone, Copy, Debug, PartialEq, Eq, Structural)]
pub struct PtpV1FollowUpBody {
    /// Sequence number of the Sync message that this one completes.
    pub associated_sequence_id: u16,
    /// When that message left the master.
    pub precise_origin_timestamp: PtpV1Timestamp,
}

impl PtpV1FollowUpBody {
    /// The body that the bytes after a header stand for.
    pub open spec fn read(body: Seq<u8>) -> PtpV1FollowUpBody {
        PtpV1FollowUpBody {
            associated_sequence_id: word(body, 6) as u16,
            precise_origin_timestamp: PtpV1Timestamp {
                seconds: long(body, 8) as u32,
                nanoseconds: long(body, 12) as u32,
            },
        }
    }

    /// Reads the body, which starts after the header.
    pub fn parse(body: &[u8]) -> (r: Result<PtpV1FollowUpBody, TooShort>)
        ensures
            r is Ok <==> body@.len() >= FOLLOW_UP_BODY_SIZE,
            r matches Ok(b) ==> b == PtpV1FollowUpBody::read(body@),
    {
        if body.len() < FOLLOW_UP_BODY_SIZE {
            return Err(TooShort);
        }
        Ok(
            PtpV1FollowUpBody {
                associated_sequence_id: read_word(body, 6),
                precise_origin_timestamp: PtpV1Timestamp {
                    seconds: read_long(body, 8),
                    nanoseconds: read_long(body, 12),
                },
            },
        )
    }
}

/// Every header that is read: the source is in bytes 22 to 27, the number in 30 and 31,
/// the higher byte first, and the kind in byte 32.
pub proof fn lemma_header(data: &[u8], r: Result<PtpV1Header, TooShort>)
    requires
        call_ensures(PtpV1Header::parse, (data,), r),
    ensures
        r is Ok <==> data@.len() >= 36,
        r matches Ok(h) ==> {
            &&& forall|i: int| 0 <= i < 6 ==> #[trigger] h.source_uuid.bytes@[i] == data@[22 + i]
            &&& h.sequence_id == data@[30] * 256 + data@[31]
            &&& h.message_type is Sync <==> data@[32] == 0
            &&& h.message_type is DelayReq <==> data@[32] == 1
            &&& h.message_type is FollowUp <==> data@[32] == 2
            &&& h.message_type is DelayResp <==> data@[32] == 3
            &&& h.message_type is Management <==> data@[32] == 4
        },
{
}

/// Every body that is read: the grandmaster of a Sync message is in bytes 13 to 18, and a
/// Follow_Up message has the number of its Sync message in 6 and 7, the seconds in 8 to 11
/// and the nanoseconds in 12 to 15, the highest byte first.
pub proof fn lemma_bodies(
    body: &[u8],
    s: Result<PtpV1SyncMessageBody, TooShort>,
    f: Result<PtpV1FollowUpBody, TooShort>,
)
    requires
        call_ensures(PtpV1SyncMessageBody::parse, (body,), s),
        call_ensures(PtpV1FollowUpBody::parse, (body,), f),
    ensures
        s is Ok <==> body@.len() >= 19,
        s matches Ok(b) ==> forall|i: int|
            0 <= i < 6 ==> #[trigger] b.grandmaster_clock_uuid.bytes@[i] == body@[13 + i],
        f is Ok <==> body@.len() >= 16,
        f matches Ok(b) ==> {
            let t = b.precise_origin_timestamp;
            &&& b.associated_sequence_id == body@[6] * 256 + body@[7]
            &&& t.seconds == body@[8] * 0x100_0000 + body@[9] * 0x1_0000 + body@[10] * 0x100
                + body@[11]
            &&& t.nanoseconds == body@[12] * 0x100_0000 + body@[13] * 0x1_0000 + body@[14] * 0x100
                + body@[15]
        },
{
}

/// Two identities are the same exactly if all their bytes are.
pub proof fn lemma_same(a: &ClockUuid, b: &ClockUuid, r: bool)
    requires
        call_ensures(ClockUuid::same, (a, b), r),
    ensures
        r <==> forall|i: int| 0 <= i < 6 ==> #[trigger] a.bytes@[i] == b.bytes@[i],
{
    if forall|i: int| 0 <= i < 6 ==> #[trigger] a.bytes@[i] == b.bytes@[i] {
        assert(a.bytes@ =~= b.bytes@);
    }
}

} // verus!
