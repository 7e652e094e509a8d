//! Settings and messages of the background service.
use crate::net_winsock::little32;
use crate::text::same_text;
use vstd::prelude::*;
use vstd::string::*;

verus! {

/// Size from which the log file is put away at the start.
pub const LOG_LIMIT: u64 = 1_000_000;

/// The NTP server unless another is configured.
pub fn default_ntp_server() -> (r: &'static str)
    ensures
        r@ == "10.77.8.2"@,
{
    "10.77.8.2"
}

/// The NTP server to use: that of the command line, unless it is the default.
pub fn effective_ntp_server(argument: &str, configured: &str) -> (r: String)
    ensures
        r@ == if argument@ == "10.77.8.2"@ {
            configured@
        } else {
            argument@
        },
{
    if same_text(argument, default_ntp_server()) {
        configured.to_owned()
    } else {
        argument.to_owned()
    }
}

/// Whether the log file is put away.
pub fn needs_rotation(log_len: u64) -> (r: bool)
    ensures
        r == (log_len > LOG_LIMIT),
{
    log_len > LOG_LIMIT
}

/// The four bytes of a length, the lowest first.
pub open spec fn length_bytes(n: int) -> Seq<u8> {
    seq![
        (n % 0x100) as u8,
        (n / 0x100 % 0x100) as u8,
        (n / 0x1_0000 % 0x100) as u8,
        (n / 0x100_0000 % 0x100) as u8,
    ]
}

/// A message on the wire: its length, then its bytes.
pub open spec fn framed(message: Seq<u8>) -> Seq<u8> {
    length_bytes(message.len() as int) + message
}

/// Puts the length in front of a message.
pub fn frame(message: &Vec<u8>) -> (r: Vec<u8>)
    requires
        message@.len() < 0x1_0000_0000,
    ensures
        r@ == framed(message@),
{
    let n: u64 = message.len() as u64;
    let mut out: Vec<u8> = Vec::new();
    out.push((n % 0x100) as u8);
    out.push((n / 0x100 % 0x100) as u8);
    out.push((n / 0x1_0000 % 0x100) as u8);
    out.push((n / 0x100_0000 % 0x100) as u8);
    assert(out@ == length_bytes(n as int));
    let mut i: usize = 0;
    while i < message.len()
        invariant
            i <= message@.len(),
            out@ == length_bytes(message@.len() as int) + message@.take(i as int),
        decreases message@.len() - i,
    {
        out.push(message[i]);
        assert(out@ == length_bytes(message@.len() as int) + message@.take(i + 1));
        i = i + 1;
    }
    assert(message@.take(message@.len() as int) == message@);
    out
}

/// The length that the first four bytes of a message tell.
pub fn frame_length(header: &[u8; 4]) -> (r: usize)
    ensures
        r == little32(header@, 0),
{
    let n: u32 = header[0] as u32 + header[1] as u32 * 0x100 + header[2] as u32 * 0x1_0000
        + header[3] as u32 * 0x100_0000;
    n as usize
}

/// The reader gets back what the writer framed: the length first, then as many
/// bytes, and nothing is left.
pub proof fn lemma_frame_round_trip(message: Seq<u8>)
    requires
        message.len() < 0x1_0000_0000,
    ensures
        framed(message).len() == 4 + message.len(),
        little32(framed(message).take(4), 0) == message.len(),
        framed(message).skip(4) == message,
{
    let n = message.len() as int;
    let f = framed(message);
    assert(f.skip(4) =~= message);
    assert(f.take(4) =~= length_bytes(n));
    assert(n / 0x100_0000 % 0x100 == n / 0x100_0000);
    assert(n == n % 0x100 + (n / 0x100 % 0x100) * 0x100 + (n / 0x1_0000 % 0x100) * 0x1_0000 + (n
        / 0x100_0000) * 0x100_0000);
}

/// Every server to use is the one of the command line; only if that is the default, the
/// configured one is.
pub proof fn lemma_server(argument: &str, configured: &str, r: String)
    requires
        call_ensures(effective_ntp_server, (argument, configured), r),
    ensures
        argument@ != "10.77.8.2"@ ==> r@ == argument@,
        argument@ == "10.77.8.2"@ ==> r@ == configured@,
{
}

/// The reader that asks for the length of what was framed gets the number of bytes that
/// follow.
pub proof fn lemma_frame_length(
    message: &Vec<u8>,
    framed_message: Vec<u8>,
    header: &[u8; 4],
    n: usize,
)
    requires
        message@.len() < 0x1_0000_0000,
        call_ensures(frame, (message,), framed_message),
        header@ == framed_message@.take(4),
        call_ensures(frame_length, (header,), n),
    ensures
        n == message@.len(),
        framed_message@.len() == n + 4,
        framed_message@.skip(4) == message@,
{
    lemma_frame_round_trip(message@);
}

} // verus!
