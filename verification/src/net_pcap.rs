//! Captured Ethernet frames and the devices they come from.
use crate::net::is_loopback;
use crate::ptp::{word, PTP_EVENT_PORT, PTP_GENERAL_PORT};
use crate::text::{contains, occurs};
use crate::time::WallTime;
use vstd::prelude::*;
use vstd::string::*;

verus! {

/// Length of the Ethernet, IP and UDP headers.
pub const ETH_IP_UDP_HEADER: usize = 42;

/// A capture device.
#[derive(Debug)]
pub struct CaptureDevice {
    pub name: String,
    pub desc: Option<String>,
    /// Its addresses as text.
    pub addresses: Vec<String>,
    /// Those of them that are IPv4 addresses.
    pub ipv4: Vec<[u8; 4]>,
}

/// A frame carries a UDP datagram over IPv4 to a PTP port.
pub open spec fn carries_ptp(frame: Seq<u8>) -> bool {
    &&& frame.len() >= ETH_IP_UDP_HEADER
    &&& word(frame, 12) == 0x0800
    &&& frame[23] == 17
    &&& word(frame, 36) == PTP_EVENT_PORT || word(frame, 36) == PTP_GENERAL_PORT
}

/// The PTP message in a captured frame, if it holds one.
pub fn ptp_payload(frame: &[u8]) -> (r: Option<Vec<u8>>)
    ensures
        r is Some <==> (carries_ptp(frame@) && frame@.len() > ETH_IP_UDP_HEADER),
        r matches Some(payload) ==> payload@ == frame@.skip(ETH_IP_UDP_HEADER as int),
{
    if frame.len() < ETH_IP_UDP_HEADER {
        return None;
    }
    if frame[12] != 0x08 || frame[13] != 0x00 {
        return None;
    }
    if frame[23] != 17 {
        return None;
    }
    let dst_port: u16 = frame[36] as u16 * 256 + frame[37] as u16;
    if dst_port != PTP_EVENT_PORT && dst_port != PTP_GENERAL_PORT {
        return None;
    }
    if frame.len() == ETH_IP_UDP_HEADER {
        return None;
    }
    let mut payload: Vec<u8> = Vec::new();
    let mut i: usize = ETH_IP_UDP_HEADER;
    while i < frame.len()
        invariant
            ETH_IP_UDP_HEADER <= i <= frame@.len(),
            payload@ == frame@.subrange(ETH_IP_UDP_HEADER as int, i as int),
        decreases frame@.len() - i,
    {
        payload.push(frame[i]);
        assert(payload@ == frame@.subrange(ETH_IP_UDP_HEADER as int, i + 1));
        i = i + 1;
    }
    assert(payload@ == frame@.skip(ETH_IP_UDP_HEADER as int));
    Some(payload)
}

/// When a frame was captured, from seconds and microseconds since 1970.
pub fn capture_time(ts_sec: u64, ts_usec: u32) -> (r: WallTime)
    ensures
        r.nanos == ts_sec * 1_000_000_000 + ts_usec * 1000,
{
    WallTime { nanos: ts_sec as i128 * 1_000_000_000 + ts_usec as i128 * 1000 }
}

impl CaptureDevice {
    /// The name or the description holds a text.
    pub open spec fn described_by(self, text: Seq<char>) -> bool {
        occurs(self.name@, text) || (self.desc matches Some(d) && occurs(d@, text))
    }

    /// An address holds a text.
    pub open spec fn addressed_by(self, text: Seq<char>) -> bool {
        exists|i: int| 0 <= i < self.addresses@.len() && occurs(#[trigger] self.addresses@[i]@, text)
    }

    fn is_described_by(&self, text: &str) -> (r: bool)
        ensures
            r == self.described_by(text@),
    {
        if contains(self.name.as_str(), text) {
            return true;
        }
        match &self.desc {
            Some(d) => contains(d.as_str(), text),
            None => false,
        }
    }

    fn is_addressed_by(&self, text: &str) -> (r: bool)
        ensures
            r == self.addressed_by(text@),
    {
        let mut i: usize = 0;
        while i < self.addresses.len()
            invariant
                i <= self.addresses@.len(),
                forall|k: int| 0 <= k < i ==> !occurs(#[trigger] self.addresses@[k]@, text@),
            decreases self.addresses@.len() - i,
        {
            if contains(self.addresses[i].as_str(), text) {
                return true;
            }
            i = i + 1;
        }
        false
    }

    /// The first IPv4 address of another machine's reach.
    pub fn interface_ip(&self) -> (r: Option<[u8; 4]>)
        ensures
            r is None ==> forall|i: int|
                0 <= i < self.ipv4@.len() ==> (#[trigger] self.ipv4@[i])@[0] == 127,
            r matches Some(ip) ==> ip@[0] != 127 && exists|i: int|
                0 <= i < self.ipv4@.len() && #[trigger] self.ipv4@[i] == ip && forall|k: int|
                    0 <= k < i ==> (#[trigger] self.ipv4@[k])@[0] == 127,
    {
        let mut i: usize = 0;
        while i < self.ipv4.len()
            invariant
                i <= self.ipv4@.len(),
                forall|k: int| 0 <= k < i ==> (#[trigger] self.ipv4@[k])@[0] == 127,
            decreases self.ipv4@.len() - i,
        {
            let ip = self.ipv4[i];
            if !is_loopback(&ip) {
                assert(self.ipv4@[i as int] == ip);
                return Some(ip);
            }
            i = i + 1;
        }
        None
    }
}

/// The first device whose name or description holds the interface's name, else
/// the first one with an address that holds it.
pub fn find_device(devices: &Vec<CaptureDevice>, interface_name: &str) -> (r: Option<usize>)
    ensures
        r matches Some(i) ==> {
            &&& i < devices.len()
            &&& ({
                ||| devices[i as int].described_by(interface_name@) && forall|k: int|
                    0 <= k < i ==> !(#[trigger] devices[k]).described_by(interface_name@)
                ||| {
                    &&& devices[i as int].addressed_by(interface_name@)
                    &&& forall|k: int|
                        0 <= k < i ==> !(#[trigger] devices[k]).addressed_by(interface_name@)
                    &&& forall|k: int|
                        0 <= k < devices.len() ==> !(#[trigger] devices[k]).described_by(
                            interface_name@,
                        )
                }
            })
        },
        r is None ==> forall|k: int|
            0 <= k < devices.len() ==> !(#[trigger] devices[k]).described_by(interface_name@)
                && !devices[k].addressed_by(interface_name@),
        found_for(devices@, interface_name@, r),
{
    let mut i: usize = 0;
    while i < devices.len()
        invariant
            i <= devices.len(),
            forall|k: int| 0 <= k < i ==> !(#[trigger] devices[k]).described_by(interface_name@),
        decreases devices.len() - i,
    {
        if devices[i].is_described_by(interface_name) {
            return Some(i);
        }
        i = i + 1;
    }
    let mut j: usize = 0;
    while j < devices.len()
        invariant
            j <= devices.len(),
            forall|k: int|
                0 <= k < devices.len() ==> !(#[trigger] devices[k]).described_by(interface_name@),
            forall|k: int| 0 <= k < j ==> !(#[trigger] devices[k]).addressed_by(interface_name@),
        decreases devices.len() - j,
    {
        if devices[j].is_addressed_by(interface_name) {
            return Some(j);
        }
        j = j + 1;
    }
    None
}

/// Every frame: what follows its first 42 bytes is taken for a PTP message exactly if
/// there is something, the type says IPv4, the protocol UDP, and the port 319 or 320.
pub proof fn lemma_payload(frame: &[u8], r: Option<Vec<u8>>)
    requires
        call_ensures(ptp_payload, (frame,), r),
    ensures
        r is Some <==> frame@.len() > 42 && frame@[12] == 8 && frame@[13] == 0 && frame@[23] == 17
            && frame@[36] == 1 && (frame@[37] == 63 || frame@[37] == 64),
        r is Some ==> r->0@.len() == frame@.len() - 42 && forall|i: int|
            0 <= i < r->0@.len() ==> #[trigger] r->0@[i] == frame@[i + 42],
{
}

/// Every capture time is its seconds and microseconds after 1970.
pub proof fn lemma_capture_time(ts_sec: u64, ts_usec: u32, r: WallTime)
    requires
        call_ensures(capture_time, (ts_sec, ts_usec), r),
    ensures
        r.nanos == (ts_sec * 1_000_000 + ts_usec) * 1000,
{
}

/// A device was found for a name: it holds the name in its own or in its description, or,
/// if none does, in one of its addresses; it is the first such one. None was found only if
/// there is none.
pub open spec fn found_for(devices: Seq<CaptureDevice>, name: Seq<char>, r: Option<usize>) -> bool {
    let described = |k: int| occurs(devices[k].name@, name) || (devices[k].desc is Some && occurs(
        (devices[k].desc->0)@,
        name,
    ));
    let addressed = |k: int|
        exists|a: int|
            0 <= a < devices[k].addresses@.len() && occurs(
                #[trigger] devices[k].addresses@[a]@,
                name,
            );
    &&& forall|k: int|
        #![trigger devices[k]]
        0 <= k < devices.len() && described(k) ==> r is Some && r->0 <= k && described(r->0 as int)
    &&& forall|k: int|
        #![trigger devices[k]]
        0 <= k < devices.len() && addressed(k) ==> r is Some && (described(r->0 as int) || (r->0 <= k
            && addressed(r->0 as int)))
    &&& r is Some ==> r->0 < devices.len() && (described(r->0 as int) || addressed(r->0 as int))
}

/// Every device is found so.
pub proof fn lemma_device(devices: &Vec<CaptureDevice>, name: &str, r: Option<usize>)
    requires
        call_ensures(find_device, (devices, name), r),
    ensures
        found_for(devices@, name@, r),
{
}

} // verus!
