//! Choice of the network interface, and arrival times of packets.
use crate::text::{contains, occurs, same_text};
use crate::time::WallTime;
use vstd::prelude::*;
use vstd::string::*;

verus! {

/// An address of a network interface, as far as it counts here.
#[derive(Debug)]
pub struct Interface {
    pub name: String,
    /// The IPv4 address; `None` if the address is of another kind.
    pub ipv4: Option<[u8; 4]>,
}

/// No interface is suitable.
#[derive(Clone, Copy, Debug, PartialEq, Eq, Structural)]
pub struct NoInterface;

/// The multicast group of PTP messages.
pub fn ptp_multicast() -> (r: [u8; 4])
    ensures
        r@ == seq![224u8, 0u8, 1u8, 129u8],
{
    [224, 0, 1, 129]
}

/// What `str::to_lowercase` makes of a text.
pub uninterp spec fn lowercase(s: Seq<char>) -> Seq<char>;

/// `str::to_lowercase`: the text in lower case, which depends on the text alone.
#[verifier::external_body]
fn lower(s: &str) -> (r: String)
    ensures
        r@ == lowercase(s@),
{
    s.to_lowercase()
}

/// A name in lower case is that of a wireless interface.
pub open spec fn wireless(lower_name: Seq<char>) -> bool {
    occurs(lower_name, "wireless"@) || occurs(lower_name, "wi-fi"@) || occurs(lower_name, "wlan"@)
}

/// Whether a name in lower case is that of a wireless interface.
pub fn names_wireless(lower_name: &str) -> (r: bool)
    ensures
        r == wireless(lower_name@),
{
    contains(lower_name, "wireless") || contains(lower_name, "wi-fi") || contains(
        lower_name,
        "wlan",
    )
}

/// Whether a name is that of a wireless interface.
pub fn is_wireless(name: &str) -> (r: bool)
    ensures
        r == wireless(lowercase(name@)),
{
    names_wireless(lower(name).as_str())
}

/// Whether an address is that of the machine itself.
pub fn is_loopback(ip: &[u8; 4]) -> (r: bool)
    ensures
        r == (ip@[0] == 127),
{
    ip[0] == 127
}

impl Interface {
    /// The address is an IPv4 address of another machine's reach.
    pub open spec fn suitable(self) -> bool {
        self.ipv4 matches Some(ip) && ip@[0] != 127
    }

    pub open spec fn is_wired(self) -> bool {
        !wireless(lowercase(self.name@))
    }
}

/// A test of an address said so.
pub open spec fn said<F: Fn([u8; 4]) -> bool>(can_bind: F, iface: Interface, answer: bool) -> bool {
    call_ensures(can_bind, (iface.ipv4->0,), answer)
}

/// An interface failed the test, or was not to be tested, up to an index.
pub open spec fn none_before<F: Fn([u8; 4]) -> bool>(
    can_bind: F,
    ifaces: Seq<Interface>,
    end: int,
    wired: bool,
) -> bool {
    forall|j: int|
        0 <= j < end && (#[trigger] ifaces[j]).suitable() && ifaces[j].is_wired() == wired ==> said(
            can_bind,
            ifaces[j],
            false,
        )
}

/// The first interface that can be bound to, wired ones first.
pub fn get_default_interface<F: Fn([u8; 4]) -> bool>(ifaces: &Vec<Interface>, can_bind: F) -> (r:
    Result<usize, NoInterface>)
    requires
        forall|ip: [u8; 4]| call_requires(can_bind, (ip,)),
    ensures
        r matches Ok(i) ==> {
            &&& i < ifaces.len()
            &&& ifaces[i as int].suitable()
            &&& said(can_bind, ifaces[i as int], true)
            &&& ifaces[i as int].is_wired() ==> none_before(can_bind, ifaces@, i as int, true)
            &&& !ifaces[i as int].is_wired() ==> {
                &&& none_before(can_bind, ifaces@, i as int, false)
                &&& none_before(can_bind, ifaces@, ifaces.len() as int, true)
            }
        },
        r is Err ==> {
            &&& none_before(can_bind, ifaces@, ifaces.len() as int, true)
            &&& none_before(can_bind, ifaces@, ifaces.len() as int, false)
        },
{
    let mut fallback: Option<usize> = None;
    let mut i: usize = 0;
    while i < ifaces.len()
        invariant
            i <= ifaces.len(),
            forall|ip: [u8; 4]| call_requires(can_bind, (ip,)),
            none_before(can_bind, ifaces@, i as int, true),
            fallback is None ==> none_before(can_bind, ifaces@, i as int, false),
            fallback matches Some(k) ==> {
                &&& k < i
                &&& ifaces[k as int].suitable()
                &&& !ifaces[k as int].is_wired()
                &&& said(can_bind, ifaces[k as int], true)
                &&& none_before(can_bind, ifaces@, k as int, false)
            },
        decreases ifaces.len() - i,
    {
        match ifaces[i].ipv4 {
            Some(ip) => {
                if !is_loopback(&ip) {
                    let is_wireless = is_wireless(ifaces[i].name.as_str());
                    if can_bind(ip) {
                        if !is_wireless {
                            return Ok(i);
                        }
                        if fallback.is_none() {
                            fallback = Some(i);
                        }
                    }
                }
            },
            None => {},
        }
        i = i + 1;
    }
    match fallback {
        Some(k) => Ok(k),
        None => Err(NoInterface),
    }
}

/// An interface with a name failed the test, or was not to be tested, up to an
/// index.
pub open spec fn none_named_before<F: Fn([u8; 4]) -> bool>(
    can_bind: F,
    ifaces: Seq<Interface>,
    end: int,
    name: Seq<char>,
) -> bool {
    forall|j: int|
        0 <= j < end && (#[trigger] ifaces[j]).suitable() && ifaces[j].name@ == name ==> said(
            can_bind,
            ifaces[j],
            false,
        )
}

/// The first interface with a name that can be bound to, wired or not.
pub fn get_named_interface<F: Fn([u8; 4]) -> bool>(
    ifaces: &Vec<Interface>,
    name: &str,
    can_bind: F,
) -> (r: Result<usize, NoInterface>)
    requires
        forall|ip: [u8; 4]| call_requires(can_bind, (ip,)),
    ensures
        r matches Ok(i) ==> {
            &&& i < ifaces.len()
            &&& ifaces[i as int].suitable()
            &&& ifaces[i as int].name@ == name@
            &&& said(can_bind, ifaces[i as int], true)
            &&& none_named_before(can_bind, ifaces@, i as int, name@)
        },
        r is Err ==> none_named_before(can_bind, ifaces@, ifaces.len() as int, name@),
{
    let mut i: usize = 0;
    while i < ifaces.len()
        invariant
            i <= ifaces.len(),
            forall|ip: [u8; 4]| call_requires(can_bind, (ip,)),
            none_named_before(can_bind, ifaces@, i as int, name@),
        decreases ifaces.len() - i,
    {
        match ifaces[i].ipv4 {
            Some(ip) => {
                if !is_loopback(&ip) && same_text(ifaces[i].name.as_str(), name) && can_bind(ip) {
                    return Ok(i);
                }
            },
            None => {},
        }
        i = i + 1;
    }
    Err(NoInterface)
}

/// When a packet arrived: the kernel's timestamp (seconds and nanoseconds since
/// 1970), or the present if it gave none.
pub fn arrival_time(stamp: Option<(u64, u32)>, now: WallTime) -> (r: WallTime)
    ensures
        r.nanos == match stamp {
            Some((secs, nanos)) => secs * 1_000_000_000 + nanos,
            None => now.nanos as int,
        },
{
    match stamp {
        Some((secs, nanos)) => WallTime {
            nanos: secs as i128 * 1_000_000_000 + nanos as i128,
        },
        None => now,
    }
}

/// Every default interface has an IPv4 address outside 127.0.0.0/8 to which it could be
/// bound. A wireless one, by its name in lower case, is taken only if no wired one could
/// be bound to; of several that could, the first one is.
pub proof fn lemma_default_interface<F: Fn([u8; 4]) -> bool>(
    ifaces: &Vec<Interface>,
    can_bind: F,
    r: Result<usize, NoInterface>,
)
    requires
        forall|ip: [u8; 4]| call_requires(can_bind, (ip,)),
        call_ensures(get_default_interface::<F>, (ifaces, can_bind), r),
    ensures
        r matches Ok(i) ==> i < ifaces@.len() && ifaces@[i as int].ipv4 is Some && (
        ifaces@[i as int].ipv4->0)@[0] != 127 && call_ensures(
            can_bind,
            (ifaces@[i as int].ipv4->0,),
            true,
        ),
        forall|j: int|
            0 <= j < ifaces@.len() && (#[trigger] ifaces@[j]).ipv4 is Some && (
            ifaces@[j].ipv4->0)@[0] != 127 && !call_ensures(
                can_bind,
                (ifaces@[j].ipv4->0,),
                false,
            ) ==> r is Ok && {
                let i = r->Ok_0 as int;
                if wireless_name(ifaces@[j].name@) {
                    !wireless_name(ifaces@[i].name@) || i <= j
                } else {
                    !wireless_name(ifaces@[i].name@) && i <= j
                }
            },
{
    assert forall|j: int|
        0 <= j < ifaces@.len() && (#[trigger] ifaces@[j]).ipv4 is Some && (
        ifaces@[j].ipv4->0)@[0] != 127 && !call_ensures(
            can_bind,
            (ifaces@[j].ipv4->0,),
            false,
        ) implies r is Ok && ({
        let i = r->Ok_0 as int;
        if wireless_name(ifaces@[j].name@) {
            !wireless_name(ifaces@[i].name@) || i <= j
        } else {
            !wireless_name(ifaces@[i].name@) && i <= j
        }
    }) by {
        assert(ifaces@[j].suitable());
        assert(!said(can_bind, ifaces@[j], false));
        assert(ifaces@[j].is_wired() == !wireless_name(ifaces@[j].name@));
    }
}

/// A name is that of a wireless interface.
pub open spec fn wireless_name(name: Seq<char>) -> bool {
    let s = lowercase(name);
    occurs(s, "wireless"@) || occurs(s, "wi-fi"@) || occurs(s, "wlan"@)
}

/// Every arrival is told by the kernel's timestamp if there is one, and else by the
/// present; a nanosecond, and a second, later is later by as much.
pub proof fn lemma_arrival(secs: u64, nanos: u32, now: WallTime, r: WallTime)
    ensures
        call_ensures(arrival_time, (Some((secs, nanos)), now), r) ==> r.nanos - nanos
            == 1_000_000_000 * secs,
        call_ensures(arrival_time, (None::<(u64, u32)>, now), r) ==> r == now,
{
}

/// Every interface that is found by its name has that name, an address outside 127.0.0.0/8,
/// and could be bound to; the first such one is found.
pub proof fn lemma_named_interface<F: Fn([u8; 4]) -> bool>(
    ifaces: &Vec<Interface>,
    name: &str,
    can_bind: F,
    r: Result<usize, NoInterface>,
)
    requires
        forall|ip: [u8; 4]| call_requires(can_bind, (ip,)),
        call_ensures(get_named_interface::<F>, (ifaces, name, can_bind), r),
    ensures
        r matches Ok(i) ==> i < ifaces@.len() && ifaces@[i as int].name@ == name@
            && ifaces@[i as int].ipv4 is Some && (ifaces@[i as int].ipv4->0)@[0] != 127
            && call_ensures(can_bind, (ifaces@[i as int].ipv4->0,), true),
        forall|j: int|
            0 <= j < ifaces@.len() && (#[trigger] ifaces@[j]).name@ == name@ && ifaces@[j].ipv4 is Some
                && (ifaces@[j].ipv4->0)@[0] != 127 && !call_ensures(
                can_bind,
                (ifaces@[j].ipv4->0,),
                false,
            ) ==> r is Ok && r->Ok_0 <= j,
{
    assert forall|j: int|
        0 <= j < ifaces@.len() && (#[trigger] ifaces@[j]).name@ == name@ && ifaces@[j].ipv4 is Some
            && (ifaces@[j].ipv4->0)@[0] != 127 && !call_ensures(
            can_bind,
            (ifaces@[j].ipv4->0,),
            false,
        ) implies r is Ok && r->Ok_0 <= j by {
        assert(ifaces@[j].suitable());
        assert(!said(can_bind, ifaces@[j], false));
    }
}

} // verus!
