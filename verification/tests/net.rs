use dantesync::net::{
    arrival_time, get_default_interface, get_named_interface, is_wireless, names_wireless,
    ptp_multicast, Interface, NoInterface,
};
use dantesync::net_pcap::{capture_time, find_device, ptp_payload, CaptureDevice};
use dantesync::net_winsock::{
    counter_time, extract_timestamp, find_timestamp, would_block, StampSource,
};
use dantesync::time::WallTime;

fn interface(name: &str, ipv4: Option<[u8; 4]>) -> Interface {
    Interface { name: name.to_string(), ipv4 }
}

/// Test that get_default_interface filters out loopback addresses
#[test]
fn test_get_default_interface_returns_non_loopback() {
    let ifaces = vec![
        interface("lo", Some([127, 0, 0, 1])),
        interface("eth0", None),
        interface("eth0", Some([10, 77, 9, 21])),
    ];
    let result = get_default_interface(&ifaces, |_| true);
    if let Ok(i) = result {
        assert!(!ifaces[i].name.is_empty());
        assert!(ifaces[i].ipv4.unwrap()[0] != 127);
    }
    assert_eq!(result, Ok(2));
}

/// Test PTP multicast address constant
#[test]
fn test_ptp_multicast_address() {
    let octets = ptp_multicast();
    assert!(octets[0] >= 224 && octets[0] <= 239);
    assert_eq!(octets, [224, 0, 1, 129]);
}

/// Test wireless interface detection keywords
#[test]
fn test_wireless_interface_detection() {
    let wireless_names = ["Wireless LAN", "Wi-Fi", "wlan0", "WIRELESS"];
    let wired_names = ["eth0", "Ethernet", "enp3s0", "Local Area Connection"];

    for name in &wireless_names {
        assert!(is_wireless(name));
        assert!(names_wireless(&name.to_lowercase()));
    }

    for name in &wired_names {
        assert!(!is_wireless(name));
        assert!(!names_wireless(&name.to_lowercase()));
    }
    assert!(!names_wireless("WLAN"));
}

#[test]
fn wired_interfaces_come_first() {
    let ifaces = vec![
        interface("wlan0", Some([192, 168, 1, 2])),
        interface("Wi-Fi 2", Some([192, 168, 1, 3])),
        interface("eth0", Some([10, 0, 0, 1])),
        interface("eth1", Some([10, 0, 0, 2])),
    ];
    assert_eq!(get_default_interface(&ifaces, |_| true), Ok(2));
    assert_eq!(get_default_interface(&ifaces, |ip| ip[3] == 2), Ok(3));
    assert_eq!(get_default_interface(&ifaces, |ip| ip[0] == 192), Ok(0));
    assert_eq!(get_default_interface(&ifaces, |ip| ip == [192, 168, 1, 3]), Ok(1));
    assert_eq!(get_default_interface(&ifaces, |_| false), Err(NoInterface));
    assert_eq!(get_default_interface(&Vec::new(), |_| true), Err(NoInterface));
}

#[test]
fn interfaces_are_found_by_name() {
    let ifaces = vec![
        interface("eth0", None),
        interface("eth0", Some([127, 0, 0, 1])),
        interface("eth0", Some([10, 0, 0, 1])),
        interface("eth0", Some([10, 0, 0, 2])),
        interface("wlan0", Some([192, 168, 1, 2])),
    ];
    assert_eq!(get_named_interface(&ifaces, "eth0", |_| true), Ok(2));
    assert_eq!(get_named_interface(&ifaces, "eth0", |ip| ip[3] == 2), Ok(3));
    assert_eq!(get_named_interface(&ifaces, "wlan0", |_| true), Ok(4));
    assert_eq!(get_named_interface(&ifaces, "wlan", |_| true), Err(NoInterface));
    assert_eq!(get_named_interface(&ifaces, "eth0", |_| false), Err(NoInterface));
}

#[test]
fn arrival_times() {
    let now = WallTime { nanos: 77 };
    assert_eq!(arrival_time(None, now), now);
    assert_eq!(arrival_time(Some((3, 9)), now).nanos, 3_000_000_009);
    assert_eq!(capture_time(5, 250_000).nanos, 5_250_000_000);
}

fn frame(len: usize, port: u16) -> Vec<u8> {
    let mut f: Vec<u8> = (0..len).map(|i| i as u8).collect();
    if len >= 42 {
        f[12] = 0x08;
        f[13] = 0x00;
        f[23] = 17;
        f[36] = (port >> 8) as u8;
        f[37] = port as u8;
    }
    f
}

#[test]
fn payload_of_a_frame() {
    let f = frame(100, 319);
    assert_eq!(ptp_payload(&f).unwrap(), f[42..].to_vec());
    assert_eq!(ptp_payload(&frame(43, 320)).unwrap(), vec![42u8]);
    assert!(ptp_payload(&frame(42, 320)).is_none());
    assert!(ptp_payload(&frame(41, 319)).is_none());
    assert!(ptp_payload(&frame(100, 321)).is_none());
    let mut not_ip = frame(100, 319);
    not_ip[13] = 6;
    assert!(ptp_payload(&not_ip).is_none());
    let mut tcp = frame(100, 319);
    tcp[23] = 6;
    assert!(ptp_payload(&tcp).is_none());
}

fn device(name: &str, desc: Option<&str>, addresses: &[&str], ipv4: &[[u8; 4]]) -> CaptureDevice {
    CaptureDevice {
        name: name.to_string(),
        desc: desc.map(|d| d.to_string()),
        addresses: addresses.iter().map(|a| a.to_string()).collect(),
        ipv4: ipv4.to_vec(),
    }
}

#[test]
fn devices_are_found() {
    let devices = vec![
        device("a", None, &["10.0.0.1", "10.0.0.9"], &[[127, 0, 0, 1], [10, 0, 0, 1]]),
        device("b", Some("Ethernet 2"), &[], &[]),
        device("Ethernet", None, &[], &[[127, 1, 1, 1]]),
    ];
    assert_eq!(find_device(&devices, "Ethernet"), Some(1));
    assert_eq!(find_device(&devices, "a"), Some(0));
    assert_eq!(find_device(&devices, "0.0.9"), Some(0));
    assert_eq!(find_device(&devices, "wlan"), None);
    assert_eq!(devices[0].interface_ip(), Some([10, 0, 0, 1]));
    assert_eq!(devices[1].interface_ip(), None);
    assert_eq!(devices[2].interface_ip(), None);
}

fn message(level: u32, kind: u32, data: &[u8]) -> Vec<u8> {
    let mut m: Vec<u8> = Vec::new();
    m.extend_from_slice(&(16 + data.len() as u64).to_le_bytes());
    m.extend_from_slice(&level.to_le_bytes());
    m.extend_from_slice(&kind.to_le_bytes());
    m.extend_from_slice(data);
    while m.len() % 8 != 0 {
        m.push(0);
    }
    m
}

#[test]
fn timestamps_in_control_messages() {
    let stamp: u64 = 0x1122_3344_5566_7788;
    let mut control = message(0, 1, &[1, 2, 3]);
    control.extend(message(0xFFFF, 0x300A, &stamp.to_le_bytes()));
    let n = control.len();
    assert_eq!(find_timestamp(&control, n), Some(stamp));
    assert_eq!(extract_timestamp(true, &control, n), StampSource::Counter(stamp));
    assert_eq!(extract_timestamp(false, &control, n), StampSource::Present);
    // cut off inside the data
    assert_eq!(find_timestamp(&control, n - 1), None);
    assert_eq!(extract_timestamp(true, &control, 0), StampSource::Present);
    // other level, other type
    let other = message(0xFFFE, 0x300A, &stamp.to_le_bytes());
    assert_eq!(find_timestamp(&other, other.len()), None);
    let other = message(0xFFFF, 0x300B, &stamp.to_le_bytes());
    assert_eq!(find_timestamp(&other, other.len()), None);
    // a message without length ends the walk
    let mut ended = vec![0u8; 16];
    ended.extend(message(0xFFFF, 0x300A, &stamp.to_le_bytes()));
    assert_eq!(find_timestamp(&ended, ended.len()), None);
    // a message that claims more than there is
    let mut huge = message(0, 0, &[]);
    huge[7] = 0xFF;
    huge.extend(message(0xFFFF, 0x300A, &stamp.to_le_bytes()));
    assert_eq!(find_timestamp(&huge, huge.len()), None);
}

#[test]
fn counter_readings_become_times() {
    let now = WallTime { nanos: 1_000_000_000 };
    assert_eq!(counter_time(5_000, 15_000, 10_000_000, now).nanos, 999_000_000);
    assert_eq!(counter_time(15_000, 5_000, 10_000_000, now).nanos, 1_001_000_000);
    assert_eq!(counter_time(0, 1, 3, now).nanos, 1_000_000_000 - 333_333_333);
    assert_eq!(counter_time(1, 0, 3, now).nanos, 1_000_000_000 + 333_333_333);
    assert!(would_block(10035));
    assert!(!would_block(10022));
}
