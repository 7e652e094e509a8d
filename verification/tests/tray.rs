use dantesync::icon::{
    generate_icon, generate_icon_full, generate_icon_with_ring, look_for, offline_look,
};
use dantesync::ieee::double::Double;
use dantesync::ieee::single::Single;
use dantesync::service::{effective_ntp_server, frame, frame_length, needs_rotation};
use dantesync::status::SyncStatus;
use dantesync::text::{contains, same_text};
use dantesync::tray::{
    announces_update, mode_text, start_stop_command, MenuAction, MenuEntry, Notice,
    NotificationState, ServiceCommand, Tray,
};
use dantesync::version::{is_newer_version, parse_version};

fn single(x: f32) -> Single {
    Single::from_bits(x.to_bits())
}

fn status(mode: &str, is_locked: bool, settled: bool, rate: f64, ntp_failed: bool) -> SyncStatus {
    let mut s = SyncStatus::default();
    s.mode = mode.to_string();
    s.is_locked = is_locked;
    s.settled = settled;
    s.smoothed_rate_ppm = Double::from_bits(rate.to_bits());
    s.ntp_failed = ntp_failed;
    s
}

#[test]
fn versions_are_read() {
    assert_eq!(parse_version("v1.6.4"), Some((1, 6, 4)));
    assert_eq!(parse_version("1.6.4"), Some((1, 6, 4)));
    assert_eq!(parse_version("vv1.6.4"), Some((1, 6, 4)));
    assert_eq!(parse_version("1.6.4.9"), Some((1, 6, 4)));
    assert_eq!(parse_version("1.6.4."), Some((1, 6, 4)));
    assert_eq!(parse_version("+1.006.4294967295"), Some((1, 6, 4294967295)));
    assert_eq!(parse_version("1.6"), None);
    assert_eq!(parse_version("1.6."), None);
    assert_eq!(parse_version(""), None);
    assert_eq!(parse_version("1.+.4"), None);
    assert_eq!(parse_version("1.-6.4"), None);
    assert_eq!(parse_version("1.6.4-rc1"), None);
    assert_eq!(parse_version("1.6.4294967296"), None);
    assert_eq!(parse_version("1.6.99999999999999999999999"), None);
    assert_eq!(parse_version("1..4"), None);
    assert_eq!(parse_version(" 1.6.4"), None);
    assert_eq!(parse_version("1.6.\u{0664}"), None);
}

#[test]
fn newer_versions() {
    assert!(is_newer_version("1.7.2", "v1.7.3"));
    assert!(is_newer_version("1.7.2", "1.8.0"));
    assert!(is_newer_version("1.7.2", "2.0.0"));
    assert!(!is_newer_version("1.7.2", "1.7.2"));
    assert!(!is_newer_version("1.7.2", "1.6.9"));
    assert!(!is_newer_version("1.10.0", "1.9.9"));
    assert!(!is_newer_version("1.7.2", "latest"));
    assert!(!is_newer_version("x", "1.7.2"));
    assert!(announces_update(false, "1.7.2", "1.7.3"));
    assert!(!announces_update(true, "1.7.2", "1.7.3"));
}

#[test]
fn first_status_tells_nothing() {
    let mut state = NotificationState::new();
    assert!(state.update(&status("NANO", true, true, 0.0, true)).is_empty());
    assert!(state.was_nano && state.was_locked && state.was_online && state.was_ntp_failed);
    assert!(!state.first_update);
}

fn known(mode: &str, locked: bool, ntp_failed: bool) -> NotificationState {
    let mut state = NotificationState::new();
    state.update(&status(mode, locked, true, 0.0, ntp_failed));
    state
}

#[test]
fn changes_are_told() {
    let lock = status("LOCK", true, true, 0.0, false);
    let acq = status("ACQ", false, true, 0.0, false);
    let nano = status("NANO", true, true, 0.0, false);
    let ntp_only = status("NTP-only", false, true, 0.0, false);
    let failed = status("LOCK", true, true, 0.0, true);
    assert_eq!(known("LOCK", true, false).update(&failed), vec![Notice::NtpUnreachable]);
    assert_eq!(known("LOCK", true, true).update(&lock), vec![Notice::NtpRestored]);
    assert_eq!(known("LOCK", true, false).update(&ntp_only), vec![Notice::PtpOffline]);
    assert_eq!(known("NTP-only", false, false).update(&lock), vec![Notice::PtpRestored]);
    assert_eq!(known("LOCK", true, false).update(&nano), vec![Notice::NanoEntered]);
    assert_eq!(known("NANO", true, false).update(&lock), vec![Notice::NanoLeft]);
    assert_eq!(known("ACQ", false, false).update(&lock), vec![Notice::Locked]);
    assert_eq!(known("LOCK", true, false).update(&acq), vec![Notice::LockLost]);
    assert!(known("LOCK", true, false).update(&lock).is_empty());
}

#[test]
fn a_change_is_told_once() {
    let mut state = known("ACQ", false, false);
    let lock = status("LOCK", true, true, 0.0, false);
    assert_eq!(state.update(&lock).len(), 1);
    assert!(state.update(&lock).is_empty());
}

#[test]
fn service_goes_and_comes() {
    let mut state = known("LOCK", true, false);
    assert_eq!(state.offline(), Some(Notice::Offline));
    assert_eq!(state.offline(), None);
    let lock = status("LOCK", true, true, 0.0, false);
    assert_eq!(state.update(&lock), vec![Notice::Locked, Notice::Connected]);
    assert_eq!(NotificationState::new().offline(), None);
}

#[test]
fn messages_of_notices() {
    assert_eq!(Notice::NtpUnreachable.message(), "NTP server unreachable");
    assert_eq!(Notice::NtpRestored.message(), "NTP connection restored");
    assert_eq!(Notice::PtpOffline.message(), "PTP offline - running NTP-only sync");
    assert_eq!(Notice::PtpRestored.message(), "PTP restored - resuming PTP sync");
    assert_eq!(Notice::NanoEntered.message(), "NANO mode - ultra-precise sync achieved");
    assert_eq!(Notice::NanoLeft.message(), "Exited NANO mode");
    assert_eq!(Notice::Locked.message(), "Frequency locked - sync achieved");
    assert_eq!(Notice::LockLost.message(), "Lock lost - reacquiring...");
    assert_eq!(Notice::Connected.message(), "Service connected");
    assert_eq!(Notice::Offline.message(), "Service offline");
}

/// The same image with the machine's own numbers.
fn reference_icon(r: u8, g: u8, b: u8, pulse: f32, badge: bool) -> Vec<u8> {
    let mut rgba: Vec<u8> = Vec::new();
    let (inner, outer, badge_radius) = (11.0f32, 15.0f32, 5.0f32);
    for y in 0..32 {
        for x in 0..32 {
            let dx = x as f32 - 16.0 + 0.5;
            let dy = y as f32 - 16.0 + 0.5;
            let dist = (dx * dx + dy * dy).sqrt();
            let bx = x as f32 - 25.0 + 0.5;
            let by = y as f32 - 7.0 + 0.5;
            let badge_dist = (bx * bx + by * by).sqrt();
            if badge && badge_dist <= badge_radius {
                let mut alpha = 255u8;
                if badge_dist > badge_radius - 1.0 {
                    alpha = ((badge_radius - badge_dist) * 255.0).max(0.0) as u8;
                }
                rgba.extend_from_slice(&[255, 152, 0, alpha]);
            } else if dist <= inner {
                let mut alpha = 255u8;
                if dist > inner - 1.0 {
                    alpha = ((inner - dist) * 255.0).max(0.0) as u8;
                }
                rgba.extend_from_slice(&[r, g, b, alpha]);
            } else if dist <= outer && pulse > 0.01 {
                let pos = (dist - inner) / (outer - inner);
                let alpha = ((1.0 - pos) * pulse * 180.0) as u8;
                let ring = |c: u8| (c as f32 * 1.3).min(255.0) as u8;
                rgba.extend_from_slice(&[ring(r), ring(g), ring(b), alpha]);
            } else {
                rgba.extend_from_slice(&[0, 0, 0, 0]);
            }
        }
    }
    rgba
}

#[test]
fn icons_agree_with_native_arithmetic() {
    for (r, g, b) in [(220u8, 53u8, 69u8), (40, 167, 69), (0, 188, 212)] {
        for pulse in [0.0f32, 0.005, 0.3, 0.77, 1.0] {
            for badge in [false, true] {
                let icon = generate_icon_full(r, g, b, single(pulse), badge);
                assert_eq!(icon.len(), 4096);
                assert_eq!(icon, reference_icon(r, g, b, pulse, badge));
            }
        }
    }
    assert_eq!(generate_icon(1, 2, 3), reference_icon(1, 2, 3, 0.0, false));
    assert_eq!(
        generate_icon_with_ring(1, 2, 3, single(0.5)),
        reference_icon(1, 2, 3, 0.5, false)
    );
}

#[test]
fn looks() {
    let l = look_for(&status("NTP-only", true, true, 9.0, false), true);
    assert_eq!((l.r, l.g, l.b, l.pulse, l.badge), (255, 152, 0, single(0.0), true));
    let l = look_for(&status("NANO", true, true, -2.0, false), false);
    assert_eq!((l.r, l.g, l.b, l.pulse, l.badge), (0, 188, 212, single(0.4), false));
    let l = look_for(&status("LOCK", true, true, 5.0, false), false);
    assert_eq!((l.r, l.g, l.b, l.pulse), (40, 167, 69, single(0.25)));
    let l = look_for(&status("LOCK", true, true, 99.0, false), false);
    assert_eq!(l.pulse, single(1.0));
    let l = look_for(&status("PROD", false, true, 1.0, false), false);
    assert_eq!((l.r, l.g, l.b, l.pulse), (255, 193, 7, single(0.3)));
    let l = look_for(&status("ACQ", false, false, 99.0, false), false);
    assert_eq!((l.r, l.g, l.b, l.pulse), (255, 193, 7, single(0.0)));
    let l = offline_look(true);
    assert_eq!((l.r, l.g, l.b, l.pulse, l.badge), (220, 53, 69, single(0.0), true));
}

#[test]
fn texts_of_the_menu() {
    assert_eq!(mode_text(&status("PROD", true, true, 0.0, false)), "PROD");
    assert_eq!(mode_text(&status("", true, true, 0.0, false)), "LOCK");
    assert_eq!(mode_text(&status("", false, true, 0.0, false)), "ACQ");
    assert_eq!(start_stop_command(true), ServiceCommand::Stop);
    assert_eq!(start_stop_command(false), ServiceCommand::Start);
}

#[test]
fn server_to_use() {
    assert_eq!(effective_ntp_server("10.77.8.2", "ntp.local"), "ntp.local");
    assert_eq!(effective_ntp_server("1.2.3.4", "ntp.local"), "1.2.3.4");
}

#[test]
fn frames_round_trip() {
    for n in [0usize, 1, 255, 256, 70_000] {
        let message: Vec<u8> = (0..n).map(|i| (i * 7) as u8).collect();
        let f = frame(&message);
        let header: [u8; 4] = [f[0], f[1], f[2], f[3]];
        assert_eq!(header, (n as u32).to_le_bytes());
        assert_eq!(frame_length(&header), n);
        assert_eq!(f[4..].to_vec(), message);
    }
}

#[test]
fn log_rotation() {
    assert!(!needs_rotation(1_000_000));
    assert!(needs_rotation(1_000_001));
}

#[test]
fn text_search() {
    assert!(contains("abc", ""));
    assert!(contains("abc", "c"));
    assert!(contains("\u{e9}t\u{e9}", "t\u{e9}"));
    assert!(!contains("abc", "ac"));
    assert!(!contains("", "a"));
    assert!(same_text("a\u{e9}", "a\u{e9}"));
    assert!(!same_text("a", "ab"));
    assert!(!same_text("a", "b"));
}

#[test]
fn tray_follows_the_service() {
    let mut tray = Tray::new();
    assert_eq!(tray.menu(MenuEntry::StartStopService), MenuAction::StartService);

    let shown = tray.update(&status("", true, true, 2.0, false));
    assert!(shown.notices.is_empty());
    assert_eq!(shown.mode.as_deref(), Some("LOCK"));
    assert_eq!(shown.start_stop, ServiceCommand::Stop);
    assert!(shown.restart_enabled);
    assert_eq!((shown.look.r, shown.look.g, shown.look.b), (40, 167, 69));
    assert_eq!(tray.menu(MenuEntry::StartStopService), MenuAction::StopService);

    let shown = tray.offline();
    assert_eq!(shown.notices, vec![Notice::Offline]);
    assert_eq!(shown.mode, None);
    assert_eq!(shown.start_stop, ServiceCommand::Start);
    assert!(!shown.restart_enabled);
    assert_eq!(shown.look, offline_look(false));
    assert!(tray.offline().notices.is_empty());
    assert_eq!(tray.menu(MenuEntry::StartStopService), MenuAction::StartService);
}

#[test]
fn menu_entries() {
    let tray = Tray::new();
    assert_eq!(tray.menu(MenuEntry::Quit), MenuAction::Quit);
    assert_eq!(tray.menu(MenuEntry::RestartService), MenuAction::RestartService);
    assert_eq!(tray.menu(MenuEntry::OpenLog), MenuAction::OpenLog);
    assert_eq!(tray.menu(MenuEntry::LiveLog), MenuAction::LiveLog);
    assert_eq!(tray.menu(MenuEntry::EditConfig), MenuAction::EditConfig);
    assert_eq!(tray.menu(MenuEntry::Upgrade), MenuAction::Upgrade);
}

#[test]
fn a_release_is_announced_once_and_badged() {
    let mut tray = Tray::new();
    assert!(!tray.release("1.7.2", "v1.7.2"));
    assert!(!tray.update(&status("LOCK", true, true, 0.0, false)).look.badge);
    assert!(tray.release("1.7.2", "v1.7.3"));
    assert!(!tray.release("1.7.2", "v1.8.0"));
    assert!(tray.update(&status("LOCK", true, true, 0.0, false)).look.badge);
    assert!(tray.offline().look.badge);
}

#[test]
fn the_ring_grows_with_the_drift_rate() {
    let rates = [0.0, 0.1, -1.0, 2.5, -7.0, 19.9, 20.0, -100.0, 1.0e300];
    let mut last = -1.0f32;
    for rate in rates {
        let look = look_for(&status("LOCK", true, true, rate, false), false);
        let pulse = f32::from_bits(look.pulse.to_bits());
        assert!(pulse >= last && pulse <= 1.0);
        last = pulse;
    }
    assert_eq!(last, 1.0);
}

#[test]
fn statuses_keep_what_the_copy_holds() {
    let mut s = status("PROD", true, false, 1.5, true);
    s.offset_ns = -7;
    s.ntp_offset_us = 12;
    s.updated_ts = 99;
    let copy = s.clone();
    assert_eq!((copy.offset_ns, copy.ntp_offset_us, copy.updated_ts), (-7, 12, 99));
    assert_eq!((copy.mode.as_str(), copy.is_locked, copy.ntp_failed), ("PROD", true, true));
    assert_eq!(copy.smoothed_rate_ppm, s.smoothed_rate_ppm);
}
