use dantesync::controller::time_of_reading;
use dantesync::daemon::{settled_offset_us, Daemon, Stage, Task, REPORT_INTERVAL_NS};
use dantesync::status::SyncStatus;
use dantesync::time::Span;

/// A daemon in its loop, with a report at a time.
fn looping(last_report: u64) -> Daemon {
    Daemon { stage: Stage::Resting, last_report }
}

#[test]
fn the_course_to_the_loop() {
    let (mut daemon, task) = Daemon::start();
    assert_eq!(task, Task::OpenClock);
    assert_eq!(daemon.next(true, true, 1), Task::FindInterface);
    assert_eq!(daemon.next(true, true, 2), Task::OpenNetwork);
    assert_eq!(daemon.next(true, true, 3), Task::FirstSync);
    assert_eq!(daemon.next(true, true, 4), Task::Poll);
    assert_eq!(daemon.last_report, 4);
    assert_eq!(daemon.next(true, true, 5), Task::Rest);
    assert_eq!(daemon.next(true, true, 6), Task::Poll);
}

#[test]
fn interfaces_are_waited_for() {
    let (mut daemon, _) = Daemon::start();
    daemon.next(true, true, 0);
    assert_eq!(daemon.next(false, true, 0), Task::Wait(Span { secs: 5, nanos: 0 }));
    assert_eq!(daemon.next(true, true, 0), Task::FindInterface);
    assert_eq!(daemon.next(false, true, 0), Task::Wait(Span { secs: 5, nanos: 0 }));
    assert_eq!(daemon.next(true, false, 0), Task::FindInterface);
    assert_eq!(daemon.next(false, false, 0), Task::Exit);
}

#[test]
fn without_clock_or_network_the_daemon_fails() {
    let (mut daemon, _) = Daemon::start();
    assert_eq!(daemon.next(false, true, 0), Task::Fail);
    assert_eq!(daemon.stage, Stage::Over);

    let (mut daemon, _) = Daemon::start();
    daemon.next(true, true, 0);
    daemon.next(true, true, 0);
    assert_eq!(daemon.next(false, true, 0), Task::Fail);
    assert_eq!(daemon.stage, Stage::Over);
}

#[test]
fn a_failed_first_sync_or_packet_is_no_end() {
    let mut daemon = Daemon { stage: Stage::FirstSync, last_report: 0 };
    assert_eq!(daemon.next(false, true, 10), Task::Poll);
    assert_eq!(daemon.next(false, true, 11), Task::Rest);
    assert_eq!(daemon.next(false, true, 12), Task::Poll);
}

#[test]
fn reports_come_every_ten_seconds() {
    let mut daemon = looping(100);
    assert_eq!(daemon.next(true, true, 99 + REPORT_INTERVAL_NS), Task::Poll);
    assert_eq!(daemon.next(true, true, 99 + REPORT_INTERVAL_NS), Task::Rest);
    assert_eq!(daemon.next(true, true, 100 + REPORT_INTERVAL_NS), Task::Watch);
    assert_eq!(daemon.next(true, true, 150 + REPORT_INTERVAL_NS), Task::Report);
    assert_eq!(daemon.last_report, 100);
    assert_eq!(daemon.next(true, true, 200 + REPORT_INTERVAL_NS), Task::Poll);
    assert_eq!(daemon.last_report, 200 + REPORT_INTERVAL_NS);
    assert_eq!(daemon.next(true, true, 200 + REPORT_INTERVAL_NS), Task::Rest);
    assert_eq!(daemon.next(true, true, 300 + REPORT_INTERVAL_NS), Task::Poll);
}

#[test]
fn told_to_stop_the_daemon_ends_for_good() {
    let mut daemon = looping(0);
    assert_eq!(daemon.next(true, false, REPORT_INTERVAL_NS), Task::Exit);
    assert_eq!(daemon.stage, Stage::Over);
    assert_eq!(daemon.next(true, true, REPORT_INTERVAL_NS), Task::Exit);
    let mut starting = Daemon { stage: Stage::FirstSync, last_report: 0 };
    assert_eq!(starting.next(true, false, 0), Task::Exit);
}

#[test]
fn offset_in_the_status_line() {
    let mut status = SyncStatus::default();
    status.offset_ns = -12_345;
    assert!(settled_offset_us(&status).is_none());
    status.settled = true;
    let us = settled_offset_us(&status).unwrap();
    assert_eq!(f64::from_bits(us.to_bits()), -12.345);
}

#[test]
fn readings_of_the_wall_clock() {
    assert_eq!(time_of_reading(Ok(5)).nanos, 5);
    assert_eq!(time_of_reading(Err(5)).nanos, -5);
    assert_eq!(time_of_reading(Ok(u128::MAX)).nanos, i128::MAX);
    assert_eq!(time_of_reading(Err(u128::MAX)).nanos, -i128::MAX);
}
