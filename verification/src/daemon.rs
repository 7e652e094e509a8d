//! The daemon's course: from opening the clock to the end of the loop.
use crate::ieee::arith::magnitude_of_int;
use crate::ieee::double::Double;
use crate::ieee::error::lemma_quotient;
use crate::ieee::exact::lemma_integer_exact;
use crate::ieee::rounding::binary64;
use crate::status::SyncStatus;
use crate::time::{elapsed, since, Span};
use vstd::prelude::*;

verus! {

/// Time between two reports of the status.
pub const REPORT_INTERVAL_NS: u64 = 10_000_000_000;

/// Seconds to wait for a network interface before looking again.
pub const INTERFACE_RETRY_SECS: u64 = 5;

/// What is to be done next.
#[derive(Clone, Copy, Debug, PartialEq, Eq, Structural)]
pub enum Task {
    /// Take control of the clock.
    OpenClock,
    /// Look for a network interface.
    FindInterface,
    /// Wait for as long.
    Wait(Span),
    /// Open the network on the interface.
    OpenNetwork,
    /// Step the clock to UTC for a start.
    FirstSync,
    /// Look whether a PTP master is there.
    Watch,
    /// Publish the status.
    Report,
    /// Handle a packet, if there is one.
    Poll,
    /// Rest for a moment.
    Rest,
    /// End well.
    Exit,
    /// End with the error of the last task.
    Fail,
}

/// How far the daemon has come.
#[derive(Clone, Copy, Debug, PartialEq, Eq, Structural)]
pub enum Stage {
    Clock,
    Interface,
    Waiting,
    Network,
    FirstSync,
    Watching,
    Reporting,
    Polling,
    Resting,
    Over,
}

/// The daemon's course.
#[derive(Clone, Copy, Debug, PartialEq, Eq, Structural)]
pub struct Daemon {
    pub stage: Stage,
    /// Monotonic time of the last report (ns).
    pub last_report: u64,
}

impl Daemon {
    /// The top of the loop: the end, a look at the masters and then a report if one is
    /// due, or the next packet.
    pub open spec fn turn(self, running: bool, now: u64) -> (Daemon, Task) {
        if !running {
            (Daemon { stage: Stage::Over, ..self }, Task::Exit)
        } else if since(self.last_report, now) >= REPORT_INTERVAL_NS {
            (Daemon { stage: Stage::Watching, ..self }, Task::Watch)
        } else {
            (Daemon { stage: Stage::Polling, ..self }, Task::Poll)
        }
    }

    /// The course after a task that went well or not.
    pub open spec fn after(self, ok: bool, running: bool, now: u64) -> (Daemon, Task) {
        match self.stage {
            Stage::Clock => if ok {
                (Daemon { stage: Stage::Interface, ..self }, Task::FindInterface)
            } else {
                (Daemon { stage: Stage::Over, ..self }, Task::Fail)
            },
            Stage::Interface => if ok {
                (Daemon { stage: Stage::Network, ..self }, Task::OpenNetwork)
            } else if running {
                (
                    Daemon { stage: Stage::Waiting, ..self },
                    Task::Wait(Span { secs: INTERFACE_RETRY_SECS, nanos: 0 }),
                )
            } else {
                (Daemon { stage: Stage::Over, ..self }, Task::Exit)
            },
            Stage::Waiting => (Daemon { stage: Stage::Interface, ..self }, Task::FindInterface),
            Stage::Network => if ok {
                (Daemon { stage: Stage::FirstSync, ..self }, Task::FirstSync)
            } else {
                (Daemon { stage: Stage::Over, ..self }, Task::Fail)
            },
            Stage::FirstSync => Daemon { last_report: now, ..self }.turn(running, now),
            Stage::Watching => (Daemon { stage: Stage::Reporting, ..self }, Task::Report),
            Stage::Reporting => (Daemon { stage: Stage::Polling, last_report: now }, Task::Poll),
            Stage::Polling => (Daemon { stage: Stage::Resting, ..self }, Task::Rest),
            Stage::Resting => self.turn(running, now),
            Stage::Over => (self, Task::Exit),
        }
    }

    /// The start of the course, and the first task.
    pub fn start() -> (r: (Daemon, Task))
        ensures
            r.0 == (Daemon { stage: Stage::Clock, last_report: 0 }),
            r.1 == Task::OpenClock,
    {
        (Daemon { stage: Stage::Clock, last_report: 0 }, Task::OpenClock)
    }

    fn loop_head(&mut self, running: bool, now: u64) -> (r: Task)
        ensures
            (*final(self), r) == old(self).turn(running, now),
    {
        if !running {
            self.stage = Stage::Over;
            Task::Exit
        } else if elapsed(self.last_report, now) >= REPORT_INTERVAL_NS {
            self.stage = Stage::Watching;
            Task::Watch
        } else {
            self.stage = Stage::Polling;
            Task::Poll
        }
    }

    /// Takes whether the last task went well, whether the daemon is to go on, and the
    /// monotonic time: the next task.
    pub fn next(&mut self, ok: bool, running: bool, now: u64) -> (r: Task)
        ensures
            (*final(self), r) == old(self).after(ok, running, now),
    {
        match self.stage {
            Stage::Clock => {
                if ok {
                    self.stage = Stage::Interface;
                    Task::FindInterface
                } else {
                    self.stage = Stage::Over;
                    Task::Fail
                }
            },
            Stage::Interface => {
                if ok {
                    self.stage = Stage::Network;
                    Task::OpenNetwork
                } else if running {
                    self.stage = Stage::Waiting;
                    Task::Wait(Span { secs: INTERFACE_RETRY_SECS, nanos: 0 })
                } else {
                    self.stage = Stage::Over;
                    Task::Exit
                }
            },
            Stage::Waiting => {
                self.stage = Stage::Interface;
                Task::FindInterface
            },
            Stage::Network => {
                if ok {
                    self.stage = Stage::FirstSync;
                    Task::FirstSync
                } else {
                    self.stage = Stage::Over;
                    Task::Fail
                }
            },
            Stage::FirstSync => {
                self.last_report = now;
                self.loop_head(running, now)
            },
            Stage::Watching => {
                self.stage = Stage::Reporting;
                Task::Report
            },
            Stage::Reporting => {
                self.last_report = now;
                self.stage = Stage::Polling;
                Task::Poll
            },
            Stage::Polling => {
                self.stage = Stage::Resting;
                Task::Rest
            },
            Stage::Resting => self.loop_head(running, now),
            Stage::Over => Task::Exit,
        }
    }
}

/// The offset to show in the service's status line (us); `None` before the
/// synchronisation is settled.
pub fn settled_offset_us(status: &SyncStatus) -> (r: Option<Double>)
    ensures
        r == if status.settled {
            Some(Double::integer(status.offset_ns as int).over(Double::integer(1000)))
        } else {
            None
        },
{
    if status.settled {
        Some(Double::from_i64(status.offset_ns).div(Double::from_i64(1000)))
    } else {
        None
    }
}

/// What has ended stays so, whatever happens.
pub proof fn lemma_end_is_final(d: Daemon, ok: bool, running: bool, now: u64)
    requires
        d.stage is Over,
    ensures
        d.after(ok, running, now) == (d, Task::Exit),
{
}

/// The course ends exactly with the last task: before that there is always more to
/// do.
pub proof fn lemma_end_is_told(d: Daemon, ok: bool, running: bool, now: u64)
    ensures
        d.after(ok, running, now).0.stage is Over <==> (d.after(ok, running, now).1 is Exit
            || d.after(ok, running, now).1 is Fail),
{
}

/// Reports are made while running, not more often than every 10 seconds. Each comes
/// right after a look at the masters, and is followed by a packet.
pub proof fn lemma_reports(d: Daemon, ok: bool, running: bool, now: u64)
    ensures
        d.after(ok, running, now).1 is Watch <==> d.stage is Resting && running && since(
            d.last_report,
            now,
        ) >= REPORT_INTERVAL_NS,
        d.after(ok, running, now).1 is Report <==> d.stage is Watching,
        d.stage is Reporting ==> d.after(ok, running, now).1 is Poll && d.after(
            ok,
            running,
            now,
        ).0.last_report == now,
{
}

/// Told to stop, the daemon ends at the next turn of the loop.
pub proof fn lemma_stops(d: Daemon, ok: bool, now: u64)
    requires
        d.stage is Resting || d.stage is FirstSync,
    ensures
        d.after(ok, false, now).1 is Exit,
{
}

/// The course, step by step. The clock, the interface and the network come first: without
/// a clock or a network the daemon fails, and an interface is looked for again every five
/// seconds. Then UTC is asked for once, whatever comes of it, and the loop begins: a
/// packet, a rest, and every ten seconds a look at the masters and a report.
pub proof fn lemma_course(ok: bool, running: bool, now: u64)
    ensures
        forall|d: &mut Daemon, r: Task| #[trigger]
            call_ensures(Daemon::next, (d, ok, running, now), r) ==> {
                let (b, a) = (*d, *final(d));
                let late = now >= b.last_report + 10_000_000_000;
                let (next, task) = match b.stage {
                    Stage::Clock => if ok {
                        (Stage::Interface, Task::FindInterface)
                    } else {
                        (Stage::Over, Task::Fail)
                    },
                    Stage::Interface => if ok {
                        (Stage::Network, Task::OpenNetwork)
                    } else if running {
                        (Stage::Waiting, Task::Wait(Span { secs: 5, nanos: 0 }))
                    } else {
                        (Stage::Over, Task::Exit)
                    },
                    Stage::Waiting => (Stage::Interface, Task::FindInterface),
                    Stage::Network => if ok {
                        (Stage::FirstSync, Task::FirstSync)
                    } else {
                        (Stage::Over, Task::Fail)
                    },
                    Stage::FirstSync => if running {
                        (Stage::Polling, Task::Poll)
                    } else {
                        (Stage::Over, Task::Exit)
                    },
                    Stage::Watching => (Stage::Reporting, Task::Report),
                    Stage::Reporting => (Stage::Polling, Task::Poll),
                    Stage::Polling => (Stage::Resting, Task::Rest),
                    Stage::Resting => if !running {
                        (Stage::Over, Task::Exit)
                    } else if late {
                        (Stage::Watching, Task::Watch)
                    } else {
                        (Stage::Polling, Task::Poll)
                    },
                    Stage::Over => (Stage::Over, Task::Exit),
                };
                &&& a.stage == next && r == task
                &&& a.last_report == if b.stage is FirstSync || b.stage is Reporting {
                    now
                } else {
                    b.last_report
                }
            },
        forall|r: (Daemon, Task)| #[trigger]
            call_ensures(Daemon::start, (), r) ==> r.0.stage is Clock && r.1 is OpenClock,
{
}

/// The offset that is shown is in microseconds, a thousandth of the nanoseconds, and none
/// before the synchronisation is settled.
pub proof fn lemma_shown_offset(status: &SyncStatus, r: Option<Double>)
    requires
        call_ensures(settled_offset_us, (status,), r),
    ensures
        r is Some <==> status.settled,
        r is Some && -0x20_0000_0000_0000 < status.offset_ns < 0x20_0000_0000_0000 ==> {
            let v = status.offset_ns * binary64().one();
            0x20_0000_0000_0000 * magnitude_of_int((r->0).value() * 1000 - v) <= magnitude_of_int(v)
                + 0x10_0000_0000_0000 * 1000
        },
{
    let n = status.offset_ns as int;
    if r is Some && -0x20_0000_0000_0000 < n < 0x20_0000_0000_0000 {
        lemma_integer_exact(n);
        lemma_quotient(Double::integer(n), 1000);
    }
}

} // verus!
