//! What the tray shows and tells.
use crate::icon::{look_for, look_of, offline_look, Look};
use crate::ieee::single::Single;
use crate::status::SyncStatus;
use crate::text::same_text;
use crate::version::{is_newer_version, newer};
use vstd::prelude::*;
use vstd::string::*;

verus! {

/// Something to tell the user.
#[derive(Clone, Copy, Debug, PartialEq, Eq, Structural)]
pub enum Notice {
    NtpUnreachable,
    NtpRestored,
    PtpOffline,
    PtpRestored,
    NanoEntered,
    NanoLeft,
    Locked,
    LockLost,
    Connected,
    Offline,
}

impl Notice {
    pub open spec fn text(self) -> Seq<char> {
        match self {
            Notice::NtpUnreachable => "NTP server unreachable"@,
            Notice::NtpRestored => "NTP connection restored"@,
            Notice::PtpOffline => "PTP offline - running NTP-only sync"@,
            Notice::PtpRestored => "PTP restored - resuming PTP sync"@,
            Notice::NanoEntered => "NANO mode - ultra-precise sync achieved"@,
            Notice::NanoLeft => "Exited NANO mode"@,
            Notice::Locked => "Frequency locked - sync achieved"@,
            Notice::LockLost => "Lock lost - reacquiring..."@,
            Notice::Connected => "Service connected"@,
            Notice::Offline => "Service offline"@,
        }
    }

    pub fn message(self) -> (r: &'static str)
        ensures
            r@ == self.text(),
    {
        match self {
            Notice::NtpUnreachable => "NTP server unreachable",
            Notice::NtpRestored => "NTP connection restored",
            Notice::PtpOffline => "PTP offline - running NTP-only sync",
            Notice::PtpRestored => "PTP restored - resuming PTP sync",
            Notice::NanoEntered => "NANO mode - ultra-precise sync achieved",
            Notice::NanoLeft => "Exited NANO mode",
            Notice::Locked => "Frequency locked - sync achieved",
            Notice::LockLost => "Lock lost - reacquiring...",
            Notice::Connected => "Service connected",
            Notice::Offline => "Service offline",
        }
    }
}

/// What was last known, to see changes.
#[derive(Clone, Copy, Debug, PartialEq, Eq, Structural)]
pub struct NotificationState {
    pub was_locked: bool,
    pub was_nano: bool,
    pub was_online: bool,
    pub was_ptp_offline: bool,
    pub was_ntp_failed: bool,
    pub first_update: bool,
}

impl NotificationState {
    /// What is known after a status.
    pub open spec fn after(self, status: SyncStatus) -> NotificationState {
        NotificationState {
            was_locked: status.is_locked,
            was_nano: status.mode@ == "NANO"@,
            was_online: true,
            was_ptp_offline: status.mode@ == "NTP-only"@,
            was_ntp_failed: status.ntp_failed,
            first_update: false,
        }
    }

    /// The change that a status tells of: that of NTP first, then that of PTP,
    /// that of NANO mode, and that of the lock.
    pub open spec fn change(self, status: SyncStatus) -> Option<Notice> {
        let n = self.after(status);
        if n.was_ntp_failed && !self.was_ntp_failed {
            Some(Notice::NtpUnreachable)
        } else if !n.was_ntp_failed && self.was_ntp_failed {
            Some(Notice::NtpRestored)
        } else if n.was_ptp_offline && !self.was_ptp_offline {
            Some(Notice::PtpOffline)
        } else if !n.was_ptp_offline && self.was_ptp_offline {
            Some(Notice::PtpRestored)
        } else if n.was_nano && !self.was_nano {
            Some(Notice::NanoEntered)
        } else if !n.was_nano && self.was_nano && !n.was_ptp_offline {
            Some(Notice::NanoLeft)
        } else if n.was_locked && !self.was_locked && !n.was_ptp_offline {
            Some(Notice::Locked)
        } else if !n.was_locked && self.was_locked && !n.was_nano && !n.was_ptp_offline {
            Some(Notice::LockLost)
        } else {
            None
        }
    }

    /// What a status gives to tell: nothing the first time.
    pub open spec fn notices(self, status: SyncStatus) -> Seq<Notice> {
        if self.first_update {
            Seq::empty()
        } else {
            (match self.change(status) {
                Some(n) => seq![n],
                None => Seq::empty(),
            }) + (if self.was_online {
                Seq::empty()
            } else {
                seq![Notice::Connected]
            })
        }
    }

    /// Nothing is known.
    pub open spec fn initial() -> NotificationState {
        NotificationState {
            was_locked: false,
            was_nano: false,
            was_online: false,
            was_ptp_offline: false,
            was_ntp_failed: false,
            first_update: true,
        }
    }

    /// Nothing is known.
    pub fn new() -> (r: NotificationState)
        ensures
            r == NotificationState::initial(),
    {
        NotificationState {
            was_locked: false,
            was_nano: false,
            was_online: false,
            was_ptp_offline: false,
            was_ntp_failed: false,
            first_update: true,
        }
    }

    /// Takes a status: what it gives to tell.
    pub fn update(&mut self, status: &SyncStatus) -> (r: Vec<Notice>)
        ensures
            r@ == old(self).notices(*status),
            *final(self) == old(self).after(*status),
    {
        let is_nano = same_text(status.mode.as_str(), "NANO");
        let is_ptp_offline = same_text(status.mode.as_str(), "NTP-only");
        let mut told: Vec<Notice> = Vec::new();
        if !self.first_update {
            let change = if status.ntp_failed && !self.was_ntp_failed {
                Some(Notice::NtpUnreachable)
            } else if !status.ntp_failed && self.was_ntp_failed {
                Some(Notice::NtpRestored)
            } else if is_ptp_offline && !self.was_ptp_offline {
                Some(Notice::PtpOffline)
            } else if !is_ptp_offline && self.was_ptp_offline {
                Some(Notice::PtpRestored)
            } else if is_nano && !self.was_nano {
                Some(Notice::NanoEntered)
            } else if !is_nano && self.was_nano && !is_ptp_offline {
                Some(Notice::NanoLeft)
            } else if status.is_locked && !self.was_locked && !is_ptp_offline {
                Some(Notice::Locked)
            } else if !status.is_locked && self.was_locked && !is_nano && !is_ptp_offline {
                Some(Notice::LockLost)
            } else {
                None
            };
            match change {
                Some(n) => {
                    told.push(n);
                },
                None => {},
            }
            if !self.was_online {
                told.push(Notice::Connected);
            }
        }
        assert(told@ == self.notices(*status));
        self.was_locked = status.is_locked;
        self.was_nano = is_nano;
        self.was_ptp_offline = is_ptp_offline;
        self.was_ntp_failed = status.ntp_failed;
        self.was_online = true;
        self.first_update = false;
        told
    }

    /// Takes that the service is offline: what it gives to tell.
    pub fn offline(&mut self) -> (r: Option<Notice>)
        ensures
            r == if old(self).was_online {
                Some(Notice::Offline)
            } else {
                None
            },
            *final(self) == (NotificationState {
                was_online: false,
                was_locked: false,
                ..*old(self)
            }),
    {
        let told = if self.was_online {
            Some(Notice::Offline)
        } else {
            None
        };
        self.was_online = false;
        self.was_locked = false;
        told
    }
}

/// Name of the mode to show; statuses without one tell only of the lock.
pub fn mode_text(status: &SyncStatus) -> (r: String)
    ensures
        r@ == mode_name(*status),
{
    if status.mode.as_str().unicode_len() > 0 {
        status.mode.clone()
    } else if status.is_locked {
        "LOCK".to_owned()
    } else {
        "ACQ".to_owned()
    }
}

/// What can be done with the service.
#[derive(Clone, Copy, Debug, PartialEq, Eq, Structural)]
pub enum ServiceCommand {
    Start,
    Stop,
}

/// What the menu offers: to stop a service that runs, to start one that does not.
pub fn start_stop_command(online: bool) -> (r: ServiceCommand)
    ensures
        r == if online {
            ServiceCommand::Stop
        } else {
            ServiceCommand::Start
        },
{
    if online {
        ServiceCommand::Stop
    } else {
        ServiceCommand::Start
    }
}

/// Whether a release is announced: it is newer, and none was announced before.
pub fn announces_update(announced: bool, local: &str, remote: &str) -> (r: bool)
    ensures
        r == (!announced && newer(local@, remote@)),
{
    !announced && is_newer_version(local, remote)
}

/// An entry of the menu.
#[derive(Clone, Copy, Debug, PartialEq, Eq, Structural)]
pub enum MenuEntry {
    Quit,
    RestartService,
    StartStopService,
    OpenLog,
    LiveLog,
    EditConfig,
    Upgrade,
}

/// What an entry of the menu does.
#[derive(Clone, Copy, Debug, PartialEq, Eq, Structural)]
pub enum MenuAction {
    Quit,
    RestartService,
    StartService,
    StopService,
    OpenLog,
    LiveLog,
    EditConfig,
    Upgrade,
}

/// What the tray shows.
pub struct Shown {
    pub notices: Vec<Notice>,
    pub look: Look,
    /// Name of the mode; `None` while the service is offline.
    pub mode: Option<String>,
    pub start_stop: ServiceCommand,
    pub restart_enabled: bool,
}

/// The tray, with what it knows.
#[derive(Clone, Copy, Debug, PartialEq, Eq, Structural)]
pub struct Tray {
    pub state: NotificationState,
    pub update_available: bool,
}

/// Name of the mode to show.
pub open spec fn mode_name(status: SyncStatus) -> Seq<char> {
    if status.mode@.len() > 0 {
        status.mode@
    } else if status.is_locked {
        "LOCK"@
    } else {
        "ACQ"@
    }
}

impl Tray {
    pub fn new() -> (r: Tray)
        ensures
            r.state == NotificationState::initial(),
            !r.update_available,
    {
        Tray { state: NotificationState::new(), update_available: false }
    }

    /// Takes a status of the service: what to show.
    pub fn update(&mut self, status: &SyncStatus) -> (r: Shown)
        ensures
            final(self).state == old(self).state.after(*status),
            final(self).update_available == old(self).update_available,
            r.notices@ == old(self).state.notices(*status),
            r.look == look_of(*status, old(self).update_available),
            r.mode matches Some(m) && m@ == mode_name(*status),
            r.start_stop == ServiceCommand::Stop,
            r.restart_enabled,
    {
        let notices = self.state.update(status);
        Shown {
            notices,
            look: look_for(status, self.update_available),
            mode: Some(mode_text(status)),
            start_stop: start_stop_command(true),
            restart_enabled: true,
        }
    }

    /// Takes that the service is offline: what to show.
    pub fn offline(&mut self) -> (r: Shown)
        ensures
            final(self).state == (NotificationState {
                was_online: false,
                was_locked: false,
                ..old(self).state
            }),
            final(self).update_available == old(self).update_available,
            r.notices@ == if old(self).state.was_online {
                seq![Notice::Offline]
            } else {
                Seq::empty()
            },
            r.look == (Look {
                r: 220,
                g: 53,
                b: 69,
                pulse: Single { bits: 0 },
                badge: old(self).update_available,
            }),
            r.mode is None,
            r.start_stop == ServiceCommand::Start,
            !r.restart_enabled,
    {
        let mut notices: Vec<Notice> = Vec::new();
        match self.state.offline() {
            Some(n) => {
                notices.push(n);
            },
            None => {},
        }
        Shown {
            notices,
            look: offline_look(self.update_available),
            mode: None,
            start_stop: start_stop_command(false),
            restart_enabled: false,
        }
    }

    /// A release is announced: it is newer, and none was announced before.
    pub open spec fn announces(self, local: Seq<char>, remote: Seq<char>) -> bool {
        !self.update_available && newer(local, remote)
    }

    /// The tray after it was told of a release.
    pub open spec fn after_release(self, local: Seq<char>, remote: Seq<char>) -> Tray {
        Tray { update_available: self.update_available || newer(local, remote), ..self }
    }

    /// Takes the latest release: whether it is announced.
    pub fn release(&mut self, local: &str, remote: &str) -> (r: bool)
        ensures
            r == old(self).announces(local@, remote@),
            *final(self) == old(self).after_release(local@, remote@),
    {
        let announce = announces_update(self.update_available, local, remote);
        if announce {
            self.update_available = true;
        }
        announce
    }

    /// What an entry of the menu does.
    pub fn menu(&self, entry: MenuEntry) -> (r: MenuAction)
        ensures
            r == match entry {
                MenuEntry::Quit => MenuAction::Quit,
                MenuEntry::RestartService => MenuAction::RestartService,
                MenuEntry::StartStopService => if self.state.was_online {
                    MenuAction::StopService
                } else {
                    MenuAction::StartService
                },
                MenuEntry::OpenLog => MenuAction::OpenLog,
                MenuEntry::LiveLog => MenuAction::LiveLog,
                MenuEntry::EditConfig => MenuAction::EditConfig,
                MenuEntry::Upgrade => MenuAction::Upgrade,
            },
    {
        match entry {
            MenuEntry::Quit => MenuAction::Quit,
            MenuEntry::RestartService => MenuAction::RestartService,
            MenuEntry::StartStopService => match start_stop_command(self.state.was_online) {
                ServiceCommand::Stop => MenuAction::StopService,
                ServiceCommand::Start => MenuAction::StartService,
            },
            MenuEntry::OpenLog => MenuAction::OpenLog,
            MenuEntry::LiveLog => MenuAction::LiveLog,
            MenuEntry::EditConfig => MenuAction::EditConfig,
            MenuEntry::Upgrade => MenuAction::Upgrade,
        }
    }
}

/// After a release was announced, none is any more.
pub proof fn lemma_announced_once(
    tray: Tray,
    local: Seq<char>,
    remote: Seq<char>,
    later: Seq<char>,
)
    requires
        tray.announces(local, remote),
    ensures
        tray.after_release(local, remote).update_available,
        !tray.after_release(local, remote).announces(local, later),
{
}

/// A status that comes again gives nothing to tell.
pub proof fn lemma_told_once(state: NotificationState, status: SyncStatus)
    ensures
        state.after(status).notices(status) == Seq::<Notice>::empty(),
{
    assert(state.after(status).notices(status) =~= Seq::<Notice>::empty());
}

/// Of changes of the state of PTP and of NTP, every one is told, once anything is
/// known; of two at a time, that of NTP.
pub proof fn lemma_outages_told(state: NotificationState, status: SyncStatus)
    requires
        !state.first_update,
        state.after(status).was_ntp_failed != state.was_ntp_failed || state.after(
            status,
        ).was_ptp_offline != state.was_ptp_offline,
    ensures
        state.notices(status).len() >= 1,
        state.notices(status)[0] == if state.after(status).was_ntp_failed != state.was_ntp_failed {
            if status.ntp_failed {
                Notice::NtpUnreachable
            } else {
                Notice::NtpRestored
            }
        } else {
            if status.mode@ == "NTP-only"@ {
                Notice::PtpOffline
            } else {
                Notice::PtpRestored
            }
        },
{
}

/// What every status gives to tell: nothing the first time. Later, of the changes of NTP,
/// of PTP, of NANO mode and of the lock the first one in this order, and none of the last
/// two that is only due to the loss of PTP; and that the service is there again, if it was
/// not.
pub proof fn lemma_told(status: &SyncStatus)
    ensures
        forall|s: &mut NotificationState, r: Vec<Notice>| #[trigger]
            call_ensures(NotificationState::update, (s, status), r) ==> {
                let b = *s;
                let (nano, off) = (status.mode@ == "NANO"@, status.mode@ == "NTP-only"@);
                let (ntp, ptp) = (status.ntp_failed != b.was_ntp_failed, off != b.was_ptp_offline);
                let told = if r@.len() > 0 {
                    r@[0]
                } else {
                    Notice::Connected
                };
                let some = !b.first_update;
                &&& b.first_update ==> r@.len() == 0
                &&& some && ntp ==> r@.len() > 0 && told == if status.ntp_failed {
                    Notice::NtpUnreachable
                } else {
                    Notice::NtpRestored
                }
                &&& some && !ntp && ptp ==> r@.len() > 0 && told == if off {
                    Notice::PtpOffline
                } else {
                    Notice::PtpRestored
                }
                &&& some && !ntp && !ptp && nano && !b.was_nano ==> r@.len() > 0 && told
                    == Notice::NanoEntered
                &&& some && !ntp && !ptp && !off && !nano && b.was_nano ==> r@.len() > 0 && told
                    == Notice::NanoLeft
                &&& some && !ntp && !ptp && !off && nano == b.was_nano && status.is_locked
                    && !b.was_locked ==> r@.len() > 0 && told == Notice::Locked
                &&& some && !ntp && !ptp && !off && !nano && !b.was_nano && !status.is_locked
                    && b.was_locked ==> r@.len() > 0 && told == Notice::LockLost
                &&& some && !ntp && !ptp && (off || nano == b.was_nano && (status.is_locked
                    == b.was_locked || nano && !status.is_locked)) ==> r@ == if b.was_online {
                    Seq::<Notice>::empty()
                } else {
                    seq![Notice::Connected]
                }
                &&& some && !b.was_online ==> r@.len() > 0 && r@.last() == Notice::Connected
                &&& some && b.was_online ==> !r@.contains(Notice::Connected)
                &&& r@.len() <= 2
                &&& *final(s) == (NotificationState {
                    was_locked: status.is_locked,
                    was_nano: nano,
                    was_online: true,
                    was_ptp_offline: off,
                    was_ntp_failed: status.ntp_failed,
                    first_update: false,
                })
            },
{
    assert forall|s: &mut NotificationState, r: Vec<Notice>| #[trigger]
        call_ensures(NotificationState::update, (s, status), r) && !(*s).first_update && (
        *s).was_online implies !r@.contains(Notice::Connected) by {
        let b = *s;
        assert(r@ == b.notices(*status));
        match b.change(*status) {
            Some(n) => {
                assert(r@ =~= seq![n]);
            },
            None => {
                assert(r@ =~= Seq::<Notice>::empty());
            },
        }
    }
    lemma_names_differ();
    assert forall|s: &mut NotificationState, r: Vec<Notice>| #[trigger]
        call_ensures(NotificationState::update, (s, status), r) && !(*s).first_update && (*s).change(
            *status,
        ) is None implies r@ == (if (*s).was_online {
        Seq::<Notice>::empty()
    } else {
        seq![Notice::Connected]
    }) by {
        assert(r@ =~= if (*s).was_online {
            Seq::<Notice>::empty()
        } else {
            seq![Notice::Connected]
        });
    }
}

/// The two modes that are told of have different names.
proof fn lemma_names_differ()
    ensures
        "NANO"@ != "NTP-only"@,
{
    reveal_strlit("NANO");
    reveal_strlit("NTP-only");
    assert("NANO"@.len() == 4 && "NTP-only"@.len() == 8);
}

/// What the menu shows and what it does agree: a service that sent a status can be
/// stopped and restarted, one that is offline can be started and not restarted. That it
/// went offline is told once.
pub proof fn lemma_menu_agrees(status: &SyncStatus, a: MenuAction)
    ensures
        forall|t: &mut Tray, r: Shown| #[trigger]
            call_ensures(Tray::update, (t, status), r) ==> r.start_stop == ServiceCommand::Stop
                && r.restart_enabled && r.mode is Some && (call_ensures(
                Tray::menu,
                (final(t), MenuEntry::StartStopService),
                a,
            ) ==> a == MenuAction::StopService),
        forall|t: &mut Tray, r: Shown| #[trigger]
            call_ensures(Tray::offline, (t,), r) ==> r.start_stop == ServiceCommand::Start
                && !r.restart_enabled && r.mode is None && (call_ensures(
                Tray::menu,
                (final(t), MenuEntry::StartStopService),
                a,
            ) ==> a == MenuAction::StartService) && (r.notices@.contains(Notice::Offline) <==> (
            *t).state.was_online) && (*final(t)).state == (NotificationState {
                was_online: false,
                was_locked: false,
                ..(*t).state
            }) && (*final(t)).update_available == (*t).update_available,
{
    assert forall|t: &mut Tray, r: Shown| #[trigger]
        call_ensures(Tray::offline, (t,), r) implies (r.notices@.contains(Notice::Offline) <==> (
    *t).state.was_online) by {
        if (*t).state.was_online {
            assert(r.notices@[0] == Notice::Offline);
        }
    }
}

/// The colours that every status is shown in: orange without PTP, cyan in NANO mode,
/// green when locked, and yellow else; with the badge if there is an update.
pub proof fn lemma_colours(status: &SyncStatus, badge: bool, look: Look)
    requires
        call_ensures(look_for, (status, badge), look),
    ensures
        look.badge == badge,
        (look.r, look.g, look.b) == if status.mode@ == "NTP-only"@ {
            (255u8, 152u8, 0u8)
        } else if status.mode@ == "NANO"@ {
            (0u8, 188u8, 212u8)
        } else if status.is_locked {
            (40u8, 167u8, 69u8)
        } else {
            (255u8, 193u8, 7u8)
        },
        status.mode@ == "NTP-only"@ ==> look.pulse.bits == 0,
        !status.is_locked && !status.settled && status.mode@ != "NANO"@ ==> look.pulse.bits == 0,
{
}

/// The name of the mode that is shown is the one that the status tells; one that tells
/// none shows the lock.
pub proof fn lemma_mode_shown(status: &SyncStatus, r: String)
    requires
        call_ensures(mode_text, (status,), r),
    ensures
        status.mode@.len() > 0 ==> r@ == status.mode@,
        status.mode@.len() == 0 ==> r@ == if status.is_locked {
            "LOCK"@
        } else {
            "ACQ"@
        },
{
}

/// Every release that is taken is announced exactly if it is newer and none was announced
/// before; from then on there is an update.
pub proof fn lemma_release(local: &str, remote: &str)
    ensures
        forall|t: &mut Tray, r: bool| #[trigger]
            call_ensures(Tray::release, (t, local, remote), r) ==> {
                let (b, a) = (*t, *final(t));
                &&& r <==> !b.update_available && newer(local@, remote@)
                &&& a.update_available <==> b.update_available || newer(local@, remote@)
                &&& a.state == b.state
            },
{
}

} // verus!
