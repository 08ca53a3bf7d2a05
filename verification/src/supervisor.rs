//! The decisions of the task that keeps the vision receiver running, and of
//! the thread that runs the strategy script.

use vstd::prelude::*;
use vstd::string::StringExecFns;

verus! {

/// A change of configuration that a user asks for.
#[derive(Debug)]
pub enum ConfigUpdate {
    /// Listen to another multicast group and port.
    ChangeIpPort(String, u16),
    /// Switch the tracker on or off.
    ToggleTracker(bool),
}

/// A change of configuration, by contents.
pub enum ConfigUpdateView {
    ChangeIpPort(Seq<char>, u16),
    ToggleTracker(bool),
}

impl View for ConfigUpdate {
    type V = ConfigUpdateView;

    open spec fn view(&self) -> ConfigUpdateView {
        match *self {
            ConfigUpdate::ChangeIpPort(ip, port) => ConfigUpdateView::ChangeIpPort(ip@, port),
            ConfigUpdate::ToggleTracker(enabled) => ConfigUpdateView::ToggleTracker(enabled),
        }
    }
}

/// What wakes the task that keeps the vision receiver running.
#[derive(Debug)]
pub enum VisionSignal {
    Config(ConfigUpdate),
    /// The receiver ended without being told to.
    ReceiverEnded,
}

/// What wakes the task, by contents.
pub enum VisionSignalView {
    Config(ConfigUpdateView),
    ReceiverEnded,
}

impl View for VisionSignal {
    type V = VisionSignalView;

    open spec fn view(&self) -> VisionSignalView {
        match *self {
            VisionSignal::Config(update) => VisionSignalView::Config(update@),
            VisionSignal::ReceiverEnded => VisionSignalView::ReceiverEnded,
        }
    }
}

/// What the task does with the vision receiver.
#[derive(Debug, Clone, Copy, PartialEq, Eq, Structural)]
pub enum VisionAction {
    /// Stop the receiver and start one with the new settings.
    Restart,
    /// Let the receiver run on.
    KeepRunning,
    /// Start a new receiver after so many milliseconds.
    RestartAfter(u64),
}

/// How long the task waits before it replaces a receiver that ended, in
/// milliseconds: without a wait it would spin.
pub const RESTART_MILLIS: u64 = 100;

/// The port of the vision system.
pub const VISION_PORT: u16 = 10020;

/// The settings of the vision receiver.
#[derive(Debug)]
pub struct VisionSettings {
    ip: String,
    port: u16,
    tracker_enabled: bool,
}

/// The settings of the vision receiver, by contents.
pub struct VisionSettingsView {
    pub ip: Seq<char>,
    pub port: u16,
    pub tracker_enabled: bool,
}

impl View for VisionSettings {
    type V = VisionSettingsView;

    closed spec fn view(&self) -> VisionSettingsView {
        VisionSettingsView {
            ip: self.ip@,
            port: self.port,
            tracker_enabled: self.tracker_enabled,
        }
    }
}

impl VisionSettingsView {
    /// The settings at the start: the vision system's own group and port, with
    /// the tracker on.
    pub open spec fn initial() -> VisionSettingsView {
        VisionSettingsView { ip: "224.5.23.2"@, port: VISION_PORT, tracker_enabled: true }
    }

    /// The settings after a signal.
    pub open spec fn after(self, signal: VisionSignalView) -> VisionSettingsView {
        match signal {
            VisionSignalView::Config(ConfigUpdateView::ChangeIpPort(ip, port)) =>
                VisionSettingsView { ip, port, ..self },
            VisionSignalView::Config(ConfigUpdateView::ToggleTracker(enabled)) =>
                VisionSettingsView { tracker_enabled: enabled, ..self },
            VisionSignalView::ReceiverEnded => self,
        }
    }

    /// The settings after a run of signals.
    pub open spec fn after_all(self, signals: Seq<VisionSignalView>) -> VisionSettingsView
        decreases signals.len(),
    {
        if signals.len() == 0 {
            self
        } else {
            self.after_all(signals.drop_last()).after(signals.last())
        }
    }
}

/// What the task does on a signal. The tracker is switched while the receiver
/// runs, so that alone does not replace it.
pub open spec fn vision_action(signal: VisionSignalView) -> VisionAction {
    match signal {
        VisionSignalView::Config(ConfigUpdateView::ChangeIpPort(_, _)) => VisionAction::Restart,
        VisionSignalView::Config(ConfigUpdateView::ToggleTracker(_)) => VisionAction::KeepRunning,
        VisionSignalView::ReceiverEnded => VisionAction::RestartAfter(RESTART_MILLIS),
    }
}

impl VisionSettings {
    /// The settings at the start.
    pub fn new() -> (result: Self)
        ensures
            result@ == VisionSettingsView::initial(),
    {
        VisionSettings {
            ip: String::from_str("224.5.23.2"),
            port: VISION_PORT,
            tracker_enabled: true,
        }
    }

    /// Takes a signal into account and decides what becomes of the receiver.
    pub fn handle(&mut self, signal: VisionSignal) -> (result: VisionAction)
        ensures
            final(self)@ == old(self)@.after(signal@),
            result == vision_action(signal@),
    {
        match signal {
            VisionSignal::Config(ConfigUpdate::ChangeIpPort(ip, port)) => {
                self.ip = ip;
                self.port = port;
                VisionAction::Restart
            },
            VisionSignal::Config(ConfigUpdate::ToggleTracker(enabled)) => {
                self.tracker_enabled = enabled;
                VisionAction::KeepRunning
            },
            VisionSignal::ReceiverEnded => VisionAction::RestartAfter(RESTART_MILLIS),
        }
    }

    /// The multicast group to listen to.
    pub fn ip(&self) -> (result: &str)
        ensures
            result@ == self@.ip,
    {
        self.ip.as_str()
    }

    /// The port to listen to.
    pub fn port(&self) -> (result: u16)
        ensures
            result == self@.port,
    {
        self.port
    }

    /// Whether the tracker is on.
    pub fn tracker_enabled(&self) -> (result: bool)
        ensures
            result == self@.tracker_enabled,
    {
        self.tracker_enabled
    }
}

/// How often the script runs at most: once in so many milliseconds.
pub const PROCESS_PERIOD_MILLIS: u128 = 16;

/// Whether the script is to run again, so many milliseconds after it last did.
pub fn process_due(elapsed_millis: u128) -> (result: bool)
    ensures
        result == (elapsed_millis >= PROCESS_PERIOD_MILLIS),
{
    elapsed_millis >= PROCESS_PERIOD_MILLIS
}

/// The receiver is replaced exactly where its address was set or it ended: a
/// receiver that runs on has the group and port of the settings.
pub proof fn law_running_receiver_is_current(
    settings: VisionSettingsView,
    signal: VisionSignalView,
)
    ensures
        vision_action(signal) == VisionAction::KeepRunning ==> settings.after(signal).ip
            == settings.ip && settings.after(signal).port == settings.port,
        settings.after(signal).ip != settings.ip || settings.after(signal).port != settings.port
            ==> vision_action(signal) == VisionAction::Restart,
{
}

/// What becomes of the receiver, by what was asked for: a new address replaces
/// it, switching the tracker lets it run on, and one that ended is replaced after
/// a tenth of a second.
pub proof fn law_receiver_by_signal(ip: Seq<char>, port: u16, enabled: bool)
    ensures
        vision_action(VisionSignalView::Config(ConfigUpdateView::ChangeIpPort(ip, port)))
            is Restart,
        vision_action(VisionSignalView::Config(ConfigUpdateView::ToggleTracker(enabled)))
            is KeepRunning,
        vision_action(VisionSignalView::ReceiverEnded) == VisionAction::RestartAfter(100),
{
}

/// A receiver that ended changes no setting.
pub proof fn law_ended_receiver_keeps_settings(settings: VisionSettingsView)
    ensures
        settings.after(VisionSignalView::ReceiverEnded) == settings,
{
}

/// The group and port are those that were asked for last, whatever else was
/// asked for since.
pub proof fn law_last_address_wins(
    settings: VisionSettingsView,
    before: Seq<VisionSignalView>,
    ip: Seq<char>,
    port: u16,
    since: Seq<VisionSignalView>,
)
    requires
        forall|i: int|
            0 <= i < since.len() ==> !((#[trigger] since[i]) matches VisionSignalView::Config(
                ConfigUpdateView::ChangeIpPort(_, _),
            )),
    ensures
        ({
            let change = VisionSignalView::Config(ConfigUpdateView::ChangeIpPort(ip, port));
            let last = settings.after_all(before.push(change) + since);
            last.ip == ip && last.port == port
        }),
    decreases since.len(),
{
    let change = VisionSignalView::Config(ConfigUpdateView::ChangeIpPort(ip, port));
    let all = before.push(change) + since;
    if since.len() == 0 {
        assert(all.drop_last() =~= before);
        assert(all.last() == change);
    } else {
        law_last_address_wins(settings, before, ip, port, since.drop_last());
        assert(all.drop_last() =~= before.push(change) + since.drop_last());
        assert(all.last() == since[since.len() - 1]);
    }
}

/// The tracker is as it was switched last, whatever else was asked for since.
pub proof fn law_last_switch_wins(
    settings: VisionSettingsView,
    before: Seq<VisionSignalView>,
    enabled: bool,
    since: Seq<VisionSignalView>,
)
    requires
        forall|i: int|
            0 <= i < since.len() ==> !((#[trigger] since[i]) matches VisionSignalView::Config(
                ConfigUpdateView::ToggleTracker(_),
            )),
    ensures
        ({
            let switch = VisionSignalView::Config(ConfigUpdateView::ToggleTracker(enabled));
            settings.after_all(before.push(switch) + since).tracker_enabled == enabled
        }),
    decreases since.len(),
{
    let switch = VisionSignalView::Config(ConfigUpdateView::ToggleTracker(enabled));
    let all = before.push(switch) + since;
    if since.len() == 0 {
        assert(all.drop_last() =~= before);
        assert(all.last() == switch);
    } else {
        law_last_switch_wins(settings, before, enabled, since.drop_last());
        assert(all.drop_last() =~= before.push(switch) + since.drop_last());
        assert(all.last() == since[since.len() - 1]);
    }
}

} // verus!
