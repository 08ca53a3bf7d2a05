//! The task that keeps the vision receiver running.

use rustengine::supervisor::{
    process_due, ConfigUpdate, VisionAction, VisionSettings, VisionSignal,
};

fn change(ip: &str, port: u16) -> VisionSignal {
    VisionSignal::Config(ConfigUpdate::ChangeIpPort(ip.to_string(), port))
}

fn toggle(enabled: bool) -> VisionSignal {
    VisionSignal::Config(ConfigUpdate::ToggleTracker(enabled))
}

#[test]
fn vision_starts_with_its_own_address() {
    let settings = VisionSettings::new();
    assert_eq!(settings.ip(), "224.5.23.2");
    assert_eq!(settings.port(), 10020);
    assert!(settings.tracker_enabled());
}

#[test]
fn a_new_address_restarts_the_receiver() {
    let mut settings = VisionSettings::new();
    assert_eq!(settings.handle(change("224.5.23.9", 10006)), VisionAction::Restart);
    assert_eq!(settings.ip(), "224.5.23.9");
    assert_eq!(settings.port(), 10006);
    assert!(settings.tracker_enabled());
}

#[test]
fn the_tracker_is_switched_while_the_receiver_runs() {
    let mut settings = VisionSettings::new();
    assert_eq!(settings.handle(toggle(false)), VisionAction::KeepRunning);
    assert!(!settings.tracker_enabled());
    assert_eq!(settings.ip(), "224.5.23.2");
    assert_eq!(settings.handle(toggle(true)), VisionAction::KeepRunning);
    assert!(settings.tracker_enabled());
}

#[test]
fn a_receiver_that_ended_is_replaced_after_a_while() {
    let mut settings = VisionSettings::new();
    settings.handle(change("224.5.23.9", 10006));
    settings.handle(toggle(false));
    assert_eq!(settings.handle(VisionSignal::ReceiverEnded), VisionAction::RestartAfter(100));
    assert_eq!(settings.ip(), "224.5.23.9");
    assert_eq!(settings.port(), 10006);
    assert!(!settings.tracker_enabled());
}

#[test]
fn the_last_request_counts() {
    let mut settings = VisionSettings::new();
    for signal in [change("a", 1), toggle(false), change("b", 2), toggle(true), toggle(false)] {
        settings.handle(signal);
    }
    assert_eq!((settings.ip(), settings.port()), ("b", 2));
    assert!(!settings.tracker_enabled());
}

#[test]
fn the_script_runs_every_sixteen_milliseconds() {
    assert!(!process_due(0));
    assert!(!process_due(15));
    assert!(process_due(16));
    assert!(process_due(1000));
}
