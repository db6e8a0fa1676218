use persistwd::config::{Cli, Command, Config};
use persistwd::paths::temp_path;
use persistwd::watch::{EventKind, Phase, WatchAction, WatchInput, WatchState};

#[test]
fn first_registration_arms_at_generation_zero() {
    let s = WatchState::new();
    assert_eq!(s.phase, Phase::Starting);
    let (s, a) = s.step(WatchInput::Registered(true));
    assert_eq!(s, WatchState { phase: Phase::Armed, generation: 0 });
    assert_eq!(a, WatchAction::Ignore);
}

#[test]
fn first_registration_failure_is_fatal() {
    let (s, a) = WatchState::new().step(WatchInput::Registered(false));
    assert_eq!(s.phase, Phase::Stopped);
    assert_eq!(a, WatchAction::Fail);
}

#[test]
fn create_and_modify_trigger_resync() {
    let s = WatchState { phase: Phase::Armed, generation: 3 };
    assert_eq!(s.step(WatchInput::Event(EventKind::Create)), (s, WatchAction::Resync));
    assert_eq!(s.step(WatchInput::Event(EventKind::Modify)), (s, WatchAction::Resync));
    assert_eq!(s.step(WatchInput::Event(EventKind::Other)), (s, WatchAction::Ignore));
    assert_eq!(s.step(WatchInput::WatchError), (s, WatchAction::Report));
}

#[test]
fn remove_rearms_before_resync() {
    let s = WatchState { phase: Phase::Armed, generation: 0 };
    let (s, a) = s.step(WatchInput::Event(EventKind::Remove));
    assert_eq!(s, WatchState { phase: Phase::Rearming, generation: 0 });
    assert_eq!(a, WatchAction::Rearm);
    let (s, a) = s.step(WatchInput::Event(EventKind::Modify));
    assert_eq!(s.phase, Phase::Rearming);
    assert_eq!(a, WatchAction::Rearm);
    let (s, a) = s.step(WatchInput::Registered(true));
    assert_eq!(s, WatchState { phase: Phase::Armed, generation: 1 });
    assert_eq!(a, WatchAction::Resync);
}

#[test]
fn failed_rearm_stops_for_good() {
    let s = WatchState { phase: Phase::Rearming, generation: 5 };
    let (s, a) = s.step(WatchInput::Registered(false));
    assert_eq!(s, WatchState { phase: Phase::Stopped, generation: 5 });
    assert_eq!(a, WatchAction::Fail);
    assert_eq!(s.step(WatchInput::Event(EventKind::Modify)).1, WatchAction::Ignore);
    assert_eq!(s.step(WatchInput::Registered(true)).1, WatchAction::Ignore);
}

#[test]
fn generation_wraps_at_end_of_range() {
    let s = WatchState { phase: Phase::Rearming, generation: u64::MAX };
    let (s, _) = s.step(WatchInput::Registered(true));
    assert_eq!(s.generation, 0);
}

#[test]
fn temp_path_is_beside_target() {
    assert_eq!(temp_path(&b"/etc/shadow".to_vec()), Some(b"/etc/nshadow".to_vec()));
    assert_eq!(temp_path(&b"shadow".to_vec()), Some(b"nshadow".to_vec()));
    assert_eq!(temp_path(&b"/a/b/c".to_vec()), Some(b"/a/b/nc".to_vec()));
}

#[test]
fn temp_path_needs_a_file_name() {
    assert_eq!(temp_path(&b"/".to_vec()), None);
    assert_eq!(temp_path(&b"".to_vec()), None);
    assert_eq!(temp_path(&b"/etc/..".to_vec()), None);
    assert_eq!(temp_path(&b"/etc/.".to_vec()), None);
    assert_eq!(temp_path(&b"/etc/".to_vec()), None);
}

#[test]
fn config_refuses_duplicate_names() {
    let mut c = Config::new();
    assert!(c.add(b"alice".to_vec(), "/m/a".to_string()));
    assert!(c.add(b"bob".to_vec(), "/m/b".to_string()));
    assert!(!c.add(b"alice".to_vec(), "/other".to_string()));
    assert_eq!(c.len(), 2);
    assert_eq!(c.find(&b"bob".to_vec()), Some(1));
    assert_eq!(c.find(&b"carol".to_vec()), None);
    assert_eq!(c.mirror(0), "/m/a");
    assert_eq!(c.name(1), &b"bob".to_vec());
}

#[test]
fn command_line_value() {
    let cli = Cli { command: Command::PopulateHashes { passwd: true }, config: None };
    assert_eq!(cli.command, Command::PopulateHashes { passwd: true });
    assert!(cli.config.is_none());
}
