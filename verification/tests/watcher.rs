use config_kit::watcher::{reload_result, Debounce, WatchAction, WatchEvent};
use config_kit::ConfigError;

#[test]
fn change_then_quiet_window_reloads_once() {
    let watched = "/tmp/toggle.toml".to_string();
    let mut state = Debounce::new();
    assert_eq!(state.on_event(WatchEvent::Timeout, &watched), WatchAction::Wait);
    assert_eq!(
        state.on_event(WatchEvent::Changed(vec!["/tmp/other.toml".into()]), &watched),
        WatchAction::Wait
    );
    assert_eq!(state.on_event(WatchEvent::Timeout, &watched), WatchAction::Wait);
    assert_eq!(
        state.on_event(WatchEvent::Changed(vec!["/tmp//toggle.toml".into()]), &watched),
        WatchAction::Wait
    );
    assert!(state.pending);
    assert_eq!(state.on_event(WatchEvent::Timeout, &watched), WatchAction::Reload);
    assert!(!state.pending);
    assert_eq!(state.on_event(WatchEvent::Timeout, &watched), WatchAction::Wait);
}

#[test]
fn watch_errors_schedule_a_reload_and_disconnect_exits() {
    let watched = "/tmp/toggle.toml".to_string();
    let mut state = Debounce::new();
    assert_eq!(state.on_event(WatchEvent::WatchError, &watched), WatchAction::Wait);
    assert_eq!(state.on_event(WatchEvent::Disconnected, &watched), WatchAction::Exit);
    assert_eq!(state.on_event(WatchEvent::Timeout, &watched), WatchAction::Reload);
}

#[test]
fn reload_failures_name_the_watched_file() {
    let watched = "/tmp/toggle.toml".to_string();
    let ok = reload_result(&watched, Ok(true));
    assert_eq!(ok.ok(), Some(true));
    let err = reload_result::<bool>(&watched, Err("invalid type".into())).err().expect("err");
    assert_eq!(err, ConfigError::Parse { path: watched.clone(), message: "invalid type".into() });
}
