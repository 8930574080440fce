use metaguard::config::{WatchConfig, WatchTarget};
use metaguard::engine::{EventLog, WatchdogEngine, EVENT_LOG_CAP};
use metaguard::inspect::is_path_running;

fn target(key: u64, name: &str, path: &str, enabled: bool) -> WatchTarget {
    WatchTarget { key, name: name.as_bytes().to_vec(), path: path.as_bytes().to_vec(), enabled }
}

fn two_target_config() -> WatchConfig {
    let mut c = WatchConfig::default();
    c.targets.push(target(1, "A", "C:\\A\\terminal.exe", true));
    c.targets.push(target(2, "B", "C:\\B\\terminal.exe", false));
    c
}

#[test]
fn start_and_stop_toggle_the_state() {
    let mut e = WatchdogEngine::new();
    assert!(!e.running);
    e.start();
    assert!(e.running);
    e.stop();
    assert!(!e.running);
}

#[test]
fn tick_with_target_running_logs_one_event_and_launches_nothing() {
    let mut e = WatchdogEngine::new();
    let cfg = two_target_config();
    // the snapshot holds pathA (in different case) but not pathB
    let snap: Vec<Vec<u8>> = vec![b"c:\\a\\TERMINAL.EXE".to_vec(), b"C:\\other.exe".to_vec()];
    let now = b"2024-01-01 10:00:00".to_vec();
    let missing = e.tick(&cfg, &snap, &now);
    assert!(missing.is_empty());
    assert_eq!(e.log.entries.len(), 1);
    assert_eq!(e.log.entries[0].message, b"A is running".to_vec());
    assert_eq!(e.log.entries[0].timestamp, now);
}

#[test]
fn tick_with_nothing_running_reports_only_the_enabled_target() {
    let mut e = WatchdogEngine::new();
    let cfg = two_target_config();
    let snap: Vec<Vec<u8>> = vec![b"C:\\unrelated.exe".to_vec()];
    let now = b"2024-01-01 10:00:00".to_vec();
    let missing = e.tick(&cfg, &snap, &now);
    assert_eq!(missing.len(), 1);
    assert_eq!(missing[0].name, b"A".to_vec());
    assert_eq!(missing[0].path, b"C:\\A\\terminal.exe".to_vec());
    assert_eq!(e.log.entries.len(), 1);
    assert_eq!(e.log.entries[0].message, b"A is not running".to_vec());
    // the relaunch outcome is reported afterwards
    e.note_launch_result(&missing[0].name, true, &now);
    assert_eq!(e.log.entries.len(), 2);
    assert_eq!(e.log.entries[1].message, b"A started".to_vec());
    e.note_launch_result(&missing[0].name, false, &now);
    assert_eq!(e.log.entries[2].message, b"A failed to start".to_vec());
}

#[test]
fn tick_skips_disabled_targets_entirely() {
    let mut e = WatchdogEngine::new();
    let mut cfg = two_target_config();
    cfg.targets[0].enabled = false;
    let snap: Vec<Vec<u8>> = vec![];
    let now = b"t".to_vec();
    let missing = e.tick(&cfg, &snap, &now);
    assert!(missing.is_empty());
    assert!(e.log.entries.is_empty());
}

#[test]
fn tick_walks_targets_in_list_order() {
    let mut e = WatchdogEngine::new();
    let mut cfg = WatchConfig::default();
    cfg.targets.push(target(1, "one", "C:\\1.exe", true));
    cfg.targets.push(target(2, "two", "C:\\2.exe", true));
    let snap: Vec<Vec<u8>> = vec![b"C:\\2.exe".to_vec()];
    let now = b"t".to_vec();
    let missing = e.tick(&cfg, &snap, &now);
    assert_eq!(e.log.entries.len(), 2);
    assert_eq!(e.log.entries[0].message, b"one is not running".to_vec());
    assert_eq!(e.log.entries[1].message, b"two is running".to_vec());
    assert_eq!(missing.len(), 1);
    assert_eq!(missing[0].name, b"one".to_vec());
}

#[test]
fn event_log_drops_oldest_when_full() {
    let mut log = EventLog::new();
    for i in 0..(EVENT_LOG_CAP + 5) {
        log.append(b"t".to_vec(), format!("event {i}").into_bytes());
    }
    assert_eq!(log.entries.len(), EVENT_LOG_CAP);
    assert_eq!(log.entries[0].message, b"event 5".to_vec());
    let last = format!("event {}", EVENT_LOG_CAP + 4).into_bytes();
    assert_eq!(log.entries[EVENT_LOG_CAP - 1].message, last);
}

#[test]
fn is_path_running_compares_case_insensitively() {
    let snap: Vec<Vec<u8>> = vec![b"C:\\Dir\\App.EXE".to_vec()];
    assert!(is_path_running(&snap, b"c:\\dir\\app.exe"));
    assert!(!is_path_running(&snap, b"c:\\dir\\other.exe"));
    let empty: Vec<Vec<u8>> = vec![];
    assert!(!is_path_running(&empty, b"c:\\dir\\app.exe"));
}

#[test]
fn run_tick_with_no_enabled_targets_logs_nothing() {
    let mut e = WatchdogEngine::new();
    let mut cfg = WatchConfig::default();
    cfg.targets.push(target(1, "X", "C:\\nowhere\\terminal.exe", false));
    e.start();
    let missing = e.run_tick(&cfg);
    assert!(missing.is_empty());
    assert!(e.log.entries.is_empty());
    assert!(e.running);
}

#[test]
fn run_tick_reports_a_surely_absent_executable_as_missing() {
    let mut e = WatchdogEngine::new();
    let mut cfg = WatchConfig::default();
    cfg.targets.push(target(1, "ghost", "Z:\\surely\\not\\running\\terminal.exe", true));
    let missing = e.run_tick(&cfg);
    assert_eq!(missing.len(), 1);
    assert_eq!(missing[0].path, b"Z:\\surely\\not\\running\\terminal.exe".to_vec());
    assert_eq!(e.log.entries.len(), 1);
    assert_eq!(e.log.entries[0].message, b"ghost is not running".to_vec());
    // the wall-clock stamp has the fixed "year-month-day hour:minute:second" width
    assert_eq!(e.log.entries[0].timestamp.len(), 19);
}
