use metaguard::config::{ValidationError, WatchConfig, WatchTarget};

fn target(key: u64, name: &str, path: &str, enabled: bool) -> WatchTarget {
    WatchTarget { key, name: name.as_bytes().to_vec(), path: path.as_bytes().to_vec(), enabled }
}

#[test]
fn default_config_values() {
    let c = WatchConfig::default();
    assert_eq!(c.poll_interval_seconds, 30);
    assert!(c.targets.is_empty());
    assert!(c.auto_start_enabled);
}

#[test]
fn set_poll_interval_bounds() {
    let mut c = WatchConfig::default();
    assert_eq!(c.set_poll_interval(9), Err(ValidationError::OutOfRange));
    assert_eq!(c.poll_interval_seconds, 30);
    assert_eq!(c.set_poll_interval(301), Err(ValidationError::OutOfRange));
    assert_eq!(c.poll_interval_seconds, 30);
    assert_eq!(c.set_poll_interval(10), Ok(()));
    assert_eq!(c.poll_interval_seconds, 10);
    assert_eq!(c.set_poll_interval(300), Ok(()));
    assert_eq!(c.poll_interval_seconds, 300);
}

#[test]
fn add_target_assigns_keys_and_sorts() {
    let mut c = WatchConfig::default();
    assert_eq!(c.add_target(b"A".to_vec(), b"C:\\one\\terminal.exe".to_vec()), Ok(()));
    assert_eq!(c.add_target(b"B".to_vec(), b"C:\\two\\terminal.exe".to_vec()), Ok(()));
    assert_eq!(c.targets.len(), 2);
    assert_eq!(c.targets[0].key, 1);
    assert_eq!(c.targets[1].key, 2);
    assert!(c.targets[0].enabled);
}

#[test]
fn add_target_duplicate_path_any_case_is_rejected() {
    let mut c = WatchConfig::default();
    assert_eq!(c.add_target(b"A".to_vec(), b"C:\\MT4\\Terminal.exe".to_vec()), Ok(()));
    let before = c.targets.len();
    assert_eq!(
        c.add_target(b"other name".to_vec(), b"c:\\mt4\\TERMINAL.EXE".to_vec()),
        Err(ValidationError::DuplicatePath)
    );
    assert_eq!(c.targets.len(), before);
    assert_eq!(c.targets[0].name, b"A".to_vec());
}

#[test]
fn add_target_rejects_unstorable_text() {
    let mut c = WatchConfig::default();
    assert_eq!(
        c.add_target(b"a|b".to_vec(), b"C:\\x.exe".to_vec()),
        Err(ValidationError::InvalidText)
    );
    assert_eq!(
        c.add_target(b"a".to_vec(), b"C:\\x.exe ".to_vec()),
        Err(ValidationError::InvalidText)
    );
    assert!(c.targets.is_empty());
}

#[test]
fn next_key_fills_the_smallest_gap() {
    let mut c = WatchConfig::default();
    c.targets.push(target(1, "one", "C:\\one.exe", true));
    c.targets.push(target(3, "three", "C:\\three.exe", true));
    assert_eq!(c.next_key(), 2);
    assert_eq!(c.add_target(b"two".to_vec(), b"C:\\two.exe".to_vec()), Ok(()));
    assert_eq!(c.targets.len(), 3);
    assert_eq!(c.targets[1].key, 2);
    assert_eq!(c.targets[1].name, b"two".to_vec());
}

#[test]
fn remove_target_out_of_range_leaves_list_unchanged() {
    let mut c = WatchConfig::default();
    c.add_target(b"A".to_vec(), b"C:\\a.exe".to_vec()).unwrap();
    assert_eq!(c.remove_target(5), Err(ValidationError::IndexOutOfRange));
    assert_eq!(c.targets.len(), 1);
    assert_eq!(c.remove_target(0), Ok(()));
    assert!(c.targets.is_empty());
}

#[test]
fn toggle_target_flips_only_the_flag() {
    let mut c = WatchConfig::default();
    c.add_target(b"A".to_vec(), b"C:\\a.exe".to_vec()).unwrap();
    assert!(c.targets[0].enabled);
    assert_eq!(c.toggle_target(0), Ok(()));
    assert!(!c.targets[0].enabled);
    assert_eq!(c.targets[0].name, b"A".to_vec());
    assert_eq!(c.toggle_target(0), Ok(()));
    assert!(c.targets[0].enabled);
    assert_eq!(c.toggle_target(1), Err(ValidationError::IndexOutOfRange));
}

#[test]
fn list_targets_returns_stored_order() {
    let mut c = WatchConfig::default();
    c.add_target(b"A".to_vec(), b"C:\\a.exe".to_vec()).unwrap();
    c.add_target(b"B".to_vec(), b"C:\\b.exe".to_vec()).unwrap();
    let ts = c.list_targets();
    assert_eq!(ts.len(), 2);
    assert_eq!(ts[0].name, b"A".to_vec());
    assert_eq!(ts[1].name, b"B".to_vec());
}

#[test]
fn set_auto_start_stores_flag() {
    let mut c = WatchConfig::default();
    c.set_auto_start(false);
    assert!(!c.auto_start_enabled);
    c.set_auto_start(true);
    assert!(c.auto_start_enabled);
}
