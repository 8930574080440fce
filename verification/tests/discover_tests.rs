use metaguard::autostart::plan_autostart_sync;
use metaguard::discover::{add_discovered, display_name_for, is_terminal_dir};
use metaguard::config::WatchConfig;

#[test]
fn terminal_directories_are_recognized() {
    assert!(is_terminal_dir(b"MetaTrader 4"));
    assert!(is_terminal_dir(b"XM MT4"));
    assert!(is_terminal_dir(b"broker mt5 live"));
    assert!(is_terminal_dir(b"METATRADER5"));
    assert!(!is_terminal_dir(b"Mozilla Firefox"));
    assert!(!is_terminal_dir(b""));
}

#[test]
fn display_names_carry_platform_and_width() {
    assert_eq!(
        display_name_for(b"XM MT4", false),
        b"XM MT4 - MT4 (32bit)".to_vec()
    );
    assert_eq!(
        display_name_for(b"Broker MT5", true),
        b"Broker MT5 - MT5 (64bit)".to_vec()
    );
    assert_eq!(
        display_name_for(b"MetaTrader 4", true),
        b"MetaTrader 4 - MT4 (64bit)".to_vec()
    );
}

#[test]
fn add_discovered_deduplicates_against_list_and_scan() {
    let mut c = WatchConfig::default();
    c.add_target(b"existing".to_vec(), b"C:\\One\\terminal.exe".to_vec()).unwrap();
    let found = vec![
        (b"dup of existing".to_vec(), b"c:\\one\\TERMINAL.exe".to_vec()),
        (b"new one".to_vec(), b"C:\\Two\\terminal.exe".to_vec()),
        (b"dup within scan".to_vec(), b"c:\\two\\terminal.exe".to_vec()),
    ];
    let added = add_discovered(&mut c, &found);
    assert_eq!(added, 1);
    assert_eq!(c.targets.len(), 2);
    assert_eq!(c.targets[1].name, b"new one".to_vec());
    assert_eq!(c.targets[1].key, 2);
    assert!(c.targets[1].enabled);
}

#[test]
fn autostart_sync_acts_only_on_disagreement() {
    assert_eq!(plan_autostart_sync(true, true), None);
    assert_eq!(plan_autostart_sync(false, false), None);
    assert_eq!(plan_autostart_sync(true, false), Some(true));
    assert_eq!(plan_autostart_sync(false, true), Some(false));
}
