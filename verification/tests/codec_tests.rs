use metaguard::codec::{
    detect_encoding, load_auto, load_legacy, load_structured, load_with, save_flat, save_ini,
    save_structured, save_with, Encoding,
};
use metaguard::config::{WatchConfig, WatchTarget};
use metaguard::text::parse_bool_token;

fn target(key: u64, name: &str, path: &str, enabled: bool) -> WatchTarget {
    WatchTarget { key, name: name.as_bytes().to_vec(), path: path.as_bytes().to_vec(), enabled }
}

fn sample() -> WatchConfig {
    let mut c = WatchConfig::default();
    c.set_poll_interval(60).unwrap();
    c.set_auto_start(false);
    c.targets.push(target(1, "Alpha", "C:\\A\\terminal.exe", true));
    c.targets.push(target(3, "Beta fund", "C:\\B\\terminal64.exe", false));
    c
}

fn same_config(a: &WatchConfig, b: &WatchConfig, compare_keys: bool) {
    assert_eq!(a.poll_interval_seconds, b.poll_interval_seconds);
    assert_eq!(a.auto_start_enabled, b.auto_start_enabled);
    assert_eq!(a.targets.len(), b.targets.len());
    for (x, y) in a.targets.iter().zip(b.targets.iter()) {
        if compare_keys {
            assert_eq!(x.key, y.key);
        }
        assert_eq!(x.name, y.name);
        assert_eq!(x.path, y.path);
        assert_eq!(x.enabled, y.enabled);
    }
}

#[test]
fn bool_tokens_parse_case_insensitively() {
    for t in ["ON", "On", "on", "TRUE", "true", "True", "1"] {
        assert_eq!(parse_bool_token(t.as_bytes()), Some(true), "{t}");
    }
    for t in ["OFF", "Off", "off", "FALSE", "false", "False", "0"] {
        assert_eq!(parse_bool_token(t.as_bytes()), Some(false), "{t}");
    }
    assert_eq!(parse_bool_token(b"yes"), None);
    assert_eq!(parse_bool_token(b""), None);
    assert_eq!(parse_bool_token(b"ON "), None);
}

#[test]
fn flat_output_is_exact() {
    let c = sample();
    let out = save_flat(&c);
    let expected = "CheckInterval=60\nAutoStart=0\nMT_1=1|Alpha|C:\\A\\terminal.exe\nMT_3=0|Beta fund|C:\\B\\terminal64.exe\n";
    assert_eq!(String::from_utf8(out).unwrap(), expected);
}

#[test]
fn structured_output_is_exact() {
    let c = sample();
    let out = save_structured(&c);
    let expected = "check_interval_seconds=60\nauto_start_enabled=false\nmt4_instance=true|Alpha|C:\\A\\terminal.exe\nmt4_instance=false|Beta fund|C:\\B\\terminal64.exe\n";
    assert_eq!(String::from_utf8(out).unwrap(), expected);
}

#[test]
fn ini_output_normalizes_booleans_to_on_off() {
    let c = sample();
    let out = String::from_utf8(save_ini(&c)).unwrap();
    assert!(out.contains("AutoStart=OFF\n"));
    assert!(out.contains("MT_1=ON|Alpha|C:\\A\\terminal.exe\n"));
    assert!(out.contains("MT_3=OFF|Beta fund|C:\\B\\terminal64.exe\n"));
    assert!(out.starts_with("; MetaGuard configuration\n"));
    assert!(out.contains("[Settings]\n"));
    assert!(out.contains("[MT4_MT5]\n"));
}

#[test]
fn round_trip_flat() {
    let c = sample();
    let bytes = save_flat(&c);
    assert_eq!(detect_encoding(&bytes), Encoding::Flat);
    let back = load_legacy(&bytes);
    same_config(&c, &back, true);
}

#[test]
fn round_trip_ini() {
    let c = sample();
    let bytes = save_ini(&c);
    assert_eq!(detect_encoding(&bytes), Encoding::Ini);
    let back = load_legacy(&bytes);
    same_config(&c, &back, true);
}

#[test]
fn round_trip_structured_renumbers_keys() {
    let c = sample();
    let bytes = save_structured(&c);
    assert_eq!(detect_encoding(&bytes), Encoding::Structured);
    let back = load_structured(&bytes);
    same_config(&c, &back, false);
    assert_eq!(back.targets[0].key, 1);
    assert_eq!(back.targets[1].key, 2);
}

#[test]
fn round_trip_through_auto_detection() {
    let c = sample();
    for e in [Encoding::Flat, Encoding::Ini, Encoding::Structured] {
        let bytes = save_with(&c, e);
        let (back, detected) = load_auto(&bytes);
        assert_eq!(detected, e);
        same_config(&c, &back, e != Encoding::Structured);
        let again = save_with(&back, detected);
        assert_eq!(bytes, again, "re-serialization is idempotent");
    }
}

#[test]
fn load_accepts_mixed_boolean_forms() {
    let text = "CheckInterval=45\nAutoStart=TRUE\nMT_1=On|A|C:\\a.exe\nMT_2=false|B|C:\\b.exe\nMT_3=0|C|C:\\c.exe\n";
    let c = load_legacy(text.as_bytes());
    assert_eq!(c.poll_interval_seconds, 45);
    assert!(c.auto_start_enabled);
    assert!(c.targets[0].enabled);
    assert!(!c.targets[1].enabled);
    assert!(!c.targets[2].enabled);
}

#[test]
fn load_falls_back_on_garbage() {
    let c = load_legacy(b"not a config at all\x00\xff");
    assert_eq!(c.poll_interval_seconds, 30);
    assert!(c.auto_start_enabled);
    assert!(c.targets.is_empty());
}

#[test]
fn load_defaults_out_of_range_interval() {
    let c = load_legacy(b"CheckInterval=5000\n");
    assert_eq!(c.poll_interval_seconds, 30);
    let c = load_legacy(b"CheckInterval=abc\n");
    assert_eq!(c.poll_interval_seconds, 30);
    let c = load_legacy(b"CheckInterval=9\n");
    assert_eq!(c.poll_interval_seconds, 30);
}

#[test]
fn load_skips_comments_sections_and_blanks() {
    let text = "; a comment\n[Settings]\n\nCheckInterval=120\n; MT_9=ON|x|y\n[MT4_MT5]\nMT_1=ON|A|C:\\a.exe\n";
    let c = load_legacy(text.as_bytes());
    assert_eq!(c.poll_interval_seconds, 120);
    assert_eq!(c.targets.len(), 1);
    assert_eq!(c.targets[0].name, b"A".to_vec());
}

#[test]
fn load_orders_keys_numerically() {
    let text = "MT_10=ON|ten|C:\\ten.exe\nMT_2=ON|two|C:\\two.exe\n";
    let c = load_legacy(text.as_bytes());
    assert_eq!(c.targets.len(), 2);
    assert_eq!(c.targets[0].key, 2);
    assert_eq!(c.targets[1].key, 10);
}

#[test]
fn duplicate_key_overwrites_earlier_entry() {
    let text = "MT_2=1|first|C:\\p1.exe\nMT_2=0|second|C:\\p2.exe\n";
    let c = load_legacy(text.as_bytes());
    assert_eq!(c.targets.len(), 1);
    assert_eq!(c.targets[0].key, 2);
    assert_eq!(c.targets[0].name, b"second".to_vec());
    assert!(!c.targets[0].enabled);
}

#[test]
fn duplicate_path_in_file_keeps_first_entry() {
    let text = "MT_1=1|A|C:\\Same.exe\nMT_2=1|B|c:\\sAME.EXE\n";
    let c = load_legacy(text.as_bytes());
    assert_eq!(c.targets.len(), 1);
    assert_eq!(c.targets[0].name, b"A".to_vec());
}

#[test]
fn malformed_entries_are_skipped() {
    let text = "MT_1=only two|parts\nMT_x=1|A|C:\\a.exe\nMT_2=1|too|many|parts\nMT_3=1|ok|C:\\ok.exe\n";
    let c = load_legacy(text.as_bytes());
    assert_eq!(c.targets.len(), 1);
    assert_eq!(c.targets[0].name, b"ok".to_vec());
}

#[test]
fn values_keep_interior_equals_signs() {
    let text = "MT_1=1|name=with=eq|C:\\a=b.exe\n";
    let c = load_legacy(text.as_bytes());
    assert_eq!(c.targets[0].name, b"name=with=eq".to_vec());
    assert_eq!(c.targets[0].path, b"C:\\a=b.exe".to_vec());
}

#[test]
fn detection_prefers_structured_keys() {
    assert_eq!(detect_encoding(b"check_interval_seconds=30\n"), Encoding::Structured);
    assert_eq!(detect_encoding(b"; note\nmt4_instance=true|a|b\n"), Encoding::Structured);
    assert_eq!(detect_encoding(b"; note\nCheckInterval=30\n"), Encoding::Ini);
    assert_eq!(detect_encoding(b"[Settings]\n"), Encoding::Ini);
    assert_eq!(detect_encoding(b"CheckInterval=30\n"), Encoding::Flat);
    assert_eq!(detect_encoding(b""), Encoding::Flat);
}

#[test]
fn load_with_dispatches_on_encoding() {
    let flat = b"CheckInterval=77\n";
    let c = load_with(flat, Encoding::Flat);
    assert_eq!(c.poll_interval_seconds, 77);
    let s = b"check_interval_seconds=88\nmt4_instance=true|A|C:\\a.exe\n";
    let c = load_with(s, Encoding::Structured);
    assert_eq!(c.poll_interval_seconds, 88);
    assert_eq!(c.targets.len(), 1);
    assert_eq!(c.targets[0].key, 1);
}

#[test]
fn windows_line_endings_are_tolerated() {
    let text = "CheckInterval=90\r\nAutoStart=OFF\r\nMT_1=ON|A|C:\\a.exe\r\n";
    let c = load_legacy(text.as_bytes());
    assert_eq!(c.poll_interval_seconds, 90);
    assert!(!c.auto_start_enabled);
    assert_eq!(c.targets.len(), 1);
    assert_eq!(c.targets[0].path, b"C:\\a.exe".to_vec());
}

#[test]
fn reserialization_is_stable_whatever_the_input_was() {
    let weird = "junk line\nCheckInterval= 25 \nUnknownKey=kept?\nMT_7=TRUE|N|C:\\n.exe\n;c\n";
    let c1 = load_legacy(weird.as_bytes());
    let bytes = save_flat(&c1);
    let c2 = load_legacy(&bytes);
    same_config(&c1, &c2, true);
    assert_eq!(save_flat(&c2), bytes);
}
