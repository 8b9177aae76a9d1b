use rugus::bytes::find_bytes;
use rugus::cli::{menu_index, Args, Options, TransportKind};
use rugus::domain::Domain;

#[test]
fn find_bytes_first_occurrence() {
    assert_eq!(find_bytes(b"abcabc", b"bc"), Some(1));
    assert_eq!(find_bytes(b"abc", b"x"), None);
    assert_eq!(find_bytes(b"ab", b"abc"), None);
}

#[test]
fn options_default_probe_everything() {
    assert_eq!(Options::default(), Options { serial: true, ble: true, net: true });
}

#[test]
fn transport_labels() {
    assert_eq!(TransportKind::Serial("/dev/ttyACM0".into()).label(), "serie  /dev/ttyACM0");
    assert_eq!(TransportKind::Ble("RUGUS".into()).label(), "BLE    RUGUS");
}

#[test]
fn domain_names_and_indices() {
    assert_eq!(Domain::Services.name(), "Services");
    assert_eq!(Domain::App.index(), 3);
}

fn words(w: &[&str]) -> Vec<String> {
    w.iter().map(|s| s.to_string()).collect()
}

#[test]
fn args_flags_and_values() {
    let a = Args::parse(words(&["--list", "--serial", "/dev/ttyUSB0", "--psk", "0011", "--no-ble"]));
    assert!(a.list && a.no_ble && !a.no_serial && !a.help);
    assert_eq!(a.serial_port.as_deref(), Some("/dev/ttyUSB0"));
    assert_eq!(a.psk.as_deref(), Some("0011"));
}

#[test]
fn args_unknown_ignored_and_missing_value() {
    let a = Args::parse(words(&["-x", "-h", "--no-serial", "--psk"]));
    assert!(a.help && a.no_serial);
    assert_eq!(a.psk, None);
    let b = Args::parse(Vec::new());
    assert!(!b.help && !b.list && b.serial_port.is_none());
}

#[test]
fn menu_choice_range() {
    assert_eq!(menu_index(1, 3), Some(0));
    assert_eq!(menu_index(3, 3), Some(2));
    assert_eq!(menu_index(0, 3), None);
    assert_eq!(menu_index(4, 3), None);
}
