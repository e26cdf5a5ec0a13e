use network_dmenu::bluetooth::{
    extract_device_address, get_connected_devices, handle_bluetooth_action,
    parse_bluetooth_device, parse_bluetooth_devices, BluetoothAction,
};

fn lines(v: &[&str]) -> Vec<String> {
    v.iter().map(|s| s.to_string()).collect()
}

#[test]
fn connected_device_shows_active_marker_and_disconnects() {
    let connected = lines(&["AA:BB:CC:DD:EE:FF"]);
    let devices = parse_bluetooth_devices(
        lines(&["Device AA:BB:CC:DD:EE:FF Headphones"]),
        &connected,
    );
    assert_eq!(devices.len(), 1);
    let BluetoothAction::ToggleConnect(display) = &devices[0];
    assert!(display.contains('\u{2705}'));
    assert!(display.ends_with("AA:BB:CC:DD:EE:FF"));
    let args = handle_bluetooth_action(&devices[0], &connected).expect("entry carries a MAC");
    assert_eq!(args, vec!["disconnect", "AA:BB:CC:DD:EE:FF"]);
}

#[test]
fn disconnected_device_gets_connect_command() {
    let connected: Vec<String> = Vec::new();
    let devices = parse_bluetooth_devices(
        lines(&["Device AA:BB:CC:DD:EE:FF Headphones"]),
        &connected,
    );
    let BluetoothAction::ToggleConnect(display) = &devices[0];
    assert!(!display.contains('\u{2705}'));
    let args = handle_bluetooth_action(&devices[0], &connected).unwrap();
    assert_eq!(args, vec!["connect", "AA:BB:CC:DD:EE:FF"]);
}

#[test]
fn lines_without_mac_pattern_are_dropped() {
    let connected: Vec<String> = Vec::new();
    assert!(parse_bluetooth_device("no mac in this line".to_string(), &connected).is_none());
    assert!(parse_bluetooth_device("Device AA:BB:CC:DD:EE Headset".to_string(), &connected)
        .is_none());
    let devices = parse_bluetooth_devices(
        lines(&["garbage", "Device 11:22:33:44:55:66 Mouse", "ZZ:ZZ junk"]),
        &connected,
    );
    assert_eq!(devices.len(), 1);
}

#[test]
fn device_address_comes_from_the_entry_tail() {
    assert_eq!(
        extract_device_address("bluetooth - \u{2705} Mouse - 11:22:33:44:55:66"),
        Some("11:22:33:44:55:66".to_string())
    );
    assert_eq!(extract_device_address("no address"), None);
    assert_eq!(extract_device_address("11:22:33:44:55:66 trailing"), None);
}

#[test]
fn connected_set_takes_second_token_of_device_lines() {
    let macs = get_connected_devices(&lines(&[
        "Device AA:BB:CC:DD:EE:FF Headphones",
        "Name: something",
        "Device 11:22:33:44:55:66 Mouse",
    ]));
    assert_eq!(macs, vec!["AA:BB:CC:DD:EE:FF", "11:22:33:44:55:66"]);
}
