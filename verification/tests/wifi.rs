use network_dmenu::networkmanager::{
    has_in_use_entry, is_known_network, is_nm_connected, nm_connect_command,
    nm_disconnect_command, parse_wifi_lines,
};
use network_dmenu::utils::convert_network_strength;
use network_dmenu::{parse_wifi_action, WifiAction, WifiActionError};

fn lines(v: &[&str]) -> Vec<String> {
    v.iter().map(|s| s.to_string()).collect()
}

#[test]
fn test_parse_wifi_lines() {
    let mut actions = Vec::new();
    let wifi_lines = vec![
        "*:SSID1:78:WPA2".to_string(),
        " :SSID2:98:OPEN".to_string(),
        " :SSID3:65:WPA3".to_string(),
    ];
    parse_wifi_lines(&mut actions, wifi_lines);
    assert_eq!(actions.len(), 3);
}

#[test]
fn test_is_nm_connected() {
    let result = is_nm_connected(&lines(&["wlan0:connected"]), "wlan0");
    assert!(result);
}

#[test]
fn wifi_line_marks_in_use_entry() {
    let mut actions = Vec::new();
    parse_wifi_lines(&mut actions, lines(&["*:Home:****:WPA2", " :Cafe:**:OPEN"]));
    assert_eq!(actions.len(), 2);
    match &actions[0] {
        WifiAction::Network(d) => {
            assert!(d.starts_with('\u{2705}'));
            let expected = format!(
                "\u{2705} {:<25}\t{:<11}\t\u{2582}\u{2584}\u{2586}\u{2588}",
                "Home", "WPA2"
            );
            assert_eq!(*d, expected);
        }
        _ => panic!("expected a network entry"),
    }
    match &actions[1] {
        WifiAction::Network(d) => assert!(d.starts_with('\u{1f4f6}')),
        _ => panic!("expected a network entry"),
    }
}

#[test]
fn wifi_security_is_uppercased() {
    let mut actions = Vec::new();
    parse_wifi_lines(&mut actions, lines(&[" :Net:**:wpa2 wpa3"]));
    match &actions[0] {
        WifiAction::Network(d) => assert!(d.contains("WPA2 WPA3")),
        _ => panic!("expected a network entry"),
    }
}

#[test]
fn malformed_wifi_lines_are_dropped() {
    let mut actions = Vec::new();
    parse_wifi_lines(
        &mut actions,
        lines(&["only:three:fields", "a:b:c:d:e", "*::78:WPA2", "   : :x:y"]),
    );
    assert!(actions.is_empty());
}

#[test]
fn wifi_round_trip_recovers_ssid() {
    let mut actions = Vec::new();
    parse_wifi_lines(&mut actions, lines(&["*:My Net:***:wpa2", " :other:*:"]));
    for action in &actions {
        let WifiAction::Network(d) = action else {
            panic!("expected a network entry");
        };
        let (ssid, _) = parse_wifi_action(d).expect("entry must parse back");
        assert!(ssid == "My Net" || ssid == "other");
    }
    let WifiAction::Network(d) = &actions[0] else {
        panic!("expected a network entry");
    };
    let (ssid, security) = parse_wifi_action(d).unwrap();
    assert_eq!(ssid, "My Net");
    assert_eq!(security, "WPA2");
}

#[test]
fn parse_wifi_action_reports_each_error() {
    assert_eq!(
        parse_wifi_action("no marker here").unwrap_err(),
        WifiActionError::MarkerNotFound
    );
    assert_eq!(
        parse_wifi_action("\u{1f4f6} Net without tab").unwrap_err(),
        WifiActionError::TabNotFound
    );
    assert_eq!(
        parse_wifi_action("\u{1f4f6} Net\tonly one column").unwrap_err(),
        WifiActionError::BadFormat
    );
}

#[test]
fn strength_ladder_is_total_and_monotone() {
    let expected = [
        ("", "\u{2582}___"),
        ("*", "\u{2582}___"),
        ("**", "\u{2582}\u{2584}__"),
        ("***", "\u{2582}\u{2584}\u{2586}_"),
        ("****", "\u{2582}\u{2584}\u{2586}\u{2588}"),
        ("*****", "\u{2582}\u{2584}\u{2586}\u{2588}"),
    ];
    let mut previous_filled = 0;
    for (input, want) in expected {
        let got = convert_network_strength(input);
        assert_eq!(got, want);
        assert_eq!(got.chars().count(), 4);
        let filled = got.chars().filter(|c| *c != '_').count();
        assert!(filled >= previous_filled);
        previous_filled = filled;
    }
    assert_eq!(convert_network_strength("78"), "\u{2582}___");
}

#[test]
fn in_use_detection_looks_at_first_character() {
    assert!(has_in_use_entry(&lines(&[" :a:1:x", "*:b:2:y"])));
    assert!(!has_in_use_entry(&lines(&[" :a:1:x", " *:b:2:y"])));
}

#[test]
fn known_network_needs_surrounding_whitespace() {
    let profiles = lines(&["Home   uuid-1234  wifi  wlan0", "Other  uuid-5678  wifi  --"]);
    assert!(is_known_network("Home", &profiles));
    assert!(!is_known_network("Hom", &profiles));
    assert!(!is_known_network("Absent", &profiles));
}

#[test]
fn nm_command_builders_carry_the_password_branch() {
    assert_eq!(
        nm_connect_command("Net", None),
        vec!["device", "wifi", "connect", "Net"]
    );
    assert_eq!(
        nm_connect_command("Net", Some("pw")),
        vec!["device", "wifi", "connect", "Net", "password", "pw"]
    );
    assert_eq!(nm_disconnect_command("wlan0"), vec!["device", "disconnect", "wlan0"]);
}
