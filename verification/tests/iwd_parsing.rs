use network_dmenu::iwd::{
    has_connected_entry, is_iwd_connected, is_known_network, iwd_connect_command,
    iwd_disconnect_command, network_list_body, parse_iwd_networks, strip_ansi,
};
use network_dmenu::WifiAction;

fn lines(v: &[&str]) -> Vec<String> {
    v.iter().map(|s| s.to_string()).collect()
}

#[test]
fn colour_spans_are_stripped() {
    assert_eq!(strip_ansi("\u{1b}[1;32m>\u{1b}[0m MyNet"), " MyNet");
    assert_eq!(strip_ansi("plain text"), "plain text");
    assert_eq!(strip_ansi("\u{1b}[0m unclosed"), "\u{1b}[0m unclosed");
    assert_eq!(strip_ansi("a\u{1b}[90mdim\u{1b}[0mb"), "ab");
}

#[test]
fn network_lines_follow_the_banner_block() {
    let output = lines(&[
        "                   Available networks",
        "--------------------------------------",
        "      Network name      Security  Signal",
        "--------------------------------------",
        "      HomeNet           psk       ****",
    ]);
    let body = network_list_body(&output);
    assert_eq!(body.len(), 1);
    assert!(body[0].contains("HomeNet"));
    assert!(network_list_body(&lines(&["no banner"])).is_empty());
}

#[test]
fn iwd_network_line_becomes_wifi_entry() {
    let mut actions = Vec::new();
    parse_iwd_networks(
        &mut actions,
        lines(&["      HomeNet           psk       ****", "short line"]),
    );
    assert_eq!(actions.len(), 1);
    let WifiAction::Network(d) = &actions[0] else {
        panic!("expected a network entry");
    };
    assert!(d.starts_with('\u{1f4f6}'));
    assert!(d.contains("HomeNet"));
    assert!(d.contains("PSK"));
    assert!(d.ends_with("\u{2582}\u{2584}\u{2586}\u{2588}"));
}

#[test]
fn iwd_connected_marker_comes_from_the_raw_line() {
    let mut actions = Vec::new();
    parse_iwd_networks(
        &mut actions,
        lines(&["\u{1b}[0m\u{1b}[0m      HomeNet           psk       ***"]),
    );
    assert_eq!(actions.len(), 1);
    let WifiAction::Network(d) = &actions[0] else {
        panic!("expected a network entry");
    };
    assert!(d.starts_with('\u{2705}'));
}

#[test]
fn iwd_rescan_decision_and_station_state() {
    assert!(has_connected_entry(&lines(&["> connected line"])));
    assert!(!has_connected_entry(&lines(&["  nothing", ""])));
    assert!(is_iwd_connected(&lines(&["   State   Connected"])));
    assert!(!is_iwd_connected(&lines(&["   State   scanning"])));
}

#[test]
fn iwd_known_network_matches_whole_words() {
    let known = lines(&["  HomeNet    psk   Jan 1"]);
    assert!(is_known_network("HomeNet", &known));
    assert!(!is_known_network("Home", &known));
    assert!(!is_known_network("Absent", &known));
}

#[test]
fn iwd_command_builders() {
    assert_eq!(
        iwd_connect_command("wlan0", "Net", None),
        vec!["station", "wlan0", "connect", "Net"]
    );
    assert_eq!(
        iwd_connect_command("wlan0", "Net", Some("pw")),
        vec!["station", "wlan0", "connect", "Net", "--passphrase", "pw"]
    );
    assert_eq!(
        iwd_disconnect_command("wlan0"),
        vec!["station", "wlan0", "disconnect"]
    );
}
