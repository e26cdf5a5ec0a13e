use network_dmenu::mullvad;
use network_dmenu::tailscale::{
    self, get_active_exit_node, handle_tailscale_action, is_exit_node_active,
    is_tailscale_enabled, PeerStatus, TailscaleAction,
};

fn lines(v: &[&str]) -> Vec<String> {
    v.iter().map(|s| s.to_string()).collect()
}

#[test]
fn test_is_tailscale_enabled() {
    let result = is_tailscale_enabled(true, "Tailscale is stopped");
    assert!(!result);
}

#[test]
fn tailscale_running_counts_as_enabled() {
    assert!(is_tailscale_enabled(true, "100.0.0.1 host linux -"));
    assert!(!is_tailscale_enabled(false, "100.0.0.1 host linux -"));
}

#[test]
fn test_get_flag() {
    assert_eq!(mullvad::get_flag("Germany"), "\u{1f1e9}\u{1f1ea}");
    assert_eq!(mullvad::get_flag("Nonexistent"), "\u{2753}");
    assert_eq!(tailscale::get_flag("Albania"), "\u{1f1e6}\u{1f1f1}");
}

#[test]
fn three_mullvad_lines_sorted_with_flags() {
    let list = lines(&[
        "100.65.0.1    al-tia-wg-001.mullvad.ts.net    Albania      Tirana     -",
        "100.65.0.2    au-syd-wg-001.mullvad.ts.net    Australia    Sydney     -",
        "100.65.0.3    at-vie-wg-001.mullvad.ts.net    Austria      Vienna     -",
    ]);
    let actions = mullvad::get_mullvad_actions(&list);
    assert_eq!(actions.len(), 3);
    let flags = ["\u{1f1e6}\u{1f1f1}", "\u{1f1e6}\u{1f1fa}", "\u{1f1e6}\u{1f1f9}"];
    for (action, flag) in actions.iter().zip(flags.iter()) {
        assert!(action.starts_with(&format!("mullvad   - {flag}")));
    }
    let mut keys: Vec<&str> = actions
        .iter()
        .map(|a| a.split_whitespace().next().unwrap())
        .collect();
    let sorted = {
        let mut s = keys.clone();
        s.sort();
        s
    };
    assert_eq!(keys, sorted);
    keys.dedup();
    assert_eq!(keys, vec!["mullvad"]);
}

#[test]
fn exit_nodes_sort_before_mullvad_nodes() {
    let list = lines(&[
        "100.65.0.1    de-ber-wg-001.mullvad.ts.net    Germany    Berlin    -",
        "100.100.0.9   myhost.tail1234.ts.net          -          -         -",
    ]);
    let actions = mullvad::get_mullvad_actions(&list);
    assert_eq!(actions.len(), 2);
    assert_eq!(actions[0], "exit-node - \u{1f33f} myhost.tail1234.ts.net - 100.100.0.9");
    assert_eq!(actions[1], "mullvad   - \u{1f1e9}\u{1f1ea} Germany - de-ber-wg-001.mullvad.ts.net");
}

#[test]
fn active_exit_node_is_marked_instead_of_flag() {
    let list = lines(&[
        "100.65.0.1    de-ber-wg-001.mullvad.ts.net    Germany    Berlin    -",
        "100.65.0.2    se-sto-wg-001.mullvad.ts.net    Sweden     Stockholm -",
    ]);
    let actions = tailscale::get_mullvad_actions(&list, "de-ber-wg-001.mullvad.ts.net");
    assert_eq!(actions.len(), 2);
    let germany = actions
        .iter()
        .find(|a| a.contains("Germany"))
        .expect("the German node is listed");
    let expected = format!(
        "mullvad   - \u{2705} {:<15} - {:<16} de-ber-wg-001.mullvad.ts.net",
        "Germany", "100.65.0.1"
    );
    assert_eq!(*germany, expected);
    let sweden = actions.iter().find(|a| a.contains("Sweden")).unwrap();
    assert!(sweden.contains("\u{1f1f8}\u{1f1ea}"));
}

#[test]
fn node_ip_round_trips_through_the_entry() {
    let list = lines(&[
        "100.65.0.1    de-ber-wg-001.mullvad.ts.net    Germany    Berlin    -",
    ]);
    let actions = tailscale::get_mullvad_actions(&list, "");
    let ip = tailscale::extract_node_ip(&actions[0]);
    assert_eq!(ip, Some("100.65.0.1".to_string()));
    let (up, set) = tailscale::set_exit_node(&actions[0]).expect("the entry holds an address");
    assert_eq!(up, vec!["up"]);
    assert_eq!(
        set,
        vec!["set", "--exit-node", "100.65.0.1", "--exit-node-allow-lan-access=true"]
    );
    assert_eq!(tailscale::extract_node_ip("no address here"), None);
}

#[test]
fn node_name_round_trips_through_the_entry() {
    let list = lines(&[
        "100.65.0.1    de-ber-wg-001.mullvad.ts.net    Germany    Berlin    -",
    ]);
    let actions = mullvad::get_mullvad_actions(&list);
    assert_eq!(
        mullvad::extract_node_name(&actions[0]),
        Some("de-ber-wg-001.mullvad.ts.net".to_string())
    );
    let (up, set) = mullvad::set_exit_node(&actions[0]).expect("the entry ends with a name");
    assert_eq!(up, vec!["up"]);
    assert_eq!(
        set,
        vec!["set", "--exit-node", "de-ber-wg-001.mullvad.ts.net", "--exit-node-allow-lan-access=true"]
    );
    assert_eq!(mullvad::set_exit_node("ends with space "), None);
}

#[test]
fn malformed_exit_node_lines_are_dropped() {
    let list = lines(&["no hostnames here", "", "   "]);
    assert!(mullvad::get_mullvad_actions(&list).is_empty());
    assert!(tailscale::get_mullvad_actions(&list, "").is_empty());
}

#[test]
fn active_exit_node_comes_from_first_matching_peer() {
    let peers = vec![
        PeerStatus { active: true, exit_node: false, dns_name: "a.ts.net.".to_string() },
        PeerStatus { active: true, exit_node: true, dns_name: "b.ts.net.".to_string() },
        PeerStatus { active: true, exit_node: true, dns_name: "c.ts.net.".to_string() },
    ];
    assert_eq!(get_active_exit_node(&peers), "b.ts.net");
    assert_eq!(get_active_exit_node(&Vec::new()), "");
}

#[test]
fn exit_node_status_line_is_detected() {
    assert!(is_exit_node_active(&lines(&[
        "100.1.1.1 host; active; exit node; things"
    ])));
    assert!(!is_exit_node_active(&lines(&["100.1.1.1 host; idle"])));
}

#[test]
fn tailscale_actions_map_to_their_commands() {
    let cmds = handle_tailscale_action(&TailscaleAction::DisableExitNode).unwrap();
    assert_eq!(cmds, vec![vec!["set", "--exit-node="]]);
    let cmds = handle_tailscale_action(&TailscaleAction::SetEnable(true)).unwrap();
    assert_eq!(cmds, vec![vec!["up"]]);
    let cmds = handle_tailscale_action(&TailscaleAction::SetEnable(false)).unwrap();
    assert_eq!(cmds, vec![vec!["down"]]);
    let cmds = handle_tailscale_action(&TailscaleAction::SetShields(true)).unwrap();
    assert_eq!(cmds, vec![vec!["set", "--shields-up", "true"]]);
    let entry = "mullvad   - \u{1f1e9}\u{1f1ea} Germany         - 100.65.0.1       de-ber-wg-001.mullvad.ts.net";
    let cmds = handle_tailscale_action(&TailscaleAction::SetExitNode(entry.to_string())).unwrap();
    assert_eq!(cmds.len(), 2);
    assert_eq!(cmds[0], vec!["up"]);
    assert_eq!(cmds[1][2], "100.65.0.1");
    assert!(handle_tailscale_action(&TailscaleAction::SetExitNode("nothing".to_string()))
        .is_none());
}

#[test]
fn short_name_stops_at_first_dot() {
    assert_eq!(tailscale::extract_short_name("host.tail1234.ts.net"), "host");
    assert_eq!(tailscale::extract_short_name("nodots"), "nodots");
    assert_eq!(tailscale::extract_short_name(""), "");
}
