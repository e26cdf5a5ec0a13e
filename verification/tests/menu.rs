use network_dmenu::bluetooth::BluetoothAction;
use network_dmenu::command::read_output_lines;
use network_dmenu::tailscale::TailscaleAction;
use network_dmenu::utils::parse_password_output;
use network_dmenu::{
    action_display, find_selected_action, format_entry, get_actions, get_default_config,
    system_action_command, ActionType, CustomAction, SystemAction, ToolAvailability, WifiAction,
};

fn lines(v: &[&str]) -> Vec<String> {
    v.iter().map(|s| s.to_string()).collect()
}

fn all_tools() -> ToolAvailability {
    ToolAvailability {
        tailscale: true,
        nmcli: true,
        iwctl: false,
        rfkill: true,
        nm_connection_editor: true,
        bluetoothctl: true,
    }
}

#[test]
fn format_entry_pads_and_places_the_icon() {
    assert_eq!(format_entry("action", "", "run it"), "action    - run it");
    assert_eq!(
        format_entry("system", "\u{274c}", "Radio wifi rfkill block"),
        "system    - \u{274c} Radio wifi rfkill block"
    );
    assert_eq!(format_entry("categories", "x", "t"), "categories- x t");
}

#[test]
fn default_config_mentions_the_launcher() {
    let config = get_default_config();
    assert!(config.contains("dmenu_cmd"));
    assert!(config.contains("[[actions]]"));
}

#[test]
fn output_lines_split_like_a_reader() {
    assert_eq!(read_output_lines("a\nb\r\nc\n"), vec!["a", "b", "c"]);
    assert_eq!(read_output_lines(""), Vec::<String>::new());
    assert_eq!(read_output_lines("\n"), vec![""]);
    assert_eq!(read_output_lines("last"), vec!["last"]);
    assert_eq!(read_output_lines("a\r\nb\r"), vec!["a", "b\r"]);
}

#[test]
fn password_line_is_found_and_stripped() {
    assert_eq!(
        parse_password_output(&lines(&["OK", "D hunter2", "OK"])),
        Some("hunter2".to_string())
    );
    assert_eq!(
        parse_password_output(&lines(&["D D nested"])),
        Some("nested".to_string())
    );
    assert_eq!(parse_password_output(&lines(&["OK", "ERR"])), None);
}

#[test]
fn registry_keeps_the_presentation_order() {
    let custom = vec![CustomAction { display: "Example".to_string(), cmd: "true".to_string() }];
    let networks = vec![WifiAction::Network("\u{1f4f6} Net\tWPA2\tx".to_string())];
    let mullvad = vec!["mullvad   - \u{1f1e9}\u{1f1ea} entry".to_string()];
    let bluetooth = vec![BluetoothAction::ToggleConnect("bt entry".to_string())];
    let actions = get_actions(
        custom, false, false, false, &all_tools(), true, networks, true, true, mullvad, bluetooth,
    );
    assert!(matches!(&actions[0], ActionType::Custom(c) if c.display == "Example"));
    assert!(matches!(
        &actions[1],
        ActionType::Tailscale(TailscaleAction::DisableExitNode)
    ));
    assert!(matches!(&actions[2], ActionType::Wifi(WifiAction::Network(_))));
    assert!(matches!(&actions[3], ActionType::Wifi(WifiAction::Disconnect)));
    assert!(matches!(
        &actions[4],
        ActionType::System(SystemAction::RfkillBlock)
    ));
    assert!(matches!(
        &actions[5],
        ActionType::System(SystemAction::RfkillUnblock)
    ));
    assert!(matches!(
        &actions[6],
        ActionType::System(SystemAction::EditConnections)
    ));
    assert!(matches!(
        &actions[7],
        ActionType::Tailscale(TailscaleAction::SetEnable(false))
    ));
    assert!(matches!(
        &actions[8],
        ActionType::Tailscale(TailscaleAction::SetShields(false))
    ));
    assert!(matches!(
        &actions[9],
        ActionType::Tailscale(TailscaleAction::SetShields(true))
    ));
    assert!(matches!(
        &actions[10],
        ActionType::Tailscale(TailscaleAction::SetExitNode(_))
    ));
    assert!(matches!(&actions[11], ActionType::Bluetooth(_)));
    assert_eq!(actions.len(), 12);
}

#[test]
fn excluded_groups_stay_out_of_the_registry() {
    let actions = get_actions(
        Vec::new(),
        true,
        true,
        true,
        &all_tools(),
        true,
        vec![WifiAction::Network("n".to_string())],
        false,
        false,
        vec!["m".to_string()],
        vec![BluetoothAction::ToggleConnect("b".to_string())],
    );
    assert!(actions.is_empty());
}

#[test]
fn selection_resolves_to_the_action_that_rendered_it() {
    let actions = vec![
        ActionType::Custom(CustomAction { display: "Example".to_string(), cmd: "true".to_string() }),
        ActionType::Wifi(WifiAction::Disconnect),
        ActionType::System(SystemAction::RfkillBlock),
    ];
    let selected = action_display(&actions[1], "wlan0");
    assert_eq!(selected, "wlan0     - \u{274c} Disconnect");
    assert_eq!(find_selected_action(&actions, "wlan0", &selected), Some(1));
    assert_eq!(find_selected_action(&actions, "wlan0", "nothing"), None);
}

#[test]
fn system_actions_run_their_tools() {
    assert_eq!(
        system_action_command(&SystemAction::RfkillBlock),
        vec!["rfkill", "block", "wlan"]
    );
    assert_eq!(
        system_action_command(&SystemAction::RfkillUnblock),
        vec!["rfkill", "unblock", "wlan"]
    );
    assert_eq!(
        system_action_command(&SystemAction::EditConnections),
        vec!["nm-connection-editor"]
    );
}
