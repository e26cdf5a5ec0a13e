//! Core of a network menu launcher: parses the line-oriented output of
//! network command-line tools (NetworkManager, iwd, bluetoothctl, tailscale)
//! into typed, displayable actions, renders each action as a one-line menu
//! entry, and resolves a selected entry back into the action that produced
//! it, recovering the identifying field (SSID, MAC address, exit-node
//! address) needed to re-invoke the right command.

use vstd::prelude::*;

pub mod bluetooth;
pub mod command;
pub mod iwd;
pub mod mullvad;
pub mod networkmanager;
pub mod tailscale;
pub mod text;
pub mod utils;

verus! {

use crate::bluetooth::BluetoothAction;
use crate::tailscale::TailscaleAction;
use crate::text::{
    first_char_from, is_ascii_c, pad_right, pad_right_spec, to_uppercase, trim, trim_spec,
    upper_of,
};
use crate::utils::{convert_network_strength, strength_glyphs, trailing_stars};

/// A user-defined shell action from the configuration: a display label and
/// the command line it runs.
#[derive(Debug, Clone)]
pub struct CustomAction {
    pub display: String,
    pub cmd: String,
}

/// A fixed system toggle offered beside the parsed entries.
#[derive(Debug, Clone)]
pub enum SystemAction {
    EditConnections,
    RfkillBlock,
    RfkillUnblock,
}

/// A Wi-Fi entry: a parsed network line, or the interface-level toggles.
#[derive(Debug, Clone)]
pub enum WifiAction {
    Connect,
    Disconnect,
    Network(String),
}

/// Any entry of the menu.
#[derive(Debug, Clone)]
pub enum ActionType {
    Bluetooth(BluetoothAction),
    Custom(CustomAction),
    System(SystemAction),
    Tailscale(TailscaleAction),
    Wifi(WifiAction),
}

/// A menu entry: the category padded to a ten-character column, a dash, and
/// the icon (when there is one) before the text.
pub open spec fn format_entry_spec(action: Seq<char>, icon: Seq<char>, text: Seq<char>) -> Seq<
    char,
> {
    if icon.len() == 0 {
        pad_right_spec(action, 10) + seq!['-', ' '] + text
    } else {
        pad_right_spec(action, 10) + seq!['-', ' '] + icon + seq![' '] + text
    }
}

/// Renders one menu entry from its category, icon and text.
pub fn format_entry(action: &str, icon: &str, text: &str) -> (r: String)
    ensures
        r@ == format_entry_spec(action@, icon@, text@),
{
    proof {
        reveal_strlit("- ");
        reveal_strlit(" ");
    }
    let mut r = pad_right(action, 10);
    r.append("- ");
    if icon.unicode_len() == 0 {
        r.append(text);
        proof {
            assert(r@ =~= format_entry_spec(action@, icon@, text@));
        }
        r
    } else {
        r.append(icon);
        r.append(" ");
        r.append(text);
        proof {
            assert(r@ =~= format_entry_spec(action@, icon@, text@));
        }
        r
    }
}

/// The default configuration written on first use.
pub fn get_default_config() -> (r: &'static str)
    ensures
        r@ == "\ndmenu_cmd = \"dmenu\"\ndmenu_args = \"--no-multi\"\n\n[[actions]]\ndisplay = \"\u{1f6e1}\u{fe0f} Example\"\ncmd = \"notify-send 'hello' 'world'\"\n"@,
{
    "\ndmenu_cmd = \"dmenu\"\ndmenu_args = \"--no-multi\"\n\n[[actions]]\ndisplay = \"\u{1f6e1}\u{fe0f} Example\"\ncmd = \"notify-send 'hello' 'world'\"\n"
}

/// Which external tools are installed, checked once and passed in rather
/// than queried from inside the registry builder.
#[derive(Debug, Clone)]
pub struct ToolAvailability {
    pub tailscale: bool,
    pub nmcli: bool,
    pub iwctl: bool,
    pub rfkill: bool,
    pub nm_connection_editor: bool,
    pub bluetoothctl: bool,
}

/// The one-line menu entry an action renders to; the Wi-Fi toggles carry
/// the interface as their category.
pub open spec fn action_display_spec(a: ActionType, interface: Seq<char>) -> Seq<char> {
    match a {
        ActionType::Custom(c) => format_entry_spec("action"@, ""@, c.display@),
        ActionType::System(s) => match s {
            SystemAction::RfkillBlock => format_entry_spec(
                "system"@,
                "\u{274c}"@,
                "Radio wifi rfkill block"@,
            ),
            SystemAction::RfkillUnblock => format_entry_spec(
                "system"@,
                "\u{1f4f6}"@,
                "Radio wifi rfkill unblock"@,
            ),
            SystemAction::EditConnections => format_entry_spec(
                "system"@,
                "\u{1f4f6}"@,
                "Edit connections"@,
            ),
        },
        ActionType::Tailscale(t) => match t {
            TailscaleAction::SetExitNode(node) => node@,
            TailscaleAction::DisableExitNode => format_entry_spec(
                "tailscale"@,
                "\u{274c}"@,
                "Disable exit-node"@,
            ),
            TailscaleAction::SetEnable(enable) => if enable {
                format_entry_spec("tailscale"@, "\u{2705}"@, "Enable tailscale"@)
            } else {
                format_entry_spec("tailscale"@, "\u{274c}"@, "Disable tailscale"@)
            },
            TailscaleAction::SetShields(enable) => if enable {
                format_entry_spec("tailscale"@, "\u{1f6e1}\u{fe0f}"@, "Shields up"@)
            } else {
                format_entry_spec("tailscale"@, "\u{1f6e1}\u{fe0f}"@, "Shields down"@)
            },
        },
        ActionType::Wifi(w) => match w {
            WifiAction::Network(network) => format_entry_spec(interface, ""@, network@),
            WifiAction::Disconnect => format_entry_spec(interface, "\u{274c}"@, "Disconnect"@),
            WifiAction::Connect => format_entry_spec(interface, "\u{1f4f6}"@, "Connect"@),
        },
        ActionType::Bluetooth(b) => match b {
            BluetoothAction::ToggleConnect(device) => device@,
        },
    }
}

/// Renders one action as its menu entry.
pub fn action_display(a: &ActionType, wifi_interface: &str) -> (r: String)
    ensures
        r@ == action_display_spec(*a, wifi_interface@),
{
    match a {
        ActionType::Custom(c) => format_entry("action", "", c.display.as_str()),
        ActionType::System(s) => match s {
            SystemAction::RfkillBlock => format_entry(
                "system",
                "\u{274c}",
                "Radio wifi rfkill block",
            ),
            SystemAction::RfkillUnblock => format_entry(
                "system",
                "\u{1f4f6}",
                "Radio wifi rfkill unblock",
            ),
            SystemAction::EditConnections => format_entry(
                "system",
                "\u{1f4f6}",
                "Edit connections",
            ),
        },
        ActionType::Tailscale(t) => match t {
            TailscaleAction::SetExitNode(node) => node.clone(),
            TailscaleAction::DisableExitNode => format_entry(
                "tailscale",
                "\u{274c}",
                "Disable exit-node",
            ),
            TailscaleAction::SetEnable(enable) => if *enable {
                format_entry("tailscale", "\u{2705}", "Enable tailscale")
            } else {
                format_entry("tailscale", "\u{274c}", "Disable tailscale")
            },
            TailscaleAction::SetShields(enable) => if *enable {
                format_entry("tailscale", "\u{1f6e1}\u{fe0f}", "Shields up")
            } else {
                format_entry("tailscale", "\u{1f6e1}\u{fe0f}", "Shields down")
            },
        },
        ActionType::Wifi(w) => match w {
            WifiAction::Network(network) => format_entry(wifi_interface, "", network.as_str()),
            WifiAction::Disconnect => format_entry(wifi_interface, "\u{274c}", "Disconnect"),
            WifiAction::Connect => format_entry(wifi_interface, "\u{1f4f6}", "Connect"),
        },
        ActionType::Bluetooth(b) => match b {
            BluetoothAction::ToggleConnect(device) => device.clone(),
        },
    }
}

/// The position of the selected entry among the actions: the first action
/// whose rendered entry is the selected text, if any renders to it.
pub fn find_selected_action(actions: &Vec<ActionType>, wifi_interface: &str, selected: &str) -> (r:
    Option<usize>)
    ensures
        match r {
            Some(i) => i < actions@.len() && action_display_spec(actions@[i as int], wifi_interface@)
                == selected@ && (forall|k: int|
                0 <= k < i ==> action_display_spec(#[trigger] actions@[k], wifi_interface@)
                    != selected@),
            None => forall|k: int|
                0 <= k < actions@.len() ==> action_display_spec(
                    #[trigger] actions@[k],
                    wifi_interface@,
                ) != selected@,
        },
{
    let n = actions.len();
    for i in 0..n
        invariant
            n == actions@.len(),
            forall|k: int|
                0 <= k < i ==> action_display_spec(#[trigger] actions@[k], wifi_interface@)
                    != selected@,
    {
        let d = action_display(&actions[i], wifi_interface);
        if crate::text::str_eq(d.as_str(), selected) {
            return Some(i);
        }
    }
    None
}

/// The program and arguments a system action runs.
pub fn system_action_command(action: &SystemAction) -> (r: Vec<String>)
    ensures
        crate::text::seq_views(r@) == match action {
            SystemAction::RfkillBlock => seq!["rfkill"@, "block"@, "wlan"@],
            SystemAction::RfkillUnblock => seq!["rfkill"@, "unblock"@, "wlan"@],
            SystemAction::EditConnections => seq!["nm-connection-editor"@],
        },
{
    let mut r: Vec<String> = Vec::new();
    match action {
        SystemAction::RfkillBlock => {
            r.push(String::from_str("rfkill"));
            r.push(String::from_str("block"));
            r.push(String::from_str("wlan"));
            proof {
                assert(crate::text::seq_views(r@) =~= seq!["rfkill"@, "block"@, "wlan"@]);
            }
        },
        SystemAction::RfkillUnblock => {
            r.push(String::from_str("rfkill"));
            r.push(String::from_str("unblock"));
            r.push(String::from_str("wlan"));
            proof {
                assert(crate::text::seq_views(r@) =~= seq!["rfkill"@, "unblock"@, "wlan"@]);
            }
        },
        SystemAction::EditConnections => {
            r.push(String::from_str("nm-connection-editor"));
            proof {
                assert(crate::text::seq_views(r@) =~= seq!["nm-connection-editor"@]);
            }
        },
    }
    r
}

/// Wrapping a custom action as a menu action, as a function value.
pub open spec fn as_custom_fn() -> spec_fn(CustomAction) -> ActionType {
    |c: CustomAction| ActionType::Custom(c)
}

/// Wrapping a Wi-Fi action as a menu action, as a function value.
pub open spec fn as_wifi_fn() -> spec_fn(WifiAction) -> ActionType {
    |w: WifiAction| ActionType::Wifi(w)
}

/// Wrapping an exit-node entry as a menu action, as a function value.
pub open spec fn as_exit_node_fn() -> spec_fn(String) -> ActionType {
    |m: String| ActionType::Tailscale(TailscaleAction::SetExitNode(m))
}

/// Wrapping a Bluetooth action as a menu action, as a function value.
pub open spec fn as_bluetooth_fn() -> spec_fn(BluetoothAction) -> ActionType {
    |b: BluetoothAction| ActionType::Bluetooth(b)
}

/// The registry an invocation offers: the configured custom actions, then
/// the exit-node disable toggle when one is active, the parsed Wi-Fi
/// entries and the interface toggle, the rfkill and connection-editor
/// entries, the Tailscale toggles and exit-node entries, and the Bluetooth
/// devices, each group only when its tool is installed and not excluded.
pub open spec fn actions_spec(
    custom: Seq<CustomAction>,
    no_wifi: bool,
    no_bluetooth: bool,
    no_tailscale: bool,
    tools: ToolAvailability,
    exit_node_active: bool,
    wifi_networks: Seq<WifiAction>,
    wifi_connected: bool,
    tailscale_enabled: bool,
    mullvad_actions: Seq<String>,
    bluetooth_actions: Seq<BluetoothAction>,
) -> Seq<ActionType> {
    custom.map_values(as_custom_fn()) + (
    if !no_tailscale && tools.tailscale && exit_node_active {
        seq![ActionType::Tailscale(TailscaleAction::DisableExitNode)]
    } else {
        Seq::<ActionType>::empty()
    }) + (
    if !no_wifi && (tools.nmcli || tools.iwctl) {
        wifi_networks.map_values(as_wifi_fn()) + seq![
            ActionType::Wifi(
                if wifi_connected {
                    WifiAction::Disconnect
                } else {
                    WifiAction::Connect
                },
            ),
        ]
    } else {
        Seq::<ActionType>::empty()
    }) + (
    if !no_wifi && tools.rfkill {
        seq![
            ActionType::System(SystemAction::RfkillBlock),
            ActionType::System(SystemAction::RfkillUnblock),
        ]
    } else {
        Seq::<ActionType>::empty()
    }) + (
    if !no_wifi && tools.nm_connection_editor {
        seq![ActionType::System(SystemAction::EditConnections)]
    } else {
        Seq::<ActionType>::empty()
    }) + (
    if !no_tailscale && tools.tailscale {
        seq![
            ActionType::Tailscale(TailscaleAction::SetEnable(!tailscale_enabled)),
            ActionType::Tailscale(TailscaleAction::SetShields(false)),
            ActionType::Tailscale(TailscaleAction::SetShields(true)),
        ] + mullvad_actions.map_values(as_exit_node_fn())
    } else {
        Seq::<ActionType>::empty()
    }) + (
    if !no_bluetooth && tools.bluetoothctl {
        bluetooth_actions.map_values(as_bluetooth_fn())
    } else {
        Seq::<ActionType>::empty()
    })
}

/// Appends each custom action to the registry.
fn push_custom_actions(r: &mut Vec<ActionType>, custom: Vec<CustomAction>)
    ensures
        final(r)@ == old(r)@ + custom@.map_values(as_custom_fn()),
{
    let ghost base = r@;
    let ghost custom0 = custom@;
    let mut rest = custom;
    let cn = rest.len();
    let mut idx: usize = 0;
    proof {
        assert(custom0.skip(0) =~= custom0);
        assert(r@ =~= base + custom0.take(0).map_values(as_custom_fn()));
    }
    while idx < cn
        invariant
            idx <= cn,
            cn == custom0.len(),
            idx + rest@.len() == cn,
            rest@ == custom0.skip(idx as int),
            r@ =~= base + custom0.take(idx as int).map_values(as_custom_fn()),
        decreases cn - idx,
    {
        let c = rest.remove(0);
        proof {
            assert(c == custom0[idx as int]);
            assert(custom0.skip(idx as int).remove(0) =~= custom0.skip(idx + 1));
        }
        r.push(ActionType::Custom(c));
        idx = idx + 1;
        proof {
            assert(as_custom_fn()(custom0[idx - 1]) == ActionType::Custom(custom0[idx - 1]));
            assert(r@ =~= base + custom0.take(idx as int).map_values(as_custom_fn()));
        }
    }
    proof {
        assert(custom0.take(cn as int) =~= custom0);
    }
}

/// Appends each Wi-Fi network entry to the registry.
fn push_wifi_actions(r: &mut Vec<ActionType>, networks: Vec<WifiAction>)
    ensures
        final(r)@ == old(r)@ + networks@.map_values(as_wifi_fn()),
{
    let ghost base = r@;
    let ghost wifi0 = networks@;
    let mut rest = networks;
    let wn = rest.len();
    let mut idx: usize = 0;
    proof {
        assert(wifi0.skip(0) =~= wifi0);
        assert(r@ =~= base + wifi0.take(0).map_values(as_wifi_fn()));
    }
    while idx < wn
        invariant
            idx <= wn,
            wn == wifi0.len(),
            idx + rest@.len() == wn,
            rest@ == wifi0.skip(idx as int),
            r@ =~= base + wifi0.take(idx as int).map_values(as_wifi_fn()),
        decreases wn - idx,
    {
        let w = rest.remove(0);
        proof {
            assert(w == wifi0[idx as int]);
            assert(wifi0.skip(idx as int).remove(0) =~= wifi0.skip(idx + 1));
        }
        r.push(ActionType::Wifi(w));
        idx = idx + 1;
        proof {
            assert(as_wifi_fn()(wifi0[idx - 1]) == ActionType::Wifi(wifi0[idx - 1]));
            assert(r@ =~= base + wifi0.take(idx as int).map_values(as_wifi_fn()));
        }
    }
    proof {
        assert(wifi0.take(wn as int) =~= wifi0);
    }
}

/// Appends each exit-node entry to the registry.
fn push_exit_node_actions(r: &mut Vec<ActionType>, mullvad_actions: Vec<String>)
    ensures
        final(r)@ == old(r)@ + mullvad_actions@.map_values(as_exit_node_fn()),
{
    let ghost base = r@;
    let ghost mull0 = mullvad_actions@;
    let mut rest = mullvad_actions;
    let mn = rest.len();
    let mut idx: usize = 0;
    proof {
        assert(mull0.skip(0) =~= mull0);
        assert(r@ =~= base + mull0.take(0).map_values(as_exit_node_fn()));
    }
    while idx < mn
        invariant
            idx <= mn,
            mn == mull0.len(),
            idx + rest@.len() == mn,
            rest@ == mull0.skip(idx as int),
            r@ =~= base + mull0.take(idx as int).map_values(as_exit_node_fn()),
        decreases mn - idx,
    {
        let m = rest.remove(0);
        proof {
            assert(m == mull0[idx as int]);
            assert(mull0.skip(idx as int).remove(0) =~= mull0.skip(idx + 1));
        }
        r.push(ActionType::Tailscale(TailscaleAction::SetExitNode(m)));
        idx = idx + 1;
        proof {
            assert(as_exit_node_fn()(mull0[idx - 1]) == ActionType::Tailscale(
                TailscaleAction::SetExitNode(mull0[idx - 1]),
            ));
            assert(r@ =~= base + mull0.take(idx as int).map_values(as_exit_node_fn()));
        }
    }
    proof {
        assert(mull0.take(mn as int) =~= mull0);
    }
}

/// Appends each Bluetooth device entry to the registry.
fn push_bluetooth_actions(r: &mut Vec<ActionType>, bluetooth_actions: Vec<BluetoothAction>)
    ensures
        final(r)@ == old(r)@ + bluetooth_actions@.map_values(as_bluetooth_fn()),
{
    let ghost base = r@;
    let ghost bt0 = bluetooth_actions@;
    let mut rest = bluetooth_actions;
    let bn = rest.len();
    let mut idx: usize = 0;
    proof {
        assert(bt0.skip(0) =~= bt0);
        assert(r@ =~= base + bt0.take(0).map_values(as_bluetooth_fn()));
    }
    while idx < bn
        invariant
            idx <= bn,
            bn == bt0.len(),
            idx + rest@.len() == bn,
            rest@ == bt0.skip(idx as int),
            r@ =~= base + bt0.take(idx as int).map_values(as_bluetooth_fn()),
        decreases bn - idx,
    {
        let b = rest.remove(0);
        proof {
            assert(b == bt0[idx as int]);
            assert(bt0.skip(idx as int).remove(0) =~= bt0.skip(idx + 1));
        }
        r.push(ActionType::Bluetooth(b));
        idx = idx + 1;
        proof {
            assert(as_bluetooth_fn()(bt0[idx - 1]) == ActionType::Bluetooth(bt0[idx - 1]));
            assert(r@ =~= base + bt0.take(idx as int).map_values(as_bluetooth_fn()));
        }
    }
    proof {
        assert(bt0.take(bn as int) =~= bt0);
    }
}

/// Assembles the menu's action registry in its presentation order.
#[verifier::rlimit(100)]
pub fn get_actions(
    custom: Vec<CustomAction>,
    no_wifi: bool,
    no_bluetooth: bool,
    no_tailscale: bool,
    tools: &ToolAvailability,
    exit_node_active: bool,
    wifi_networks: Vec<WifiAction>,
    wifi_connected: bool,
    tailscale_enabled: bool,
    mullvad_actions: Vec<String>,
    bluetooth_actions: Vec<BluetoothAction>,
) -> (r: Vec<ActionType>)
    ensures
        r@ == actions_spec(
            custom@,
            no_wifi,
            no_bluetooth,
            no_tailscale,
            *tools,
            exit_node_active,
            wifi_networks@,
            wifi_connected,
            tailscale_enabled,
            mullvad_actions@,
            bluetooth_actions@,
        ),
{
    let ghost custom0 = custom@;
    let ghost wifi0 = wifi_networks@;
    let ghost mull0 = mullvad_actions@;
    let ghost bt0 = bluetooth_actions@;
    let mut r: Vec<ActionType> = Vec::new();
    push_custom_actions(&mut r, custom);
    let ghost seg1 = custom0.map_values(as_custom_fn());
    proof {
        assert(r@ =~= seg1);
    }
    let ghost e2 = if !no_tailscale && tools.tailscale && exit_node_active {
        seq![ActionType::Tailscale(TailscaleAction::DisableExitNode)]
    } else {
        Seq::<ActionType>::empty()
    };
    if !no_tailscale && tools.tailscale && exit_node_active {
        r.push(ActionType::Tailscale(TailscaleAction::DisableExitNode));
    }
    proof {
        assert(r@ =~= seg1 + e2);
    }
    let ghost e3 = if !no_wifi && (tools.nmcli || tools.iwctl) {
        wifi0.map_values(as_wifi_fn()) + seq![
            ActionType::Wifi(
                if wifi_connected {
                    WifiAction::Disconnect
                } else {
                    WifiAction::Connect
                },
            ),
        ]
    } else {
        Seq::<ActionType>::empty()
    };
    if !no_wifi && (tools.nmcli || tools.iwctl) {
        push_wifi_actions(&mut r, wifi_networks);
        if wifi_connected {
            r.push(ActionType::Wifi(WifiAction::Disconnect));
        } else {
            r.push(ActionType::Wifi(WifiAction::Connect));
        }
    }
    proof {
        assert(r@ =~= (seg1 + e2) + e3);
    }
    let ghost e4 = if !no_wifi && tools.rfkill {
        seq![
            ActionType::System(SystemAction::RfkillBlock),
            ActionType::System(SystemAction::RfkillUnblock),
        ]
    } else {
        Seq::<ActionType>::empty()
    };
    if !no_wifi && tools.rfkill {
        r.push(ActionType::System(SystemAction::RfkillBlock));
        r.push(ActionType::System(SystemAction::RfkillUnblock));
    }
    let ghost e5 = if !no_wifi && tools.nm_connection_editor {
        seq![ActionType::System(SystemAction::EditConnections)]
    } else {
        Seq::<ActionType>::empty()
    };
    if !no_wifi && tools.nm_connection_editor {
        r.push(ActionType::System(SystemAction::EditConnections));
    }
    proof {
        assert(r@ =~= (((seg1 + e2) + e3) + e4) + e5);
    }
    let ghost e6 = if !no_tailscale && tools.tailscale {
        seq![
            ActionType::Tailscale(TailscaleAction::SetEnable(!tailscale_enabled)),
            ActionType::Tailscale(TailscaleAction::SetShields(false)),
            ActionType::Tailscale(TailscaleAction::SetShields(true)),
        ] + mull0.map_values(as_exit_node_fn())
    } else {
        Seq::<ActionType>::empty()
    };
    if !no_tailscale && tools.tailscale {
        r.push(ActionType::Tailscale(TailscaleAction::SetEnable(!tailscale_enabled)));
        r.push(ActionType::Tailscale(TailscaleAction::SetShields(false)));
        r.push(ActionType::Tailscale(TailscaleAction::SetShields(true)));
        push_exit_node_actions(&mut r, mullvad_actions);
    }
    proof {
        assert(r@ =~= ((((seg1 + e2) + e3) + e4) + e5) + e6);
    }
    let ghost e7 = if !no_bluetooth && tools.bluetoothctl {
        bt0.map_values(as_bluetooth_fn())
    } else {
        Seq::<ActionType>::empty()
    };
    if !no_bluetooth && tools.bluetoothctl {
        push_bluetooth_actions(&mut r, bluetooth_actions);
    }
    proof {
        assert(r@ =~= (((((seg1 + e2) + e3) + e4) + e5) + e6) + e7);
        assert(r@ =~= actions_spec(
            custom0,
            no_wifi,
            no_bluetooth,
            no_tailscale,
            *tools,
            exit_node_active,
            wifi0,
            wifi_connected,
            tailscale_enabled,
            mull0,
            bt0,
        ));
    }
    r
}

/// The connected marker of a Wi-Fi entry.
pub open spec fn is_wifi_marker(c: char) -> bool {
    c == '\u{2705}' || c == '\u{1f4f6}'
}

/// A rendered Wi-Fi network entry: the connected or available marker, the
/// SSID padded to a 25-character column, the uppercased security type padded
/// to an 11-character column, and the signal glyph ladder, the columns
/// tab-separated so the selection can be split back apart.
pub open spec fn wifi_entry_spec(
    in_use: bool,
    ssid: Seq<char>,
    security: Seq<char>,
    signal: Seq<char>,
) -> Seq<char> {
    seq![if in_use { '\u{2705}' } else { '\u{1f4f6}' }, ' '] + pad_right_spec(ssid, 25)
        + seq!['\t'] + pad_right_spec(upper_of(security), 11) + seq!['\t'] + strength_glyphs(
        trailing_stars(signal),
    )
}

/// Renders one Wi-Fi network entry.
pub fn wifi_entry(in_use: bool, ssid: &str, security: &str, signal: &str) -> (r: String)
    ensures
        r@ == wifi_entry_spec(in_use, ssid@, security@, signal@),
{
    proof {
        reveal_strlit("\u{2705} ");
        reveal_strlit("\u{1f4f6} ");
        reveal_strlit("\t");
    }
    let mut r = String::from_str(
        if in_use {
            "\u{2705} "
        } else {
            "\u{1f4f6} "
        },
    );
    r.append(pad_right(ssid, 25).as_str());
    r.append("\t");
    r.append(pad_right(to_uppercase(security).as_str(), 11).as_str());
    r.append("\t");
    r.append(convert_network_strength(signal).as_str());
    proof {
        assert(r@ =~= wifi_entry_spec(in_use, ssid@, security@, signal@));
    }
    r
}

/// The first marker character of `s` at or after `from`, or `s.len()` when
/// there is none.
pub open spec fn first_marker_from(s: Seq<char>, from: int) -> int
    decreases s.len() - from,
{
    if from < 0 || from >= s.len() {
        s.len() as int
    } else if is_wifi_marker(s[from]) {
        from
    } else {
        first_marker_from(s, from + 1)
    }
}

/// Why a selected Wi-Fi entry could not be read back.
#[derive(Debug, Clone, PartialEq, Eq, Structural)]
pub enum WifiActionError {
    /// No connected or available marker occurs in the entry.
    MarkerNotFound,
    /// No tab separator follows the marker.
    TabNotFound,
    /// No second tab-separated column follows the SSID column.
    BadFormat,
}

/// Where the SSID column of a Wi-Fi entry begins: the connected marker is
/// followed by one single-byte character that the original byte offset
/// skips, the available marker by none.
pub open spec fn wifi_ssid_start(s: Seq<char>, p: int) -> int {
    if s[p] == '\u{2705}' {
        p + 2
    } else {
        p + 1
    }
}

/// The inputs on which reading back a Wi-Fi entry is defined: after a
/// connected marker, the skipped character must be a single-byte one that
/// stands before the first tab.
pub open spec fn wifi_action_readable(s: Seq<char>) -> bool {
    let p = first_marker_from(s, 0);
    let t = first_char_from(s, '\t', p);
    p < s.len() && s[p] == '\u{2705}' && t < s.len() ==> p + 1 < t && is_ascii_c(s[p + 1])
}

/// What reading back a Wi-Fi entry yields: the trimmed SSID column between
/// the marker and the first tab, and the trimmed column between the first
/// and second tabs.
pub open spec fn parse_wifi_action_spec(s: Seq<char>) -> Result<(Seq<char>, Seq<char>), WifiActionError> {
    let p = first_marker_from(s, 0);
    let t = first_char_from(s, '\t', p);
    if p == s.len() {
        Result::Err(WifiActionError::MarkerNotFound)
    } else if t == s.len() {
        Result::Err(WifiActionError::TabNotFound)
    } else {
        let t2 = first_char_from(s, '\t', t + 1);
        if t2 == s.len() {
            Result::Err(WifiActionError::BadFormat)
        } else {
            Result::Ok(
                (trim_spec(s.subrange(wifi_ssid_start(s, p), t)), trim_spec(s.subrange(t + 1, t2))),
            )
        }
    }
}

/// Round trip of a Wi-Fi entry: reading a rendered entry back recovers
/// exactly the SSID it was rendered from, for every SSID a parser can
/// produce — non-empty, trimmed, and free of tabs.
pub proof fn lemma_wifi_entry_round_trip(
    in_use: bool,
    ssid: Seq<char>,
    security: Seq<char>,
    signal: Seq<char>,
)
    requires
        ssid.len() > 0,
        !crate::text::is_ws(ssid[0]),
        !crate::text::is_ws(ssid[ssid.len() - 1]),
        forall|i: int| 0 <= i < ssid.len() ==> ssid[i] != '\t',
    ensures
        wifi_action_readable(wifi_entry_spec(in_use, ssid, security, signal)),
        parse_wifi_action_spec(wifi_entry_spec(in_use, ssid, security, signal)) matches
            Result::Ok(p) && p.0 == ssid,
{
    let d = wifi_entry_spec(in_use, ssid, security, signal);
    let marker = if in_use { '\u{2705}' } else { '\u{1f4f6}' };
    let pad = pad_right_spec(ssid, 25);
    let padlen = pad.len() as int;
    let upad = pad_right_spec(upper_of(security), 11);
    assert(d[0] == marker);
    assert(first_marker_from(d, 0) == 0);
    // the first tab stands right after the padded SSID column
    assert(d[2 + padlen] == '\t');
    assert forall|k: int| 0 <= k < 2 + padlen implies d[k] != '\t' by {
        if k == 1 {
            assert(d[1] == ' ');
        } else if k >= 2 {
            assert(d[k] == pad[k - 2]);
            if k - 2 < ssid.len() {
                assert(pad[k - 2] == ssid[k - 2]);
            } else {
                assert(pad[k - 2] == ' ');
            }
        }
    }
    crate::text::lemma_first_char_from_is(d, '\t', 0, 2 + padlen);
    let t = first_char_from(d, '\t', 0);
    // a second tab exists, before the signal glyphs
    assert(d[2 + padlen + 1 + upad.len()] == '\t');
    crate::text::lemma_first_char_from_found(d, '\t', t + 1, 2 + padlen + 1 + upad.len() as int);
    // the skipped character after the connected marker is the plain space
    assert(d[1] == ' ');
    assert(is_ascii_c(' '));
    // the SSID column trims back to the SSID itself
    let start = wifi_ssid_start(d, 0);
    let col = d.subrange(start, t);
    if in_use {
        assert(col =~= pad);
    } else {
        assert(col =~= seq![' '] + pad);
    }
    assert(trim_spec(col) == ssid) by {
        if in_use {
            assert(col[0] == ssid[0]);
            assert(crate::text::trim_front(col) == col);
        } else {
            crate::text::lemma_trim_front_skip(col, 1);
            assert(col.skip(1) =~= pad);
            assert(pad[0] == ssid[0]);
            assert(crate::text::trim_front(pad) == pad);
            assert(crate::text::trim_front(col) == pad);
        }
        assert forall|k: int| ssid.len() <= k < pad.len() implies crate::text::is_ws(pad[k]) by {
            assert(pad[k] == ' ');
        }
        crate::text::lemma_trim_back_take(pad, ssid.len() as int);
        assert(pad.take(ssid.len() as int) =~= ssid);
        assert(ssid.last() == ssid[ssid.len() - 1]);
        assert(crate::text::trim_back(ssid) == ssid);
    }
}

/// Reads a selected Wi-Fi entry back into its SSID and security columns.
pub fn parse_wifi_action<'a>(action: &'a str) -> (r: Result<(&'a str, &'a str), WifiActionError>)
    requires
        wifi_action_readable(action@),
    ensures
        match r {
            Result::Ok((ssid, security)) => parse_wifi_action_spec(action@) == Result::<
                (Seq<char>, Seq<char>),
                WifiActionError,
            >::Ok((ssid@, security@)),
            Result::Err(e) => parse_wifi_action_spec(action@) == Result::<
                (Seq<char>, Seq<char>),
                WifiActionError,
            >::Err(e),
        },
{
    let n = action.unicode_len();
    let mut p: usize = 0;
    while p < n && !(action.get_char(p) == '\u{2705}' || action.get_char(p) == '\u{1f4f6}')
        invariant
            p <= n,
            n == action@.len(),
            first_marker_from(action@, 0) == first_marker_from(action@, p as int),
        decreases n - p,
    {
        p = p + 1;
    }
    if p == n {
        return Result::Err(WifiActionError::MarkerNotFound);
    }
    let mut t: usize = p;
    while t < n && action.get_char(t) != '\t'
        invariant
            p <= t <= n,
            n == action@.len(),
            first_char_from(action@, '\t', p as int) == first_char_from(action@, '\t', t as int),
        decreases n - t,
    {
        t = t + 1;
    }
    if t == n {
        return Result::Err(WifiActionError::TabNotFound);
    }
    let mut t2: usize = t + 1;
    while t2 < n && action.get_char(t2) != '\t'
        invariant
            t < t2 <= n,
            n == action@.len(),
            first_char_from(action@, '\t', t + 1) == first_char_from(action@, '\t', t2 as int),
        decreases n - t2,
    {
        t2 = t2 + 1;
    }
    if t2 == n {
        return Result::Err(WifiActionError::BadFormat);
    }
    let start = if action.get_char(p) == '\u{2705}' {
        p + 2
    } else {
        p + 1
    };
    let ssid = trim(action.substring_char(start, t));
    let security = trim(action.substring_char(t + 1, t2));
    Result::Ok((ssid, security))
}

} // verus!
