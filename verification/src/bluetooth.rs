//! Bluetooth backend: parses `bluetoothctl devices` lines into toggle
//! actions carrying each device's MAC address, reads the connected set from
//! `bluetoothctl info` output, and reads the MAC address back out of a
//! selected entry to build the connect or disconnect invocation.

use vstd::prelude::*;

verus! {

use crate::format_entry;
use crate::format_entry_spec;
use crate::text::{
    first_char_from, has_sub_at, is_ws, is_ws_char, pad_right, pad_right_spec, seq_views,
    starts_with_str, substring, tokens, vec_contains_str, ws_run_end, ws_tokens,
};

/// An action on a paired Bluetooth device, carrying its rendered entry.
#[derive(Debug, Clone)]
pub enum BluetoothAction {
    ToggleConnect(String),
}

/// A hexadecimal digit.
pub open spec fn is_hex(c: char) -> bool {
    ('0' <= c && c <= '9') || ('a' <= c && c <= 'f') || ('A' <= c && c <= 'F')
}

/// A MAC address stands at index `i` of `s`: six colon-separated pairs of
/// hexadecimal digits, seventeen characters in all.
pub open spec fn mac_at(s: Seq<char>, i: int) -> bool {
    &&& 0 <= i
    &&& i + 17 <= s.len()
    &&& is_hex(s[i]) && is_hex(s[i + 1]) && s[i + 2] == ':'
    &&& is_hex(s[i + 3]) && is_hex(s[i + 4]) && s[i + 5] == ':'
    &&& is_hex(s[i + 6]) && is_hex(s[i + 7]) && s[i + 8] == ':'
    &&& is_hex(s[i + 9]) && is_hex(s[i + 10]) && s[i + 11] == ':'
    &&& is_hex(s[i + 12]) && is_hex(s[i + 13]) && s[i + 14] == ':'
    &&& is_hex(s[i + 15]) && is_hex(s[i + 16])
}

/// Is the character at index `k` a hexadecimal digit?
fn hex_at(s: &str, k: usize) -> (r: bool)
    requires
        k < s@.len(),
    ensures
        r == is_hex(s@[k as int]),
{
    let c = s.get_char(k);
    ('0' <= c && c <= '9') || ('a' <= c && c <= 'f') || ('A' <= c && c <= 'F')
}

/// Does a MAC address stand at index `i` of `s`?
fn mac_match_at(s: &str, i: usize) -> (r: bool)
    ensures
        r == mac_at(s@, i as int),
{
    let n = s.unicode_len();
    if i > n || n - i < 17 {
        return false;
    }
    hex_at(s, i) && hex_at(s, i + 1) && s.get_char(i + 2) == ':' && hex_at(s, i + 3) && hex_at(
        s,
        i + 4,
    ) && s.get_char(i + 5) == ':' && hex_at(s, i + 6) && hex_at(s, i + 7) && s.get_char(i + 8)
        == ':' && hex_at(s, i + 9) && hex_at(s, i + 10) && s.get_char(i + 11) == ':' && hex_at(
        s,
        i + 12,
    ) && hex_at(s, i + 13) && s.get_char(i + 14) == ':' && hex_at(s, i + 15) && hex_at(s, i + 16)
}

/// A device line match at index `a`: a MAC address followed by at least one
/// whitespace character.
pub open spec fn bt_ok_at(s: Seq<char>, a: int) -> bool {
    mac_at(s, a) && a + 17 < s.len() && is_ws(s[a + 17])
}

/// The first device-line match at or after `from`, or `s.len()`.
pub open spec fn first_bt_from(s: Seq<char>, from: int) -> int
    decreases s.len() + 1 - from,
{
    if from < 0 || from >= s.len() {
        s.len() as int
    } else if bt_ok_at(s, from) {
        from
    } else {
        first_bt_from(s, from + 1)
    }
}

/// The entry a device line yields: the leftmost MAC address followed by
/// whitespace gives the address, the text after that whitespace run up to
/// the end of the line gives the name, and the entry marks the device
/// active when the connected set holds its address. Lines without such a
/// match yield none.
pub open spec fn parsed_bt_line(line: Seq<char>, connected: Seq<Seq<char>>) -> Option<Seq<char>> {
    let a = first_bt_from(line, 0);
    if a == line.len() {
        Option::None
    } else {
        let addr = line.subrange(a, a + 17);
        let w = ws_run_end(line, a + 17);
        let e = first_char_from(line, '\n', w);
        let name = line.subrange(w, e);
        let active = exists|j: int| 0 <= j < connected.len() && connected[j] == addr;
        Option::Some(
            format_entry_spec(
                "bluetooth"@,
                if active {
                    "\u{2705}"@
                } else {
                    " "@
                },
                pad_right_spec(name, 25) + seq![' ', '-', ' '] + addr,
            ),
        )
    }
}

/// Parses one `bluetoothctl devices` line into its toggle action, if it
/// holds a MAC address and a device name.
pub fn parse_bluetooth_device(line: String, connected_devices: &Vec<String>) -> (r: Option<
    BluetoothAction,
>)
    ensures
        match r {
            Some(act) => (act matches BluetoothAction::ToggleConnect(d) && Option::Some(d@)
                == parsed_bt_line(line@, seq_views(connected_devices@))),
            None => parsed_bt_line(line@, seq_views(connected_devices@)) is None,
        },
{
    let s = line.as_str();
    let n = s.unicode_len();
    let mut a: usize = 0;
    while a < n && !mac_match_at_ws(s, a)
        invariant
            a <= n,
            n == s@.len(),
            first_bt_from(s@, 0) == first_bt_from(s@, a as int),
        decreases n - a,
    {
        a = a + 1;
    }
    if a == n {
        return Option::None;
    }
    let addr = substring(s, a, a + 17);
    let mut w = a + 17;
    while w < n && is_ws_char(s.get_char(w))
        invariant
            a + 17 <= w <= n,
            n == s@.len(),
            ws_run_end(s@, a + 17) == ws_run_end(s@, w as int),
        decreases n - w,
    {
        w = w + 1;
    }
    let mut e = w;
    while e < n && s.get_char(e) != '\n'
        invariant
            w <= e <= n,
            n == s@.len(),
            first_char_from(s@, '\n', w as int) == first_char_from(s@, '\n', e as int),
        decreases n - e,
    {
        e = e + 1;
    }
    let name = substring(s, w, e);
    let active = vec_contains_str(connected_devices, addr.as_str());
    proof {
        assert(seq_views(connected_devices@).len() == connected_devices@.len());
        assert forall|j: int| 0 <= j < connected_devices@.len() implies (seq_views(
            connected_devices@,
        )[j] == connected_devices@[j]@) by {}
        reveal_strlit(" - ");
        assert(" - "@ =~= seq![' ', '-', ' ']);
    }
    let mut text = pad_right(name.as_str(), 25);
    text.append(" - ");
    text.append(addr.as_str());
    let display = format_entry(
        "bluetooth",
        if active {
            "\u{2705}"
        } else {
            " "
        },
        text.as_str(),
    );
    proof {
        let conn = seq_views(connected_devices@);
        let a0 = first_bt_from(line@, 0);
        assert(a0 == a as int);
        let addr0 = line@.subrange(a0, a0 + 17);
        assert(addr@ == addr0);
        let w0 = ws_run_end(line@, a0 + 17);
        assert(w0 == w as int);
        let e0 = first_char_from(line@, '\n', w0);
        assert(e0 == e as int);
        assert(name@ == line@.subrange(w0, e0));
        let active0 = exists|j: int| 0 <= j < conn.len() && conn[j] == addr0;
        assert(active == active0) by {
            if active {
                let j = choose|j: int|
                    0 <= j < connected_devices@.len() && (#[trigger] connected_devices@[j]@)
                        == addr@;
                assert(conn[j] == addr0);
            }
            if active0 {
                let j = choose|j: int| 0 <= j < conn.len() && conn[j] == addr0;
                assert(connected_devices@[j]@ == addr@);
            }
        }
        assert(text@ =~= pad_right_spec(name@, 25) + seq![' ', '-', ' '] + addr@);
        let expected = parsed_bt_line(line@, conn);
        assert(Option::Some(display@) =~~= expected);
    }
    Option::Some(BluetoothAction::ToggleConnect(display))
}

/// Does a MAC address followed by whitespace stand at index `a`?
fn mac_match_at_ws(s: &str, a: usize) -> (r: bool)
    ensures
        r == bt_ok_at(s@, a as int),
{
    let n = s.unicode_len();
    mac_match_at(s, a) && a + 17 < n && is_ws_char(s.get_char(a + 17))
}

/// The entries a sequence of device lines yields, in order.
pub open spec fn parsed_bt_lines(lines: Seq<Seq<char>>, connected: Seq<Seq<char>>) -> Seq<
    Seq<char>,
>
    decreases lines.len(),
{
    if lines.len() == 0 {
        Seq::<Seq<char>>::empty()
    } else {
        let rest = parsed_bt_lines(lines.drop_first(), connected);
        match parsed_bt_line(lines[0], connected) {
            Option::Some(d) => seq![d] + rest,
            Option::None => rest,
        }
    }
}

/// One more line extends the parsed entries by that line's entry, if any.
pub proof fn lemma_parsed_bt_lines_push(lines: Seq<Seq<char>>, connected: Seq<Seq<char>>, x: Seq<char>)
    ensures
        parsed_bt_lines(lines.push(x), connected) == parsed_bt_lines(lines, connected) + (
        match parsed_bt_line(x, connected) {
            Option::Some(d) => seq![d],
            Option::None => Seq::<Seq<char>>::empty(),
        }),
    decreases lines.len(),
{
    reveal_with_fuel(parsed_bt_lines, 3);
    let whole = lines.push(x);
    assert(whole[0] == if lines.len() == 0 { x } else { lines[0] });
    if lines.len() == 0 {
        assert(whole.drop_first() =~= Seq::<Seq<char>>::empty());
        assert(parsed_bt_lines(lines, connected) =~= Seq::<Seq<char>>::empty());
        match parsed_bt_line(x, connected) {
            Option::Some(d) => {
                assert(parsed_bt_lines(whole, connected) =~= parsed_bt_lines(lines, connected)
                    + seq![d]);
            },
            Option::None => {
                assert(parsed_bt_lines(whole, connected) =~= parsed_bt_lines(lines, connected));
            },
        }
    } else {
        lemma_parsed_bt_lines_push(lines.drop_first(), connected, x);
        assert(whole.drop_first() =~= lines.drop_first().push(x));
        match parsed_bt_line(x, connected) {
            Option::Some(d) => {
                assert(parsed_bt_lines(whole, connected) =~= parsed_bt_lines(lines, connected)
                    + seq![d]);
            },
            Option::None => {
                assert(parsed_bt_lines(whole, connected) =~= parsed_bt_lines(lines, connected));
            },
        }
    }
}

/// Parses every device line, in order, dropping lines without a MAC
/// address: one toggle action per well-formed line.
pub fn parse_bluetooth_devices(lines: Vec<String>, connected_devices: &Vec<String>) -> (r: Vec<
    BluetoothAction,
>)
    ensures
        r@.len() == parsed_bt_lines(seq_views(lines@), seq_views(connected_devices@)).len(),
        forall|i: int|
            0 <= i < r@.len() ==> (#[trigger] r@[i] matches BluetoothAction::ToggleConnect(d)
                && d@ == parsed_bt_lines(seq_views(lines@), seq_views(connected_devices@))[i]),
{
    let ghost conn = seq_views(connected_devices@);
    let mut r: Vec<BluetoothAction> = Vec::new();
    let n = lines.len();
    proof {
        assert(seq_views(lines@).take(0) =~= Seq::<Seq<char>>::empty());
    }
    for i in 0..n
        invariant
            n == lines@.len(),
            conn == seq_views(connected_devices@),
            r@.len() == parsed_bt_lines(seq_views(lines@).take(i as int), conn).len(),
            forall|j: int|
                0 <= j < r@.len() ==> (#[trigger] r@[j] matches BluetoothAction::ToggleConnect(d)
                    && d@ == parsed_bt_lines(seq_views(lines@).take(i as int), conn)[j]),
    {
        let line = lines[i].clone();
        let ghost prefix = seq_views(lines@).take(i as int);
        proof {
            lemma_parsed_bt_lines_push(prefix, conn, line@);
            assert(prefix.push(line@) =~= seq_views(lines@).take(i + 1));
        }
        match parse_bluetooth_device(line, connected_devices) {
            Option::Some(act) => {
                r.push(act);
            },
            Option::None => {},
        }
    }
    proof {
        assert(seq_views(lines@).take(n as int) =~= seq_views(lines@));
    }
    r
}

/// The MAC addresses the connected set holds: the second whitespace-
/// delimited token of each line beginning with `Device `.
pub open spec fn connected_macs(lines: Seq<Seq<char>>) -> Seq<Seq<char>>
    decreases lines.len(),
{
    if lines.len() == 0 {
        Seq::<Seq<char>>::empty()
    } else {
        let rest = connected_macs(lines.drop_first());
        if has_sub_at(lines[0], "Device "@, 0) && ws_tokens(lines[0]).len() >= 2 {
            seq![ws_tokens(lines[0])[1]] + rest
        } else {
            rest
        }
    }
}

/// One more line extends the connected set by that line's address, if any.
proof fn lemma_connected_macs_push(lines: Seq<Seq<char>>, x: Seq<char>)
    ensures
        connected_macs(lines.push(x)) == connected_macs(lines) + (if has_sub_at(x, "Device "@, 0)
            && ws_tokens(x).len() >= 2 {
            seq![ws_tokens(x)[1]]
        } else {
            Seq::<Seq<char>>::empty()
        }),
    decreases lines.len(),
{
    reveal_with_fuel(connected_macs, 3);
    let whole = lines.push(x);
    assert(whole[0] == if lines.len() == 0 { x } else { lines[0] });
    if lines.len() == 0 {
        assert(whole.drop_first() =~= Seq::<Seq<char>>::empty());
        assert(connected_macs(lines) =~= Seq::<Seq<char>>::empty());
        if has_sub_at(x, "Device "@, 0) && ws_tokens(x).len() >= 2 {
            assert(connected_macs(whole) =~= connected_macs(lines) + seq![ws_tokens(x)[1]]);
        } else {
            assert(connected_macs(whole) =~= connected_macs(lines));
        }
    } else {
        lemma_connected_macs_push(lines.drop_first(), x);
        assert(whole.drop_first() =~= lines.drop_first().push(x));
        if has_sub_at(x, "Device "@, 0) && ws_tokens(x).len() >= 2 {
            assert(connected_macs(whole) =~= connected_macs(lines) + seq![ws_tokens(x)[1]]);
        } else {
            assert(connected_macs(whole) =~= connected_macs(lines));
        }
    }
}

/// Reads the MAC addresses of the connected devices out of `bluetoothctl
/// info` output.
pub fn get_connected_devices(lines: &Vec<String>) -> (r: Vec<String>)
    ensures
        seq_views(r@) == connected_macs(seq_views(lines@)),
{
    let mut r: Vec<String> = Vec::new();
    let n = lines.len();
    proof {
        assert(seq_views(lines@).take(0) =~= Seq::<Seq<char>>::empty());
    }
    for i in 0..n
        invariant
            n == lines@.len(),
            seq_views(r@) =~= connected_macs(seq_views(lines@).take(i as int)),
    {
        let line = lines[i].as_str();
        let ghost prefix = seq_views(lines@).take(i as int);
        proof {
            lemma_connected_macs_push(prefix, line@);
            assert(prefix.push(line@) =~= seq_views(lines@).take(i + 1));
        }
        if starts_with_str(line, "Device ") {
            let mut toks = tokens(line);
            if toks.len() >= 2 {
                let tok = toks.remove(1);
                proof {
                    assert(seq_views(toks@.insert(1, tok))[1] == tok@);
                }
                r.push(tok);
                proof {
                    assert(seq_views(r@) =~= seq_views(r@.drop_last()) + seq![ws_tokens(line@)[1]]);
                }
            }
        }
    }
    proof {
        assert(seq_views(lines@).take(n as int) =~= seq_views(lines@));
    }
    r
}

/// Reads the trailing MAC address back out of a selected device entry.
pub fn extract_device_address(device: &str) -> (r: Option<String>)
    ensures
        match r {
            Some(addr) => device@.len() >= 17 && mac_at(device@, device@.len() - 17) && addr@
                == device@.subrange(device@.len() - 17, device@.len() as int),
            None => device@.len() < 17 || !mac_at(device@, device@.len() - 17),
        },
{
    let n = device.unicode_len();
    if n >= 17 && mac_match_at(device, n - 17) {
        Option::Some(substring(device, n - 17, n))
    } else {
        Option::None
    }
}

/// Round trip of a device entry: a rendered entry ends with the MAC
/// address it was rendered from, so reading the trailing address back
/// recovers it exactly.
pub proof fn lemma_bt_entry_round_trip(icon: Seq<char>, name: Seq<char>, addr: Seq<char>)
    requires
        addr.len() == 17,
        mac_at(addr, 0),
    ensures
        ({
            let d = format_entry_spec(
                "bluetooth"@,
                icon,
                pad_right_spec(name, 25) + seq![' ', '-', ' '] + addr,
            );
            d.len() >= 17 && mac_at(d, d.len() - 17) && d.subrange(d.len() - 17, d.len() as int)
                == addr
        }),
{
    let d = format_entry_spec(
        "bluetooth"@,
        icon,
        pad_right_spec(name, 25) + seq![' ', '-', ' '] + addr,
    );
    let base = d.len() - 17;
    assert forall|q: int| 0 <= q < 17 implies #[trigger] d[base + q] == addr[q] by {}
    assert(mac_at(d, base));
    assert(d.subrange(base, d.len() as int) =~= addr);
}

/// A line without a MAC address followed by whitespace yields no entry:
/// malformed lines are dropped, never more entries than lines, and a
/// sequence of only malformed lines yields none at all.
pub proof fn lemma_malformed_bt_lines_dropped(lines: Seq<Seq<char>>, connected: Seq<Seq<char>>)
    ensures
        parsed_bt_lines(lines, connected).len() <= lines.len(),
        (forall|i: int|
            0 <= i < lines.len() ==> first_bt_from(#[trigger] lines[i], 0) == lines[i].len())
            ==> parsed_bt_lines(lines, connected).len() == 0,
    decreases lines.len(),
{
    if lines.len() > 0 {
        lemma_malformed_bt_lines_dropped(lines.drop_first(), connected);
        if forall|i: int|
            0 <= i < lines.len() ==> first_bt_from(#[trigger] lines[i], 0) == lines[i].len() {
            assert(first_bt_from(lines[0], 0) == lines[0].len());
            assert forall|i: int|
                0 <= i < lines.drop_first().len() implies first_bt_from(
                #[trigger] lines.drop_first()[i],
                0,
            ) == lines.drop_first()[i].len() by {
                assert(lines.drop_first()[i] == lines[i + 1]);
            }
        }
    }
}

/// The connect or disconnect invocation a selected device entry leads to:
/// disconnect when the connected set holds the entry's trailing MAC
/// address, connect when it does not; no invocation without an address.
pub fn bluetooth_toggle_command(device: &str, connected_devices: &Vec<String>) -> (r: Option<
    Vec<String>,
>)
    ensures
        match r {
            Some(args) => device@.len() >= 17 && mac_at(device@, device@.len() - 17) && ({
                let addr = device@.subrange(device@.len() - 17, device@.len() as int);
                let active = exists|j: int|
                    0 <= j < connected_devices@.len() && (#[trigger] connected_devices@[j]@)
                        == addr;
                seq_views(args@) == seq![if active { "disconnect"@ } else { "connect"@ }, addr]
            }),
            None => device@.len() < 17 || !mac_at(device@, device@.len() - 17),
        },
{
    match extract_device_address(device) {
        Option::Some(addr) => {
            let active = vec_contains_str(connected_devices, addr.as_str());
            let mut args: Vec<String> = Vec::new();
            if active {
                args.push(String::from_str("disconnect"));
            } else {
                args.push(String::from_str("connect"));
            }
            args.push(addr);
            proof {
                let a = device@.subrange(device@.len() - 17, device@.len() as int);
                if active {
                    assert(seq_views(args@) =~= seq!["disconnect"@, a]);
                } else {
                    assert(seq_views(args@) =~= seq!["connect"@, a]);
                }
            }
            Option::Some(args)
        },
        Option::None => Option::None,
    }
}

/// The invocation a selected Bluetooth action leads to.
pub fn handle_bluetooth_action(action: &BluetoothAction, connected_devices: &Vec<String>) -> (r:
    Option<Vec<String>>)
    ensures
        match action {
            BluetoothAction::ToggleConnect(device) => match r {
                Some(args) => device@.len() >= 17 && mac_at(device@, device@.len() - 17) && ({
                    let addr = device@.subrange(device@.len() - 17, device@.len() as int);
                    let active = exists|j: int|
                        0 <= j < connected_devices@.len() && (#[trigger] connected_devices@[j]@)
                            == addr;
                    seq_views(args@) == seq![
                        if active { "disconnect"@ } else { "connect"@ },
                        addr,
                    ]
                }),
                None => device@.len() < 17 || !mac_at(device@, device@.len() - 17),
            },
        },
{
    match action {
        BluetoothAction::ToggleConnect(device) => bluetooth_toggle_command(
            device.as_str(),
            connected_devices,
        ),
    }
}

} // verus!
