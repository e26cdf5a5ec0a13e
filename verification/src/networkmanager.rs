//! NetworkManager backend: parses the colon-delimited lines of
//! `nmcli -t -f IN-USE,SSID,BARS,SECURITY device wifi` into Wi-Fi entries,
//! reads device status lines, matches saved connection profiles, and builds
//! the argument lists of the connect and disconnect invocations.

use vstd::prelude::*;

verus! {

use crate::text::{
    first_is, has_sub_at, is_ws, is_ws_char, match_at, seq_views, split_char, split_sep, str_eq,
    trim, trim_spec,
};
use crate::{wifi_entry, wifi_entry_spec, WifiAction};

/// The entry a colon-delimited network line yields: lines without exactly
/// four fields or with an empty SSID yield none.
pub open spec fn parsed_wifi_line(line: Seq<char>) -> Option<Seq<char>> {
    let parts = split_sep(line, ':');
    if parts.len() == 4 {
        let ssid = trim_spec(parts[1]);
        if ssid.len() > 0 {
            Option::Some(
                wifi_entry_spec(
                    trim_spec(parts[0]) == seq!['*'],
                    ssid,
                    trim_spec(parts[3]),
                    trim_spec(parts[2]),
                ),
            )
        } else {
            Option::None
        }
    } else {
        Option::None
    }
}

/// The entries a sequence of network lines yields, in order, malformed
/// lines dropped.
pub open spec fn parsed_wifi_lines(lines: Seq<Seq<char>>) -> Seq<Seq<char>>
    decreases lines.len(),
{
    if lines.len() == 0 {
        Seq::<Seq<char>>::empty()
    } else {
        let rest = parsed_wifi_lines(lines.drop_first());
        match parsed_wifi_line(lines[0]) {
            Option::Some(d) => seq![d] + rest,
            Option::None => rest,
        }
    }
}

/// One more line extends the parsed entries by that line's entry, if any.
pub proof fn lemma_parsed_wifi_lines_push(lines: Seq<Seq<char>>, x: Seq<char>)
    ensures
        parsed_wifi_lines(lines.push(x)) == parsed_wifi_lines(lines) + (match parsed_wifi_line(x) {
            Option::Some(d) => seq![d],
            Option::None => Seq::<Seq<char>>::empty(),
        }),
    decreases lines.len(),
{
    reveal_with_fuel(parsed_wifi_lines, 3);
    let whole = lines.push(x);
    assert(whole[0] == if lines.len() == 0 { x } else { lines[0] });
    if lines.len() == 0 {
        assert(whole.drop_first() =~= Seq::<Seq<char>>::empty());
        assert(parsed_wifi_lines(lines) =~= Seq::<Seq<char>>::empty());
        match parsed_wifi_line(x) {
            Option::Some(d) => {
                assert(parsed_wifi_lines(whole) =~= parsed_wifi_lines(lines) + seq![d]);
            },
            Option::None => {
                assert(parsed_wifi_lines(whole) =~= parsed_wifi_lines(lines));
            },
        }
    } else {
        lemma_parsed_wifi_lines_push(lines.drop_first(), x);
        assert(whole.drop_first() =~= lines.drop_first().push(x));
        match parsed_wifi_line(x) {
            Option::Some(d) => {
                assert(parsed_wifi_lines(whole) =~= parsed_wifi_lines(lines) + seq![d]);
            },
            Option::None => {
                assert(parsed_wifi_lines(whole) =~= parsed_wifi_lines(lines));
            },
        }
    }
}

/// A well-formed network line: four colon-delimited fields with a
/// non-empty SSID.
pub open spec fn valid_wifi_line(line: Seq<char>) -> bool {
    split_sep(line, ':').len() == 4 && trim_spec(split_sep(line, ':')[1]).len() > 0
}

/// Well-formed network lines each yield exactly one entry, in order, and
/// an entry opens with the connected marker exactly when its line's first
/// field is `*`.
pub proof fn lemma_parse_wifi_lines_valid(lines: Seq<Seq<char>>)
    requires
        forall|i: int| 0 <= i < lines.len() ==> valid_wifi_line(#[trigger] lines[i]),
    ensures
        parsed_wifi_lines(lines).len() == lines.len(),
        forall|i: int|
            0 <= i < lines.len() ==> (#[trigger] parsed_wifi_lines(lines)[i][0] == '\u{2705}')
                == (trim_spec(split_sep(lines[i], ':')[0]) == seq!['*']),
    decreases lines.len(),
{
    if lines.len() > 0 {
        assert(valid_wifi_line(lines[0]));
        lemma_parse_wifi_lines_valid(lines.drop_first());
        let d = parsed_wifi_line(lines[0])->0;
        assert(d[0] == if trim_spec(split_sep(lines[0], ':')[0]) == seq!['*'] {
            '\u{2705}'
        } else {
            '\u{1f4f6}'
        });
        assert(d[0] != '\u{2705}' ==> d[0] == '\u{1f4f6}');
        assert forall|i: int| 0 <= i < lines.len() implies (
        #[trigger] parsed_wifi_lines(lines)[i][0] == '\u{2705}') == (trim_spec(
            split_sep(lines[i], ':')[0],
        ) == seq!['*']) by {
            if i > 0 {
                assert(lines.drop_first()[i - 1] == lines[i]);
                assert(parsed_wifi_lines(lines)[i] == parsed_wifi_lines(lines.drop_first())[i - 1]);
            }
        }
    }
}

/// A line without exactly four fields, or with an empty SSID, yields no
/// entry: malformed lines are dropped, never more entries than lines, and
/// a sequence of only malformed lines yields none at all.
pub proof fn lemma_malformed_lines_dropped(lines: Seq<Seq<char>>)
    ensures
        parsed_wifi_lines(lines).len() <= lines.len(),
        (forall|i: int|
            0 <= i < lines.len() ==> !valid_wifi_line(#[trigger] lines[i]))
            ==> parsed_wifi_lines(lines).len() == 0,
    decreases lines.len(),
{
    if lines.len() > 0 {
        lemma_malformed_lines_dropped(lines.drop_first());
        assert forall|i: int|
            0 <= i < lines.len() && !valid_wifi_line(lines[i]) implies parsed_wifi_line(
            lines[i],
        ) is None by {}
        if forall|i: int| 0 <= i < lines.len() ==> !valid_wifi_line(#[trigger] lines[i]) {
            assert(!valid_wifi_line(lines[0]));
            assert forall|i: int|
                0 <= i < lines.drop_first().len() implies !valid_wifi_line(
                #[trigger] lines.drop_first()[i],
            ) by {
                assert(lines.drop_first()[i] == lines[i + 1]);
            }
        }
    }
}

/// Appends one Wi-Fi entry per well-formed network line, in line order:
/// a line yields an entry exactly when it has four colon-delimited fields
/// and a non-empty SSID.
pub fn parse_wifi_lines(actions: &mut Vec<WifiAction>, wifi_lines: Vec<String>)
    ensures
        final(actions)@.len() == old(actions)@.len() + parsed_wifi_lines(
            seq_views(wifi_lines@),
        ).len(),
        forall|k: int| 0 <= k < old(actions)@.len() ==> final(actions)@[k] == old(actions)@[k],
        forall|i: int|
            old(actions)@.len() <= i < final(actions)@.len() ==> (#[trigger] final(actions)@[i]
                matches WifiAction::Network(s) && s@ == parsed_wifi_lines(seq_views(wifi_lines@))[
                i - old(actions)@.len()]),
{
    let ghost base = actions@;
    let n = wifi_lines.len();
    proof {
        assert(seq_views(wifi_lines@).take(0) =~= Seq::<Seq<char>>::empty());
    }
    for i in 0..n
        invariant
            n == wifi_lines@.len(),
            actions@.len() == base.len() + parsed_wifi_lines(
                seq_views(wifi_lines@).take(i as int),
            ).len(),
            forall|k: int| 0 <= k < base.len() ==> actions@[k] == base[k],
            forall|j: int|
                base.len() <= j < actions@.len() ==> (#[trigger] actions@[j]
                    matches WifiAction::Network(s) && s@ == parsed_wifi_lines(
                    seq_views(wifi_lines@).take(i as int),
                )[j - base.len()]),
    {
        let line = &wifi_lines[i];
        let ghost prefix = seq_views(wifi_lines@).take(i as int);
        proof {
            lemma_parsed_wifi_lines_push(prefix, line@);
            assert(prefix.push(line@) =~= seq_views(wifi_lines@).take(i + 1));
        }
        let parts = split_char(line.as_str(), ':');
        if parts.len() == 4 {
            let in_use = trim(parts[0].as_str());
            let ssid = trim(parts[1].as_str());
            let signal = trim(parts[2].as_str());
            let security = trim(parts[3].as_str());
            proof {
                assert(seq_views(parts@)[0] == parts@[0]@);
                assert(seq_views(parts@)[1] == parts@[1]@);
                assert(seq_views(parts@)[2] == parts@[2]@);
                assert(seq_views(parts@)[3] == parts@[3]@);
                reveal_strlit("*");
                assert("*"@ =~= seq!['*']);
            }
            if ssid.unicode_len() > 0 {
                let display = wifi_entry(str_eq(in_use, "*"), ssid, security, signal);
                actions.push(WifiAction::Network(display));
            }
        }
    }
    proof {
        assert(seq_views(wifi_lines@).take(n as int) =~= seq_views(wifi_lines@));
    }
}

/// Does some line mark its network as in use, beginning with `'*'`?
pub fn has_in_use_entry(lines: &Vec<String>) -> (r: bool)
    ensures
        r == exists|i: int| 0 <= i < lines@.len() && first_is(#[trigger] lines@[i]@, '*'),
{
    let n = lines.len();
    for i in 0..n
        invariant
            n == lines@.len(),
            forall|k: int| 0 <= k < i ==> !first_is(#[trigger] lines@[k]@, '*'),
    {
        let line = lines[i].as_str();
        if line.unicode_len() > 0 && line.get_char(0) == '*' {
            return true;
        }
    }
    false
}

/// A device status line reporting `interface` as connected: two
/// colon-delimited fields, the device and the state.
pub open spec fn nm_connected_line(line: Seq<char>, interface: Seq<char>) -> bool {
    let parts = split_sep(line, ':');
    parts.len() == 2 && trim_spec(parts[0]) == interface && trim_spec(parts[1]) == "connected"@
}

/// Is `interface` reported as connected by the given device status lines?
pub fn is_nm_connected(lines: &Vec<String>, interface: &str) -> (r: bool)
    ensures
        r == exists|i: int| 0 <= i < lines@.len() && nm_connected_line(#[trigger] lines@[i]@, interface@),
{
    let n = lines.len();
    for i in 0..n
        invariant
            n == lines@.len(),
            forall|k: int| 0 <= k < i ==> !nm_connected_line(#[trigger] lines@[k]@, interface@),
    {
        let parts = split_char(lines[i].as_str(), ':');
        proof {
            if parts@.len() == 2 {
                assert(seq_views(parts@)[0] == parts@[0]@);
                assert(seq_views(parts@)[1] == parts@[1]@);
            }
        }
        if parts.len() == 2 && str_eq(trim(parts[0].as_str()), interface) && str_eq(
            trim(parts[1].as_str()),
            "connected",
        ) {
            return true;
        }
    }
    false
}

/// A saved-connection line listing `ssid`: optional leading whitespace, the
/// SSID itself, then at least one whitespace character.
pub open spec fn nm_profile_line(line: Seq<char>, ssid: Seq<char>) -> bool {
    exists|a: int|
        0 <= a && (forall|k: int| 0 <= k < a ==> is_ws(line[k])) && #[trigger] has_sub_at(
            line,
            ssid,
            a,
        ) && a + ssid.len() < line.len() && is_ws(line[a + ssid.len()])
}

/// Does one line list `ssid` as a saved connection profile?
fn line_has_profile(line: &str, ssid: &str) -> (r: bool)
    ensures
        r == nm_profile_line(line@, ssid@),
{
    let n = line.unicode_len();
    let m = ssid.unicode_len();
    let mut a: usize = 0;
    loop
        invariant
            a <= n,
            n == line@.len(),
            m == ssid@.len(),
            forall|k: int| 0 <= k < a ==> is_ws(line@[k]),
            forall|b: int|
                0 <= b < a ==> !(#[trigger] has_sub_at(line@, ssid@, b) && b + m < n && is_ws(
                    line@[b + m],
                )),
        decreases n - a,
    {
        if match_at(line, ssid, a) && a + m < n && is_ws_char(line.get_char(a + m)) {
            proof {
                assert(nm_profile_line(line@, ssid@));
            }
            return true;
        }
        if a < n && is_ws_char(line.get_char(a)) {
            a = a + 1;
        } else {
            proof {
                assert forall|b: int|
                    0 <= b && (forall|k: int| 0 <= k < b ==> is_ws(line@[k])) implies !(
                #[trigger] has_sub_at(line@, ssid@, b) && b + m < n && is_ws(line@[b + m])) by {
                    if b > a {
                        assert(is_ws(line@[a as int]));
                    }
                }
            }
            return false;
        }
    }
}

/// Is `ssid` listed as a saved connection profile in the given lines?
pub fn is_known_network(ssid: &str, lines: &Vec<String>) -> (r: bool)
    ensures
        r == exists|i: int| 0 <= i < lines@.len() && nm_profile_line(#[trigger] lines@[i]@, ssid@),
{
    let n = lines.len();
    for i in 0..n
        invariant
            n == lines@.len(),
            forall|k: int| 0 <= k < i ==> !nm_profile_line(#[trigger] lines@[k]@, ssid@),
    {
        if line_has_profile(lines[i].as_str(), ssid) {
            return true;
        }
    }
    false
}

/// A connection needs a password prompt exactly when the network is not a
/// saved profile and reports a security type.
pub fn wifi_needs_password(known: bool, security: &str) -> (r: bool)
    ensures
        r == (!known && security@.len() > 0),
{
    !known && security.unicode_len() > 0
}

/// The argument list of the connect invocation: the network and, when one
/// was prompted for, the password.
pub fn nm_connect_command(ssid: &str, password: Option<&str>) -> (r: Vec<String>)
    ensures
        seq_views(r@) == match password {
            Option::Some(p) => seq!["device"@, "wifi"@, "connect"@, ssid@, "password"@, p@],
            Option::None => seq!["device"@, "wifi"@, "connect"@, ssid@],
        },
{
    let mut r: Vec<String> = Vec::new();
    r.push(String::from_str("device"));
    r.push(String::from_str("wifi"));
    r.push(String::from_str("connect"));
    r.push(String::from_str(ssid));
    match password {
        Option::Some(p) => {
            r.push(String::from_str("password"));
            r.push(String::from_str(p));
            proof {
                assert(seq_views(r@) =~= seq![
                    "device"@,
                    "wifi"@,
                    "connect"@,
                    ssid@,
                    "password"@,
                    p@,
                ]);
            }
        },
        Option::None => {
            proof {
                assert(seq_views(r@) =~= seq!["device"@, "wifi"@, "connect"@, ssid@]);
            }
        },
    }
    r
}

/// The argument list of the interface-level connect invocation.
pub fn nm_device_connect_command(interface: &str) -> (r: Vec<String>)
    ensures
        seq_views(r@) == seq!["device"@, "connect"@, interface@],
{
    let mut r: Vec<String> = Vec::new();
    r.push(String::from_str("device"));
    r.push(String::from_str("connect"));
    r.push(String::from_str(interface));
    proof {
        assert(seq_views(r@) =~= seq!["device"@, "connect"@, interface@]);
    }
    r
}

/// The argument list of the disconnect invocation.
pub fn nm_disconnect_command(interface: &str) -> (r: Vec<String>)
    ensures
        seq_views(r@) == seq!["device"@, "disconnect"@, interface@],
{
    let mut r: Vec<String> = Vec::new();
    r.push(String::from_str("device"));
    r.push(String::from_str("disconnect"));
    r.push(String::from_str(interface));
    proof {
        assert(seq_views(r@) =~= seq!["device"@, "disconnect"@, interface@]);
    }
    r
}

} // verus!
