//! Mullvad exit-node menu: turns `tailscale exit-node list` lines into
//! entries, one per Mullvad node and one per plain exit node, sorted by
//! first token, and reads the node name back out of a selected entry to
//! build the `tailscale` invocations that set it as the exit node.

use vstd::prelude::*;

verus! {

use crate::text::{
    contains_str, contains_sub, filter_mapped, is_word, is_word_char, lemma_filter_mapped_push,
    seq_views, sort_by_first_token, split_on_ws_runs, split_ws2, stable_sort_by_first_token,
    str_eq, substring, trim, trim_spec,
};
use crate::{format_entry, format_entry_spec};

/// The flag glyph of a country, from the fixed table the Mullvad entries
/// draw on; an unlisted country gets the placeholder glyph.
pub open spec fn flag_of(country: Seq<char>) -> Seq<char> {
    if country == "Albania"@ { "\u{1f1e6}\u{1f1f1}"@ }
    else if country == "Australia"@ { "\u{1f1e6}\u{1f1fa}"@ }
    else if country == "Austria"@ { "\u{1f1e6}\u{1f1f9}"@ }
    else if country == "Belgium"@ { "\u{1f1e7}\u{1f1ea}"@ }
    else if country == "Brazil"@ { "\u{1f1e7}\u{1f1f7}"@ }
    else if country == "Bulgaria"@ { "\u{1f1e7}\u{1f1ec}"@ }
    else if country == "Canada"@ { "\u{1f1e8}\u{1f1e6}"@ }
    else if country == "Chile"@ { "\u{1f1e8}\u{1f1f1}"@ }
    else if country == "Colombia"@ { "\u{1f1e8}\u{1f1f4}"@ }
    else if country == "Croatia"@ { "\u{1f1ed}\u{1f1f7}"@ }
    else if country == "Czech Republic"@ { "\u{1f1e8}\u{1f1ff}"@ }
    else if country == "Denmark"@ { "\u{1f1e9}\u{1f1f0}"@ }
    else if country == "Estonia"@ { "\u{1f1ea}\u{1f1ea}"@ }
    else if country == "Finland"@ { "\u{1f1eb}\u{1f1ee}"@ }
    else if country == "France"@ { "\u{1f1eb}\u{1f1f7}"@ }
    else if country == "Germany"@ { "\u{1f1e9}\u{1f1ea}"@ }
    else if country == "Greece"@ { "\u{1f1ec}\u{1f1f7}"@ }
    else if country == "Hong Kong"@ { "\u{1f1ed}\u{1f1f0}"@ }
    else if country == "Hungary"@ { "\u{1f1ed}\u{1f1fa}"@ }
    else if country == "Indonesia"@ { "\u{1f1ee}\u{1f1e9}"@ }
    else if country == "Ireland"@ { "\u{1f1ee}\u{1f1ea}"@ }
    else if country == "Israel"@ { "\u{1f1ee}\u{1f1f1}"@ }
    else if country == "Italy"@ { "\u{1f1ee}\u{1f1f9}"@ }
    else if country == "Japan"@ { "\u{1f1ef}\u{1f1f5}"@ }
    else if country == "Latvia"@ { "\u{1f1f1}\u{1f1fb}"@ }
    else if country == "Mexico"@ { "\u{1f1f2}\u{1f1fd}"@ }
    else if country == "Netherlands"@ { "\u{1f1f3}\u{1f1f1}"@ }
    else if country == "New Zealand"@ { "\u{1f1f3}\u{1f1ff}"@ }
    else if country == "Norway"@ { "\u{1f1f3}\u{1f1f4}"@ }
    else if country == "Poland"@ { "\u{1f1f5}\u{1f1f1}"@ }
    else if country == "Portugal"@ { "\u{1f1f5}\u{1f1f9}"@ }
    else if country == "Romania"@ { "\u{1f1f7}\u{1f1f4}"@ }
    else if country == "Serbia"@ { "\u{1f1f7}\u{1f1f8}"@ }
    else if country == "Singapore"@ { "\u{1f1f8}\u{1f1ec}"@ }
    else if country == "Slovakia"@ { "\u{1f1f8}\u{1f1f0}"@ }
    else if country == "Slovenia"@ { "\u{1f1f8}\u{1f1ee}"@ }
    else if country == "South Africa"@ { "\u{1f1ff}\u{1f1e6}"@ }
    else if country == "Spain"@ { "\u{1f1ea}\u{1f1f8}"@ }
    else if country == "Sweden"@ { "\u{1f1f8}\u{1f1ea}"@ }
    else if country == "Switzerland"@ { "\u{1f1e8}\u{1f1ed}"@ }
    else if country == "Thailand"@ { "\u{1f1f9}\u{1f1ed}"@ }
    else if country == "Turkey"@ { "\u{1f1f9}\u{1f1f7}"@ }
    else if country == "UK"@ { "\u{1f1ec}\u{1f1e7}"@ }
    else if country == "Ukraine"@ { "\u{1f1fa}\u{1f1e6}"@ }
    else if country == "USA"@ { "\u{1f1fa}\u{1f1f8}"@ }
    else { "\u{2753}"@ }
}

/// Looks a country's flag glyph up in the fixed table.
#[verifier::rlimit(30)]
pub fn get_flag(country: &str) -> (r: &'static str)
    ensures
        r@ == flag_of(country@),
{
    if str_eq(country, "Albania") { "\u{1f1e6}\u{1f1f1}" }
    else if str_eq(country, "Australia") { "\u{1f1e6}\u{1f1fa}" }
    else if str_eq(country, "Austria") { "\u{1f1e6}\u{1f1f9}" }
    else if str_eq(country, "Belgium") { "\u{1f1e7}\u{1f1ea}" }
    else if str_eq(country, "Brazil") { "\u{1f1e7}\u{1f1f7}" }
    else if str_eq(country, "Bulgaria") { "\u{1f1e7}\u{1f1ec}" }
    else if str_eq(country, "Canada") { "\u{1f1e8}\u{1f1e6}" }
    else if str_eq(country, "Chile") { "\u{1f1e8}\u{1f1f1}" }
    else if str_eq(country, "Colombia") { "\u{1f1e8}\u{1f1f4}" }
    else if str_eq(country, "Croatia") { "\u{1f1ed}\u{1f1f7}" }
    else if str_eq(country, "Czech Republic") { "\u{1f1e8}\u{1f1ff}" }
    else if str_eq(country, "Denmark") { "\u{1f1e9}\u{1f1f0}" }
    else if str_eq(country, "Estonia") { "\u{1f1ea}\u{1f1ea}" }
    else if str_eq(country, "Finland") { "\u{1f1eb}\u{1f1ee}" }
    else if str_eq(country, "France") { "\u{1f1eb}\u{1f1f7}" }
    else if str_eq(country, "Germany") { "\u{1f1e9}\u{1f1ea}" }
    else if str_eq(country, "Greece") { "\u{1f1ec}\u{1f1f7}" }
    else if str_eq(country, "Hong Kong") { "\u{1f1ed}\u{1f1f0}" }
    else if str_eq(country, "Hungary") { "\u{1f1ed}\u{1f1fa}" }
    else if str_eq(country, "Indonesia") { "\u{1f1ee}\u{1f1e9}" }
    else if str_eq(country, "Ireland") { "\u{1f1ee}\u{1f1ea}" }
    else if str_eq(country, "Israel") { "\u{1f1ee}\u{1f1f1}" }
    else if str_eq(country, "Italy") { "\u{1f1ee}\u{1f1f9}" }
    else if str_eq(country, "Japan") { "\u{1f1ef}\u{1f1f5}" }
    else if str_eq(country, "Latvia") { "\u{1f1f1}\u{1f1fb}" }
    else if str_eq(country, "Mexico") { "\u{1f1f2}\u{1f1fd}" }
    else if str_eq(country, "Netherlands") { "\u{1f1f3}\u{1f1f1}" }
    else if str_eq(country, "New Zealand") { "\u{1f1f3}\u{1f1ff}" }
    else if str_eq(country, "Norway") { "\u{1f1f3}\u{1f1f4}" }
    else if str_eq(country, "Poland") { "\u{1f1f5}\u{1f1f1}" }
    else if str_eq(country, "Portugal") { "\u{1f1f5}\u{1f1f9}" }
    else if str_eq(country, "Romania") { "\u{1f1f7}\u{1f1f4}" }
    else if str_eq(country, "Serbia") { "\u{1f1f7}\u{1f1f8}" }
    else if str_eq(country, "Singapore") { "\u{1f1f8}\u{1f1ec}" }
    else if str_eq(country, "Slovakia") { "\u{1f1f8}\u{1f1f0}" }
    else if str_eq(country, "Slovenia") { "\u{1f1f8}\u{1f1ee}" }
    else if str_eq(country, "South Africa") { "\u{1f1ff}\u{1f1e6}" }
    else if str_eq(country, "Spain") { "\u{1f1ea}\u{1f1f8}" }
    else if str_eq(country, "Sweden") { "\u{1f1f8}\u{1f1ea}" }
    else if str_eq(country, "Switzerland") { "\u{1f1e8}\u{1f1ed}" }
    else if str_eq(country, "Thailand") { "\u{1f1f9}\u{1f1ed}" }
    else if str_eq(country, "Turkey") { "\u{1f1f9}\u{1f1f7}" }
    else if str_eq(country, "UK") { "\u{1f1ec}\u{1f1e7}" }
    else if str_eq(country, "Ukraine") { "\u{1f1fa}\u{1f1e6}" }
    else if str_eq(country, "USA") { "\u{1f1fa}\u{1f1f8}" }
    else { "\u{2753}" }
}

/// The entry a Mullvad node line yields: the columns are split at runs of
/// two or more spaces; the third column is the country, the second the
/// node name.
pub open spec fn mullvad_line_entry(line: Seq<char>) -> Seq<char> {
    let parts = split_ws2(line);
    let node_name = if parts.len() >= 2 {
        parts[1]
    } else {
        Seq::<char>::empty()
    };
    let country = if parts.len() >= 3 {
        parts[2]
    } else {
        Seq::<char>::empty()
    };
    format_entry_spec("mullvad"@, flag_of(country), country + seq![' ', '-', ' '] + node_name)
}

/// The entry a plain exit-node line yields: the trimmed first column is
/// the node address, the second the node name.
pub open spec fn exit_node_line_entry(line: Seq<char>) -> Seq<char> {
    let parts = split_ws2(line);
    let node_ip = trim_spec(parts[0]);
    let node_name = if parts.len() >= 2 {
        parts[1]
    } else {
        Seq::<char>::empty()
    };
    format_entry_spec("exit-node"@, "\u{1f33f}"@, node_name + seq![' ', '-', ' '] + node_ip)
}

/// What a line contributes to the Mullvad pass: an entry when it names a
/// Mullvad node.
pub open spec fn mullvad_pass(line: Seq<char>) -> Option<Seq<char>> {
    if contains_sub(line, "mullvad.ts.net"@) {
        Option::Some(mullvad_line_entry(line))
    } else {
        Option::None
    }
}

/// What a line contributes to the plain exit-node pass: an entry when it
/// names an exit node that is not a Mullvad one.
pub open spec fn exit_node_pass(line: Seq<char>) -> Option<Seq<char>> {
    if contains_sub(line, "ts.net"@) && !contains_sub(line, "mullvad.ts.net"@) {
        Option::Some(exit_node_line_entry(line))
    } else {
        Option::None
    }
}

/// The Mullvad pass as a function value, for mapping over the lines.
pub open spec fn mullvad_pass_fn() -> spec_fn(Seq<char>) -> Option<Seq<char>> {
    |l: Seq<char>| mullvad_pass(l)
}

/// The plain exit-node pass as a function value.
pub open spec fn exit_node_pass_fn() -> spec_fn(Seq<char>) -> Option<Seq<char>> {
    |l: Seq<char>| exit_node_pass(l)
}

/// All entries the exit-node list yields: the Mullvad pass, then the plain
/// pass, sorted by first token keeping equal keys in order.
pub open spec fn mullvad_actions_spec(lines: Seq<Seq<char>>) -> Seq<Seq<char>> {
    stable_sort_by_first_token(
        filter_mapped(lines, mullvad_pass_fn()) + filter_mapped(lines, exit_node_pass_fn()),
    )
}

/// Builds the entry of one Mullvad node line.
fn render_mullvad_line(line: &str) -> (r: String)
    ensures
        r@ == mullvad_line_entry(line@),
{
    let parts = split_on_ws_runs(line);
    let node_name = if parts.len() >= 2 {
        parts[1].as_str()
    } else {
        ""
    };
    let country = if parts.len() >= 3 {
        parts[2].as_str()
    } else {
        ""
    };
    proof {
        reveal_strlit("");
        assert(""@ =~= Seq::<char>::empty());
        if parts@.len() >= 2 {
            assert(seq_views(parts@)[1] == parts@[1]@);
        }
        if parts@.len() >= 3 {
            assert(seq_views(parts@)[2] == parts@[2]@);
        }
        reveal_strlit(" - ");
        assert(" - "@ =~= seq![' ', '-', ' ']);
    }
    let mut text = String::from_str(country);
    text.append(" - ");
    text.append(node_name);
    format_entry("mullvad", get_flag(country), text.as_str())
}

/// Builds the entry of one plain exit-node line.
fn render_exit_node_line(line: &str) -> (r: String)
    ensures
        r@ == exit_node_line_entry(line@),
{
    let parts = split_on_ws_runs(line);
    let node_ip = trim(parts[0].as_str());
    let node_name = if parts.len() >= 2 {
        parts[1].as_str()
    } else {
        ""
    };
    proof {
        reveal_strlit("");
        assert(""@ =~= Seq::<char>::empty());
        assert(seq_views(parts@)[0] == parts@[0]@);
        if parts@.len() >= 2 {
            assert(seq_views(parts@)[1] == parts@[1]@);
        }
        reveal_strlit(" - ");
        assert(" - "@ =~= seq![' ', '-', ' ']);
    }
    let mut text = String::from_str(node_name);
    text.append(" - ");
    text.append(node_ip);
    format_entry("exit-node", "\u{1f33f}", text.as_str())
}

/// Turns the lines of `tailscale exit-node list` into menu entries: one per
/// Mullvad node, one per other exit node, sorted by first token.
pub fn get_mullvad_actions(lines: &Vec<String>) -> (r: Vec<String>)
    ensures
        seq_views(r@) == mullvad_actions_spec(seq_views(lines@)),
{
    let mut entries: Vec<String> = Vec::new();
    let n = lines.len();
    proof {
        assert(seq_views(lines@).take(0) =~= Seq::<Seq<char>>::empty());
    }
    for i in 0..n
        invariant
            n == lines@.len(),
            seq_views(entries@) =~= filter_mapped(seq_views(lines@).take(i as int), mullvad_pass_fn()),
    {
        let ghost prefix = seq_views(lines@).take(i as int);
        proof {
            lemma_filter_mapped_push(prefix, mullvad_pass_fn(), lines@[i as int]@);
            assert(prefix.push(lines@[i as int]@) =~= seq_views(lines@).take(i + 1));
            assert(mullvad_pass_fn()(lines@[i as int]@) == mullvad_pass(lines@[i as int]@));
        }
        if contains_str(lines[i].as_str(), "mullvad.ts.net") {
            entries.push(render_mullvad_line(lines[i].as_str()));
            proof {
                assert(seq_views(entries@) =~= seq_views(entries@.drop_last()) + seq![
                    mullvad_line_entry(lines@[i as int]@),
                ]);
            }
        }
    }
    let ghost mull_all = filter_mapped(seq_views(lines@), mullvad_pass_fn());
    proof {
        assert(seq_views(lines@).take(n as int) =~= seq_views(lines@));
    }
    for i in 0..n
        invariant
            n == lines@.len(),
            mull_all == filter_mapped(seq_views(lines@), mullvad_pass_fn()),
            seq_views(entries@) =~= mull_all + filter_mapped(
                seq_views(lines@).take(i as int),
                exit_node_pass_fn(),
            ),
    {
        let ghost prefix = seq_views(lines@).take(i as int);
        proof {
            lemma_filter_mapped_push(prefix, exit_node_pass_fn(), lines@[i as int]@);
            assert(prefix.push(lines@[i as int]@) =~= seq_views(lines@).take(i + 1));
            assert(exit_node_pass_fn()(lines@[i as int]@) == exit_node_pass(lines@[i as int]@));
        }
        if contains_str(lines[i].as_str(), "ts.net") && !contains_str(
            lines[i].as_str(),
            "mullvad.ts.net",
        ) {
            entries.push(render_exit_node_line(lines[i].as_str()));
            proof {
                assert(seq_views(entries@) =~= seq_views(entries@.drop_last()) + seq![
                    exit_node_line_entry(lines@[i as int]@),
                ]);
                assert(exit_node_pass(lines@[i as int]@) == Option::Some(
                    exit_node_line_entry(lines@[i as int]@),
                ));
                assert(filter_mapped(seq_views(lines@).take(i + 1), exit_node_pass_fn())
                    =~= filter_mapped(seq_views(lines@).take(i as int), exit_node_pass_fn())
                    + seq![exit_node_line_entry(lines@[i as int]@)]);
                assert(seq_views(entries@) =~= (mull_all + filter_mapped(
                    seq_views(lines@).take(i as int),
                    exit_node_pass_fn(),
                )) + seq![exit_node_line_entry(lines@[i as int]@)]);
                assert(seq_views(entries@) =~= mull_all + filter_mapped(
                    seq_views(lines@).take(i + 1),
                    exit_node_pass_fn(),
                ));
            }
        } else {
            proof {
                assert(exit_node_pass(lines@[i as int]@) is None);
                assert(filter_mapped(seq_views(lines@).take(i + 1), exit_node_pass_fn())
                    =~= filter_mapped(seq_views(lines@).take(i as int), exit_node_pass_fn()));
                assert(seq_views(entries@) =~= mull_all + filter_mapped(
                    seq_views(lines@).take(i + 1),
                    exit_node_pass_fn(),
                ));
            }
        }
    }
    proof {
        assert(seq_views(lines@).take(n as int) =~= seq_views(lines@));
    }
    sort_by_first_token(entries)
}

/// A character a node name may hold: a word character, a dot, a dash or an
/// underscore.
pub open spec fn is_node_name_char(c: char) -> bool {
    is_word(c) || c == '.' || c == '-'
}

/// The index of the last space of `s`, or `-1` when it has none.
pub open spec fn last_space(s: Seq<char>) -> int
    decreases s.len(),
{
    if s.len() == 0 {
        -1
    } else if s.last() == ' ' {
        s.len() - 1
    } else {
        last_space(s.drop_last())
    }
}

/// The node name a selected entry ends with: the non-empty run of node-name
/// characters after the last space, if the entry ends that way.
pub open spec fn node_name_of(s: Seq<char>) -> Option<Seq<char>> {
    let i = last_space(s);
    if i >= 0 && i + 1 < s.len() && (forall|k: int| i < k < s.len() ==> is_node_name_char(s[k])) {
        Option::Some(s.skip(i + 1))
    } else {
        Option::None
    }
}

/// Reads the node name back out of a selected entry.
pub fn extract_node_name(action: &str) -> (r: Option<String>)
    ensures
        match r {
            Some(name) => node_name_of(action@) == Option::Some(name@),
            None => node_name_of(action@) is None,
        },
{
    let n = action.unicode_len();
    let mut j: usize = n;
    proof {
        assert(action@.take(n as int) =~= action@);
    }
    while j > 0 && action.get_char(j - 1) != ' '
        invariant
            j <= n,
            n == action@.len(),
            last_space(action@) == last_space(action@.take(j as int)),
        decreases j,
    {
        proof {
            let t = action@.take(j as int);
            assert(t.last() == action@[j - 1]);
            assert(t.drop_last() =~= action@.take(j - 1));
        }
        j = j - 1;
    }
    if j == 0 {
        return Option::None;
    }
    proof {
        let t = action@.take(j as int);
        assert(t.last() == action@[j - 1]);
        assert(last_space(action@) == j - 1);
    }
    if j == n {
        return Option::None;
    }
    let mut k = j;
    while k < n
        invariant
            1 <= j <= k <= n,
            n == action@.len(),
            last_space(action@) == j - 1,
            forall|q: int| j <= q < k ==> is_node_name_char(action@[q]),
        decreases n - k,
    {
        let c = action.get_char(k);
        if !(is_word_char(c) || c == '.' || c == '-') {
            return Option::None;
        }
        k = k + 1;
    }
    proof {
        assert(action@.subrange(j as int, n as int) =~= action@.skip(j as int));
    }
    Option::Some(substring(action, j, n))
}

/// The two `tailscale` invocations a selected entry leads to: bring the
/// service up, then set the entry's node as the exit node with LAN access
/// kept; no invocation when the entry ends with no node name.
pub fn set_exit_node(action: &str) -> (r: Option<(Vec<String>, Vec<String>)>)
    ensures
        match r {
            Some(cmds) => node_name_of(action@) matches Option::Some(name) && seq_views(cmds.0@)
                == seq!["up"@] && seq_views(cmds.1@) == seq![
                "set"@,
                "--exit-node"@,
                name,
                "--exit-node-allow-lan-access=true"@,
            ],
            None => node_name_of(action@) is None,
        },
{
    match extract_node_name(action) {
        Option::Some(name) => {
            let mut up: Vec<String> = Vec::new();
            up.push(String::from_str("up"));
            let mut set: Vec<String> = Vec::new();
            set.push(String::from_str("set"));
            set.push(String::from_str("--exit-node"));
            set.push(name);
            set.push(String::from_str("--exit-node-allow-lan-access=true"));
            proof {
                assert(seq_views(up@) =~= seq!["up"@]);
                assert(seq_views(set@) =~= seq![
                    "set"@,
                    "--exit-node"@,
                    action@.skip(last_space(action@) + 1),
                    "--exit-node-allow-lan-access=true"@,
                ]);
            }
            Option::Some((up, set))
        },
        Option::None => Option::None,
    }
}

/// The exit-node entries always come out in first-token order.
pub proof fn lemma_mullvad_actions_sorted(lines: Seq<Seq<char>>)
    ensures
        crate::text::entries_sorted(mullvad_actions_spec(lines)),
{
    crate::text::lemma_stable_sort_sorted(
        filter_mapped(lines, mullvad_pass_fn()) + filter_mapped(lines, exit_node_pass_fn()),
    );
}

/// A known last space is what [`last_space`] finds.
proof fn lemma_last_space_is(s: Seq<char>, j: int)
    requires
        0 <= j < s.len(),
        s[j] == ' ',
        forall|k: int| j < k < s.len() ==> s[k] != ' ',
    ensures
        last_space(s) == j,
    decreases s.len(),
{
    if j < s.len() - 1 {
        assert(s.last() != ' ');
        assert forall|k: int| j < k < s.drop_last().len() implies s.drop_last()[k] != ' ' by {
            assert(s.drop_last()[k] == s[k]);
        }
        assert(s.drop_last()[j] == s[j]);
        lemma_last_space_is(s.drop_last(), j);
    }
}

/// Round trip of the node name: a rendered Mullvad entry ends with the
/// node name it was rendered from, after a space, so reading the trailing
/// name back recovers it exactly — for names made of word characters, dots
/// and dashes.
pub proof fn lemma_mullvad_entry_round_trip(icon: Seq<char>, country: Seq<char>, name: Seq<char>)
    requires
        name.len() > 0,
        forall|i: int| 0 <= i < name.len() ==> is_node_name_char(#[trigger] name[i]),
    ensures
        node_name_of(format_entry_spec("mullvad"@, icon, country + seq![' ', '-', ' '] + name))
            == Option::Some(name),
{
    let d = format_entry_spec("mullvad"@, icon, country + seq![' ', '-', ' '] + name);
    let j = d.len() - name.len() - 1;
    assert(d[j] == ' ');
    assert forall|k: int| j < k < d.len() implies #[trigger] d[k] != ' ' by {
        assert(d[k] == name[k - j - 1]);
        assert(is_node_name_char(name[k - j - 1]));
    }
    lemma_last_space_is(d, j);
    assert forall|k: int| j < k < d.len() implies is_node_name_char(#[trigger] d[k]) by {
        assert(d[k] == name[k - j - 1]);
    }
    assert(d.skip(j + 1) =~= name);
}

/// Is some status line reporting an active exit node?
pub fn is_exit_node_active(lines: &Vec<String>) -> (r: bool)
    ensures
        r == exists|i: int|
            0 <= i < lines@.len() && contains_sub(#[trigger] lines@[i]@, "active; exit node;"@),
{
    let n = lines.len();
    for i in 0..n
        invariant
            n == lines@.len(),
            forall|k: int| 0 <= k < i ==> !contains_sub(#[trigger] lines@[k]@, "active; exit node;"@),
    {
        if contains_str(lines[i].as_str(), "active; exit node;") {
            return true;
        }
    }
    false
}

} // verus!
