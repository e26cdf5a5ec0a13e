//! Tailscale backend: turns `tailscale exit-node list` lines into menu
//! entries that mark the active exit node, finds that node in the parsed
//! status peers, reads the node address back out of a selected entry, and
//! builds the `tailscale` invocations each control action leads to.

use vstd::prelude::*;

verus! {

use crate::mullvad::flag_of;
use crate::text::{
    contains_str, contains_sub, filter_mapped, first_char_from, is_word, is_word_char,
    lemma_filter_mapped_push, pad_right, pad_right_spec, seq_views, sort_by_first_token,
    split_on_ws_runs, split_ws2, stable_sort_by_first_token, str_eq, substring, trim, trim_spec,
    word_at,
};
use crate::{format_entry, format_entry_spec};

/// A Tailscale control action.
#[derive(Debug, Clone)]
pub enum TailscaleAction {
    DisableExitNode,
    SetEnable(bool),
    SetExitNode(String),
    SetShields(bool),
}

/// The connection state of one peer from the parsed status report.
#[derive(Debug, Clone)]
pub struct PeerStatus {
    pub active: bool,
    pub exit_node: bool,
    pub dns_name: String,
}

/// `s` without its trailing dots.
pub open spec fn trim_trailing_dots(s: Seq<char>) -> Seq<char>
    decreases s.len(),
{
    if s.len() > 0 && s.last() == '.' {
        trim_trailing_dots(s.drop_last())
    } else {
        s
    }
}

/// The DNS name of the active exit node among the peers: the first peer
/// that is active and an exit node, its name without trailing dots; empty
/// when there is none.
pub open spec fn active_exit_node_of(peers: Seq<PeerStatus>) -> Seq<char>
    decreases peers.len(),
{
    if peers.len() == 0 {
        Seq::<char>::empty()
    } else if peers[0].active && peers[0].exit_node {
        trim_trailing_dots(peers[0].dns_name@)
    } else {
        active_exit_node_of(peers.drop_first())
    }
}

/// Finds the active exit node among the status peers.
pub fn get_active_exit_node(peers: &Vec<PeerStatus>) -> (r: String)
    ensures
        r@ == active_exit_node_of(peers@),
{
    let n = peers.len();
    proof {
        assert(peers@.skip(0) =~= peers@);
    }
    for i in 0..n
        invariant
            n == peers@.len(),
            active_exit_node_of(peers@) == active_exit_node_of(peers@.skip(i as int)),
    {
        proof {
            let tail = peers@.skip(i as int);
            assert(tail[0] == peers@[i as int]);
            assert(tail.drop_first() =~= peers@.skip(i + 1));
        }
        let p = &peers[i];
        if p.active && p.exit_node {
            let s = p.dns_name.as_str();
            let m = s.unicode_len();
            let mut b = m;
            proof {
                assert(s@.take(m as int) =~= s@);
            }
            while b > 0 && s.get_char(b - 1) == '.'
                invariant
                    b <= m,
                    m == s@.len(),
                    trim_trailing_dots(s@) == trim_trailing_dots(s@.take(b as int)),
                decreases b,
            {
                proof {
                    let t = s@.take(b as int);
                    assert(t.last() == s@[b - 1]);
                    assert(t.drop_last() =~= s@.take(b - 1));
                }
                b = b - 1;
            }
            proof {
                let t = s@.take(b as int);
                if t.len() > 0 {
                    assert(t.last() == s@[b - 1]);
                }
                assert(trim_trailing_dots(t) == t);
            }
            return substring(s, 0, b);
        }
    }
    proof {
        assert(active_exit_node_of(peers@.skip(n as int)) =~= Seq::<char>::empty());
    }
    String::new()
}

/// The part of a node name before its first dot.
pub fn extract_short_name<'a>(node_name: &'a str) -> (r: &'a str)
    ensures
        r@ == node_name@.take(first_char_from(node_name@, '.', 0)),
{
    let n = node_name.unicode_len();
    let mut i: usize = 0;
    while i < n && node_name.get_char(i) != '.'
        invariant
            i <= n,
            n == node_name@.len(),
            first_char_from(node_name@, '.', 0) == first_char_from(node_name@, '.', i as int),
        decreases n - i,
    {
        i = i + 1;
    }
    proof {
        assert(node_name@.subrange(0, i as int) =~= node_name@.take(i as int));
    }
    node_name.substring_char(0, i)
}

/// The entry a Mullvad node line yields: trimmed columns split at runs of
/// two or more spaces, the country and address aligned, and the active
/// node marked instead of its flag.
pub open spec fn mullvad_line_entry(line: Seq<char>, active_exit_node: Seq<char>) -> Seq<char> {
    let parts = split_ws2(line);
    let node_ip = trim_spec(parts[0]);
    let node_name = if parts.len() >= 2 {
        trim_spec(parts[1])
    } else {
        Seq::<char>::empty()
    };
    let country = if parts.len() >= 3 {
        trim_spec(parts[2])
    } else {
        Seq::<char>::empty()
    };
    format_entry_spec(
        "mullvad"@,
        if active_exit_node == node_name {
            "\u{2705}"@
        } else {
            flag_of(country)
        },
        pad_right_spec(country, 15) + seq![' ', '-', ' '] + pad_right_spec(node_ip, 16)
            + seq![' '] + node_name,
    )
}

/// The entry a plain exit-node line yields: the shortened name, the
/// address and the full name, the active node marked.
pub open spec fn exit_node_line_entry(line: Seq<char>, active_exit_node: Seq<char>) -> Seq<char> {
    let parts = split_ws2(line);
    let node_ip = trim_spec(parts[0]);
    let node_name = if parts.len() >= 2 {
        trim_spec(parts[1])
    } else {
        Seq::<char>::empty()
    };
    let short = node_name.take(first_char_from(node_name, '.', 0));
    format_entry_spec(
        "exit-node"@,
        if active_exit_node == node_name {
            "\u{2705}"@
        } else {
            "\u{1f33f}"@
        },
        pad_right_spec(short, 15) + seq![' ', '-', ' '] + pad_right_spec(node_ip, 16) + seq![' ']
            + node_name,
    )
}

/// What a line contributes to the Mullvad pass.
pub open spec fn mullvad_pass(line: Seq<char>, active: Seq<char>) -> Option<Seq<char>> {
    if contains_sub(line, "mullvad.ts.net"@) {
        Option::Some(mullvad_line_entry(line, active))
    } else {
        Option::None
    }
}

/// What a line contributes to the plain exit-node pass.
pub open spec fn exit_node_pass(line: Seq<char>, active: Seq<char>) -> Option<Seq<char>> {
    if contains_sub(line, "ts.net"@) && !contains_sub(line, "mullvad.ts.net"@) {
        Option::Some(exit_node_line_entry(line, active))
    } else {
        Option::None
    }
}

/// The Mullvad pass as a function value.
pub open spec fn mullvad_pass_fn(active: Seq<char>) -> spec_fn(Seq<char>) -> Option<Seq<char>> {
    |l: Seq<char>| mullvad_pass(l, active)
}

/// The plain exit-node pass as a function value.
pub open spec fn exit_node_pass_fn(active: Seq<char>) -> spec_fn(Seq<char>) -> Option<Seq<char>> {
    |l: Seq<char>| exit_node_pass(l, active)
}

/// All entries the exit-node list yields: the Mullvad pass, then the plain
/// pass, sorted by first token keeping equal keys in order.
pub open spec fn mullvad_actions_spec(lines: Seq<Seq<char>>, active: Seq<char>) -> Seq<Seq<char>> {
    stable_sort_by_first_token(
        filter_mapped(lines, mullvad_pass_fn(active)) + filter_mapped(
            lines,
            exit_node_pass_fn(active),
        ),
    )
}

/// The exit-node entries always come out in first-token order.
pub proof fn lemma_mullvad_actions_sorted(lines: Seq<Seq<char>>, active: Seq<char>)
    ensures
        crate::text::entries_sorted(mullvad_actions_spec(lines, active)),
{
    crate::text::lemma_stable_sort_sorted(
        filter_mapped(lines, mullvad_pass_fn(active)) + filter_mapped(
            lines,
            exit_node_pass_fn(active),
        ),
    );
}

/// Builds the entry of one Mullvad node line.
fn render_mullvad_line(line: &str, active_exit_node: &str) -> (r: String)
    ensures
        r@ == mullvad_line_entry(line@, active_exit_node@),
{
    let parts = split_on_ws_runs(line);
    let node_ip = trim(parts[0].as_str());
    let node_name = if parts.len() >= 2 {
        trim(parts[1].as_str())
    } else {
        ""
    };
    let country = if parts.len() >= 3 {
        trim(parts[2].as_str())
    } else {
        ""
    };
    proof {
        reveal_strlit("");
        assert(""@ =~= Seq::<char>::empty());
        assert(trim_spec(Seq::<char>::empty()) =~= Seq::<char>::empty());
        assert(seq_views(parts@)[0] == parts@[0]@);
        if parts@.len() >= 2 {
            assert(seq_views(parts@)[1] == parts@[1]@);
        }
        if parts@.len() >= 3 {
            assert(seq_views(parts@)[2] == parts@[2]@);
        }
        reveal_strlit(" - ");
        reveal_strlit(" ");
        assert(" - "@ =~= seq![' ', '-', ' ']);
        assert(" "@ =~= seq![' ']);
    }
    let is_active = str_eq(active_exit_node, node_name);
    let mut text = pad_right(country, 15);
    text.append(" - ");
    text.append(pad_right(node_ip, 16).as_str());
    text.append(" ");
    text.append(node_name);
    let icon = if is_active {
        String::from_str("\u{2705}")
    } else {
        String::from_str(crate::mullvad::get_flag(country))
    };
    format_entry("mullvad", icon.as_str(), text.as_str())
}

/// Builds the entry of one plain exit-node line.
fn render_exit_node_line(line: &str, active_exit_node: &str) -> (r: String)
    ensures
        r@ == exit_node_line_entry(line@, active_exit_node@),
{
    let parts = split_on_ws_runs(line);
    let node_ip = trim(parts[0].as_str());
    let node_name = if parts.len() >= 2 {
        trim(parts[1].as_str())
    } else {
        ""
    };
    proof {
        reveal_strlit("");
        assert(""@ =~= Seq::<char>::empty());
        assert(trim_spec(Seq::<char>::empty()) =~= Seq::<char>::empty());
        assert(seq_views(parts@)[0] == parts@[0]@);
        if parts@.len() >= 2 {
            assert(seq_views(parts@)[1] == parts@[1]@);
        }
        reveal_strlit(" - ");
        reveal_strlit(" ");
        assert(" - "@ =~= seq![' ', '-', ' ']);
        assert(" "@ =~= seq![' ']);
    }
    let short = extract_short_name(node_name);
    let is_active = str_eq(active_exit_node, node_name);
    let mut text = pad_right(short, 15);
    text.append(" - ");
    text.append(pad_right(node_ip, 16).as_str());
    text.append(" ");
    text.append(node_name);
    format_entry(
        "exit-node",
        if is_active {
            "\u{2705}"
        } else {
            "\u{1f33f}"
        },
        text.as_str(),
    )
}

/// Turns the lines of `tailscale exit-node list` into menu entries, the
/// active exit node marked, sorted by first token.
pub fn get_mullvad_actions(lines: &Vec<String>, active_exit_node: &str) -> (r: Vec<String>)
    ensures
        seq_views(r@) == mullvad_actions_spec(seq_views(lines@), active_exit_node@),
{
    let ghost active = active_exit_node@;
    let mut entries: Vec<String> = Vec::new();
    let n = lines.len();
    proof {
        assert(seq_views(lines@).take(0) =~= Seq::<Seq<char>>::empty());
    }
    for i in 0..n
        invariant
            n == lines@.len(),
            active == active_exit_node@,
            seq_views(entries@) =~= filter_mapped(
                seq_views(lines@).take(i as int),
                mullvad_pass_fn(active),
            ),
    {
        let ghost prefix = seq_views(lines@).take(i as int);
        proof {
            lemma_filter_mapped_push(prefix, mullvad_pass_fn(active), lines@[i as int]@);
            assert(prefix.push(lines@[i as int]@) =~= seq_views(lines@).take(i + 1));
            assert(mullvad_pass_fn(active)(lines@[i as int]@) == mullvad_pass(
                lines@[i as int]@,
                active,
            ));
        }
        if contains_str(lines[i].as_str(), "mullvad.ts.net") {
            entries.push(render_mullvad_line(lines[i].as_str(), active_exit_node));
            proof {
                assert(seq_views(entries@) =~= seq_views(entries@.drop_last()) + seq![
                    mullvad_line_entry(lines@[i as int]@, active),
                ]);
            }
        }
    }
    let ghost mull_all = filter_mapped(seq_views(lines@), mullvad_pass_fn(active));
    proof {
        assert(seq_views(lines@).take(n as int) =~= seq_views(lines@));
    }
    for i in 0..n
        invariant
            n == lines@.len(),
            active == active_exit_node@,
            mull_all == filter_mapped(seq_views(lines@), mullvad_pass_fn(active)),
            seq_views(entries@) =~= mull_all + filter_mapped(
                seq_views(lines@).take(i as int),
                exit_node_pass_fn(active),
            ),
    {
        let ghost prefix = seq_views(lines@).take(i as int);
        proof {
            lemma_filter_mapped_push(prefix, exit_node_pass_fn(active), lines@[i as int]@);
            assert(prefix.push(lines@[i as int]@) =~= seq_views(lines@).take(i + 1));
            assert(exit_node_pass_fn(active)(lines@[i as int]@) == exit_node_pass(
                lines@[i as int]@,
                active,
            ));
        }
        if contains_str(lines[i].as_str(), "ts.net") && !contains_str(
            lines[i].as_str(),
            "mullvad.ts.net",
        ) {
            entries.push(render_exit_node_line(lines[i].as_str(), active_exit_node));
            proof {
                assert(seq_views(entries@) =~= seq_views(entries@.drop_last()) + seq![
                    exit_node_line_entry(lines@[i as int]@, active),
                ]);
                assert(seq_views(entries@) =~= (mull_all + filter_mapped(
                    seq_views(lines@).take(i as int),
                    exit_node_pass_fn(active),
                )) + seq![exit_node_line_entry(lines@[i as int]@, active)]);
                assert(seq_views(entries@) =~= mull_all + filter_mapped(
                    seq_views(lines@).take(i + 1),
                    exit_node_pass_fn(active),
                ));
            }
        } else {
            proof {
                assert(seq_views(entries@) =~= mull_all + filter_mapped(
                    seq_views(lines@).take(i + 1),
                    exit_node_pass_fn(active),
                ));
            }
        }
    }
    proof {
        assert(seq_views(lines@).take(n as int) =~= seq_views(lines@));
    }
    sort_by_first_token(entries)
}

/// A decimal digit.
pub open spec fn is_digit(c: char) -> bool {
    '0' <= c && c <= '9'
}

/// The end of the digit run at or after `from`: the first index not
/// holding a digit, or `s.len()`.
pub open spec fn digit_run_end(s: Seq<char>, from: int) -> int
    decreases s.len() + 1 - from,
{
    if from < 0 || from >= s.len() {
        s.len() as int
    } else if is_digit(s[from]) {
        digit_run_end(s, from + 1)
    } else {
        from
    }
}

/// The length of the dotted-quad address at index `i` of `s`, if one
/// stands there: four runs of one to three digits, separated by single
/// dots, each run ending where its digits end.
pub open spec fn quad_len_at(s: Seq<char>, i: int) -> Option<int> {
    let e1 = digit_run_end(s, i);
    let e2 = digit_run_end(s, e1 + 1);
    let e3 = digit_run_end(s, e2 + 1);
    let e4 = digit_run_end(s, e3 + 1);
    if i < e1 <= i + 3 && e1 < s.len() && s[e1] == '.' && e1 + 1 < e2 <= e1 + 4 && e2 < s.len()
        && s[e2] == '.' && e2 + 1 < e3 <= e2 + 4 && e3 < s.len() && s[e3] == '.' && e3 + 1 < e4
        <= e3 + 4 {
        Option::Some(e4 - i)
    } else {
        Option::None
    }
}

/// A dotted-quad address delimited by word boundaries stands at index `i`.
pub open spec fn ip_at(s: Seq<char>, i: int) -> bool {
    0 <= i && match quad_len_at(s, i) {
        Option::Some(l) => !word_at(s, i - 1) && !word_at(s, i + l),
        Option::None => false,
    }
}

/// The first index at or after `from` where an address stands, or
/// `s.len()`.
pub open spec fn first_ip_from(s: Seq<char>, from: int) -> int
    decreases s.len() + 1 - from,
{
    if from < 0 || from >= s.len() {
        s.len() as int
    } else if ip_at(s, from) {
        from
    } else {
        first_ip_from(s, from + 1)
    }
}

/// The node address a selected entry holds: the leftmost dotted-quad
/// delimited by word boundaries.
pub open spec fn node_ip_of(s: Seq<char>) -> Option<Seq<char>> {
    let i = first_ip_from(s, 0);
    if i == s.len() {
        Option::None
    } else {
        match quad_len_at(s, i) {
            Option::Some(l) => Option::Some(s.subrange(i, i + l)),
            Option::None => Option::None,
        }
    }
}

/// Where the end of a digit run is known, that is what [`digit_run_end`]
/// finds.
proof fn lemma_digit_run_end_is(s: Seq<char>, a: int, b: int)
    requires
        0 <= a <= b <= s.len(),
        forall|k: int| a <= k < b ==> is_digit(#[trigger] s[k]),
        b < s.len() ==> !is_digit(s[b]),
    ensures
        digit_run_end(s, a) == b,
    decreases b - a,
{
    if a < b {
        lemma_digit_run_end_is(s, a + 1, b);
    }
}

/// Every character before the end of a digit run is a digit, and the run
/// stops at a non-digit or the end.
proof fn lemma_digit_run_end_chars(s: Seq<char>, a: int)
    requires
        0 <= a <= s.len(),
    ensures
        a <= digit_run_end(s, a) <= s.len(),
        forall|k: int| a <= k < digit_run_end(s, a) ==> is_digit(#[trigger] s[k]),
        digit_run_end(s, a) < s.len() ==> !is_digit(s[digit_run_end(s, a)]),
    decreases s.len() + 1 - a,
{
    if a < s.len() && is_digit(s[a]) {
        lemma_digit_run_end_chars(s, a + 1);
    }
}

/// Where the first address at or after `from` is known, that is what
/// [`first_ip_from`] finds.
proof fn lemma_first_ip_from_is(s: Seq<char>, from: int, j: int)
    requires
        0 <= from <= j < s.len(),
        ip_at(s, j),
        forall|k: int| from <= k < j ==> !ip_at(s, k),
    ensures
        first_ip_from(s, from) == j,
    decreases j - from,
{
    if from < j {
        lemma_first_ip_from_is(s, from + 1, j);
    }
}

/// Round trip of the node address: in a rendered entry made of a prefix
/// without digits, the address, and a tail that starts with a non-word
/// character, the leftmost dotted-quad is exactly that address.
pub proof fn lemma_node_ip_round_trip(pre: Seq<char>, ip: Seq<char>, post: Seq<char>)
    requires
        quad_len_at(ip, 0) == Option::Some(ip.len() as int),
        forall|i: int| 0 <= i < pre.len() ==> !is_digit(#[trigger] pre[i]),
        pre.len() > 0,
        !is_word(pre[pre.len() - 1]),
        post.len() > 0,
        !is_word(post[0]),
    ensures
        node_ip_of(pre + ip + post) == Option::Some(ip),
{
    let d = pre + ip + post;
    let p0 = pre.len() as int;
    let m = ip.len() as int;
    assert forall|q: int| 0 <= q < m implies #[trigger] d[p0 + q] == ip[q] by {}
    assert(d[p0 + m] == post[0]);
    // the four digit runs of the address map into the entry
    let e1 = digit_run_end(ip, 0);
    let e2 = digit_run_end(ip, e1 + 1);
    let e3 = digit_run_end(ip, e2 + 1);
    let e4 = digit_run_end(ip, e3 + 1);
    lemma_digit_run_end_chars(ip, 0);
    lemma_digit_run_end_chars(ip, e1 + 1);
    lemma_digit_run_end_chars(ip, e2 + 1);
    lemma_digit_run_end_chars(ip, e3 + 1);
    assert(e4 == m);
    assert(!is_digit(post[0])) by {
        if is_digit(post[0]) {
            assert(is_word(post[0]));
        }
    }
    assert(digit_run_end(d, p0) == p0 + e1) by {
        assert forall|k: int| p0 <= k < p0 + e1 implies is_digit(#[trigger] d[k]) by {
            assert(d[k] == ip[k - p0]);
        }
        assert(d[p0 + e1] == ip[e1]);
        lemma_digit_run_end_is(d, p0, p0 + e1);
    }
    assert(digit_run_end(d, p0 + e1 + 1) == p0 + e2) by {
        assert forall|k: int| p0 + e1 + 1 <= k < p0 + e2 implies is_digit(#[trigger] d[k]) by {
            assert(d[k] == ip[k - p0]);
        }
        assert(d[p0 + e2] == ip[e2]);
        lemma_digit_run_end_is(d, p0 + e1 + 1, p0 + e2);
    }
    assert(digit_run_end(d, p0 + e2 + 1) == p0 + e3) by {
        assert forall|k: int| p0 + e2 + 1 <= k < p0 + e3 implies is_digit(#[trigger] d[k]) by {
            assert(d[k] == ip[k - p0]);
        }
        assert(d[p0 + e3] == ip[e3]);
        lemma_digit_run_end_is(d, p0 + e2 + 1, p0 + e3);
    }
    assert(digit_run_end(d, p0 + e3 + 1) == p0 + e4) by {
        assert forall|k: int| p0 + e3 + 1 <= k < p0 + e4 implies is_digit(#[trigger] d[k]) by {
            assert(d[k] == ip[k - p0]);
        }
        lemma_digit_run_end_is(d, p0 + e3 + 1, p0 + e4);
    }
    assert(quad_len_at(d, p0) == Option::Some(m)) by {
        assert(d[p0 + e1] == ip[e1]);
        assert(d[p0 + e2] == ip[e2]);
        assert(d[p0 + e3] == ip[e3]);
    }
    assert(ip_at(d, p0)) by {
        assert(d[p0 - 1] == pre[p0 - 1]);
        assert(!word_at(d, p0 - 1));
        assert(!word_at(d, p0 + m));
    }
    assert forall|i: int| 0 <= i < p0 implies !ip_at(d, i) by {
        assert(d[i] == pre[i]);
        assert(!is_digit(d[i]));
        lemma_digit_run_end_chars(d, i);
        assert(digit_run_end(d, i) == i);
    }
    lemma_first_ip_from_is(d, 0, p0);
    assert(d.subrange(p0, p0 + m) =~= ip);
}

/// Round trip of the node address through a rendered Mullvad entry: the
/// address read back out of the entry is the one it was rendered from,
/// whenever the icon and country hold no digits.
pub proof fn lemma_mullvad_entry_ip_round_trip(
    icon: Seq<char>,
    country: Seq<char>,
    ip: Seq<char>,
    name: Seq<char>,
)
    requires
        quad_len_at(ip, 0) == Option::Some(ip.len() as int),
        forall|i: int| 0 <= i < icon.len() ==> !is_digit(#[trigger] icon[i]),
        forall|i: int| 0 <= i < country.len() ==> !is_digit(#[trigger] country[i]),
        icon.len() > 0,
    ensures
        node_ip_of(
            format_entry_spec(
                "mullvad"@,
                icon,
                pad_right_spec(country, 15) + seq![' ', '-', ' '] + pad_right_spec(ip, 16)
                    + seq![' '] + name,
            ),
        ) == Option::Some(ip),
{
    let d = format_entry_spec(
        "mullvad"@,
        icon,
        pad_right_spec(country, 15) + seq![' ', '-', ' '] + pad_right_spec(ip, 16) + seq![' ']
            + name,
    );
    let cpad = pad_right_spec(country, 15);
    let pre = pad_right_spec("mullvad"@, 10) + seq!['-', ' '] + icon + seq![' '] + cpad + seq![
        ' ',
        '-',
        ' ',
    ];
    // an address is at most fifteen characters, so the width-16 column
    // leaves at least one space after it
    let e1 = digit_run_end(ip, 0);
    let e2 = digit_run_end(ip, e1 + 1);
    let e3 = digit_run_end(ip, e2 + 1);
    assert(ip.len() <= 15);
    let post = Seq::new((16 - ip.len()) as nat, |i: int| ' ') + seq![' '] + name;
    assert(pad_right_spec(ip, 16) =~= ip + Seq::new((16 - ip.len()) as nat, |i: int| ' '));
    assert(d =~= pre + ip + post);
    assert forall|i: int| 0 <= i < pre.len() implies !is_digit(#[trigger] pre[i]) by {
        reveal_strlit("mullvad");
        let mpad = pad_right_spec("mullvad"@, 10);
        if i < 10 {
            assert(pre[i] == mpad[i]);
            if i < 7 {
                assert(mpad[i] == "mullvad"@[i]);
            } else {
                assert(mpad[i] == ' ');
            }
        } else if i < 12 {
        } else if i < 12 + icon.len() {
            assert(pre[i] == icon[i - 12]);
        } else if i == 12 + icon.len() {
            assert(pre[i] == ' ');
        } else if i < 13 + icon.len() + cpad.len() {
            assert(pre[i] == cpad[i - 13 - icon.len()]);
            if i - 13 - icon.len() < country.len() {
                assert(cpad[i - 13 - icon.len()] == country[i - 13 - icon.len()]);
            } else {
                assert(cpad[i - 13 - icon.len()] == ' ');
            }
        }
    }
    assert(pre[pre.len() - 1] == ' ');
    assert(post[0] == ' ');
    lemma_node_ip_round_trip(pre, ip, post);
}

/// The end of the digit run at or after `from`.
fn digit_run_end_exec(s: &str, from: usize) -> (r: usize)
    requires
        from <= s@.len(),
    ensures
        r == digit_run_end(s@, from as int),
        from <= r <= s@.len(),
{
    let n = s.unicode_len();
    let mut k = from;
    while k < n && '0' <= s.get_char(k) && s.get_char(k) <= '9'
        invariant
            from <= k <= n,
            n == s@.len(),
            digit_run_end(s@, from as int) == digit_run_end(s@, k as int),
        decreases n - k,
    {
        k = k + 1;
    }
    k
}

/// The length of the dotted-quad at index `i`, if one stands there.
fn quad_len_at_exec(s: &str, i: usize) -> (r: Option<usize>)
    requires
        i <= s@.len(),
    ensures
        match r {
            Some(l) => quad_len_at(s@, i as int) == Option::Some(l as int) && i + l <= s@.len(),
            None => quad_len_at(s@, i as int) is None,
        },
{
    let n = s.unicode_len();
    let e1 = digit_run_end_exec(s, i);
    if !(i < e1 && e1 - i <= 3 && e1 < n && s.get_char(e1) == '.') {
        return Option::None;
    }
    let e2 = digit_run_end_exec(s, e1 + 1);
    if !(e1 + 1 < e2 && e2 - e1 <= 4 && e2 < n && s.get_char(e2) == '.') {
        return Option::None;
    }
    let e3 = digit_run_end_exec(s, e2 + 1);
    if !(e2 + 1 < e3 && e3 - e2 <= 4 && e3 < n && s.get_char(e3) == '.') {
        return Option::None;
    }
    let e4 = digit_run_end_exec(s, e3 + 1);
    if !(e3 + 1 < e4 && e4 - e3 <= 4) {
        return Option::None;
    }
    Option::Some(e4 - i)
}

/// Does an address delimited by word boundaries stand at index `i`?
fn ip_at_exec(s: &str, i: usize) -> (r: bool)
    requires
        i <= s@.len(),
    ensures
        r == ip_at(s@, i as int),
{
    let n = s.unicode_len();
    match quad_len_at_exec(s, i) {
        Option::Some(l) => {
            let before = i > 0 && is_word_char(s.get_char(i - 1));
            let after = i + l < n && is_word_char(s.get_char(i + l));
            !before && !after
        },
        Option::None => false,
    }
}

/// Reads the node address back out of a selected entry.
pub fn extract_node_ip(action: &str) -> (r: Option<String>)
    ensures
        match r {
            Some(ip) => node_ip_of(action@) == Option::Some(ip@),
            None => node_ip_of(action@) is None,
        },
{
    let n = action.unicode_len();
    let mut i: usize = 0;
    while i < n && !ip_at_exec(action, i)
        invariant
            i <= n,
            n == action@.len(),
            first_ip_from(action@, 0) == first_ip_from(action@, i as int),
        decreases n - i,
    {
        i = i + 1;
    }
    if i == n {
        return Option::None;
    }
    match quad_len_at_exec(action, i) {
        Option::Some(l) => Option::Some(substring(action, i, i + l)),
        Option::None => Option::None,
    }
}

/// The two invocations that set a selected entry's node as the exit node:
/// bring the service up, then set the node with LAN access kept; none when
/// the entry holds no address.
pub fn set_exit_node(action: &str) -> (r: Option<(Vec<String>, Vec<String>)>)
    ensures
        match r {
            Some(cmds) => node_ip_of(action@) matches Option::Some(ip) && seq_views(cmds.0@)
                == seq!["up"@] && seq_views(cmds.1@) == seq![
                "set"@,
                "--exit-node"@,
                ip,
                "--exit-node-allow-lan-access=true"@,
            ],
            None => node_ip_of(action@) is None,
        },
{
    match extract_node_ip(action) {
        Option::Some(ip) => {
            let ghost ipview = ip@;
            let mut up: Vec<String> = Vec::new();
            up.push(String::from_str("up"));
            let mut set: Vec<String> = Vec::new();
            set.push(String::from_str("set"));
            set.push(String::from_str("--exit-node"));
            set.push(ip);
            set.push(String::from_str("--exit-node-allow-lan-access=true"));
            proof {
                assert(seq_views(up@) =~= seq!["up"@]);
                assert(seq_views(set@) =~= seq![
                    "set"@,
                    "--exit-node"@,
                    ipview,
                    "--exit-node-allow-lan-access=true"@,
                ]);
            }
            Option::Some((up, set))
        },
        Option::None => Option::None,
    }
}

/// Is some status line reporting an active exit node?
pub fn is_exit_node_active(lines: &Vec<String>) -> (r: bool)
    ensures
        r == exists|i: int|
            0 <= i < lines@.len() && contains_sub(#[trigger] lines@[i]@, "active; exit node;"@),
{
    let n = lines.len();
    for i in 0..n
        invariant
            n == lines@.len(),
            forall|k: int| 0 <= k < i ==> !contains_sub(#[trigger] lines@[k]@, "active; exit node;"@),
    {
        if contains_str(lines[i].as_str(), "active; exit node;") {
            return true;
        }
    }
    false
}

/// Is the service running, given the status query's success and output?
/// A stopped service reports itself in the output.
pub fn is_tailscale_enabled(success: bool, output: &str) -> (r: bool)
    ensures
        r == (success && !contains_sub(output@, "Tailscale is stopped"@)),
{
    success && !contains_str(output, "Tailscale is stopped")
}

/// Looks a country's flag glyph up in the fixed table.
pub fn get_flag(country: &str) -> (r: &'static str)
    ensures
        r@ == flag_of(country@),
{
    crate::mullvad::get_flag(country)
}

/// The `tailscale` invocations a control action leads to, in order: none
/// when an exit-node entry holds no address.
pub fn handle_tailscale_action(action: &TailscaleAction) -> (r: Option<Vec<Vec<String>>>)
    ensures
        match action {
            TailscaleAction::DisableExitNode => r matches Some(cmds) && cmds@.len() == 1
                && seq_views(cmds@[0]@) == seq!["set"@, "--exit-node="@],
            TailscaleAction::SetEnable(enable) => r matches Some(cmds) && cmds@.len() == 1
                && seq_views(cmds@[0]@) == seq![if *enable { "up"@ } else { "down"@ }],
            TailscaleAction::SetShields(enable) => r matches Some(cmds) && cmds@.len() == 1
                && seq_views(cmds@[0]@) == seq![
                "set"@,
                "--shields-up"@,
                if *enable { "true"@ } else { "false"@ },
            ],
            TailscaleAction::SetExitNode(node) => match r {
                Some(cmds) => node_ip_of(node@) matches Option::Some(ip) && cmds@.len() == 2
                    && seq_views(cmds@[0]@) == seq!["up"@] && seq_views(cmds@[1]@) == seq![
                    "set"@,
                    "--exit-node"@,
                    ip,
                    "--exit-node-allow-lan-access=true"@,
                ],
                None => node_ip_of(node@) is None,
            },
        },
{
    match action {
        TailscaleAction::DisableExitNode => {
            let mut cmd: Vec<String> = Vec::new();
            cmd.push(String::from_str("set"));
            cmd.push(String::from_str("--exit-node="));
            proof {
                assert(seq_views(cmd@) =~= seq!["set"@, "--exit-node="@]);
            }
            let mut cmds: Vec<Vec<String>> = Vec::new();
            cmds.push(cmd);
            Option::Some(cmds)
        },
        TailscaleAction::SetEnable(enable) => {
            let mut cmd: Vec<String> = Vec::new();
            cmd.push(
                if *enable {
                    String::from_str("up")
                } else {
                    String::from_str("down")
                },
            );
            proof {
                if *enable {
                    assert(seq_views(cmd@) =~= seq!["up"@]);
                } else {
                    assert(seq_views(cmd@) =~= seq!["down"@]);
                }
            }
            let mut cmds: Vec<Vec<String>> = Vec::new();
            cmds.push(cmd);
            Option::Some(cmds)
        },
        TailscaleAction::SetShields(enable) => {
            let mut cmd: Vec<String> = Vec::new();
            cmd.push(String::from_str("set"));
            cmd.push(String::from_str("--shields-up"));
            cmd.push(
                if *enable {
                    String::from_str("true")
                } else {
                    String::from_str("false")
                },
            );
            proof {
                if *enable {
                    assert(seq_views(cmd@) =~= seq!["set"@, "--shields-up"@, "true"@]);
                } else {
                    assert(seq_views(cmd@) =~= seq!["set"@, "--shields-up"@, "false"@]);
                }
            }
            let mut cmds: Vec<Vec<String>> = Vec::new();
            cmds.push(cmd);
            Option::Some(cmds)
        },
        TailscaleAction::SetExitNode(node) => match set_exit_node(node.as_str()) {
            Option::Some(pair) => {
                let (up, set) = pair;
                let mut cmds: Vec<Vec<String>> = Vec::new();
                cmds.push(up);
                cmds.push(set);
                Option::Some(cmds)
            },
            Option::None => Option::None,
        },
    }
}

} // verus!
