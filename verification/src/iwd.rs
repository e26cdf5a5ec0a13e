//! iwd backend: strips the SGR colour spans iwd marks the connected network
//! with, selects the body of `iwctl station <iface> get-networks` output,
//! parses each network line into a Wi-Fi entry, matches known networks, and
//! builds the argument lists of the connect and disconnect invocations.

use vstd::prelude::*;

verus! {

use crate::text::{
    contains_str, contains_sub, find_sub, first_is, first_sub_from, has_sub_at, is_word,
    is_word_char, match_at, seq_views, starts_with_str, substring, tokens, trim, trim_spec,
    word_at, ws_tokens,
};
use crate::{wifi_entry, wifi_entry_spec, WifiAction};

/// A character the SGR parameter list may hold.
pub open spec fn digit_semi(c: char) -> bool {
    ('0' <= c && c <= '9') || c == ';'
}

/// The SGR reset sequence stands at index `i` of `s`.
pub open spec fn csi_reset_at(s: Seq<char>, i: int) -> bool {
    &&& 0 <= i
    &&& i + 4 <= s.len()
    &&& s[i] == '\u{1b}'
    &&& s[i + 1] == '['
    &&& s[i + 2] == '0'
    &&& s[i + 3] == 'm'
}

/// A coloured span stands at the head of `s`: an SGR start whose parameter
/// list ends at `h`, the shortest stretch of non-newline text after it, and
/// the SGR reset at `e`.
pub open spec fn ansi_head_match(s: Seq<char>, h: int, e: int) -> bool {
    &&& s.len() >= 2
    &&& s[0] == '\u{1b}'
    &&& s[1] == '['
    &&& 2 <= h < s.len()
    &&& s[h] == 'm'
    &&& forall|k: int| 2 <= k < h ==> digit_semi(s[k])
    &&& h + 1 <= e
    &&& csi_reset_at(s, e)
    &&& forall|l: int| h + 1 <= l < e ==> s[l] != '\n'
    &&& forall|l: int| h + 1 <= l < e ==> !csi_reset_at(s, l)
}

/// Does a coloured span stand at the head of `s`?
pub open spec fn has_ansi_head(s: Seq<char>) -> bool {
    exists|h: int, e: int| ansi_head_match(s, h, e)
}

/// Where the coloured span at the head of `s` ends.
pub open spec fn ansi_head_end(s: Seq<char>) -> int {
    let (h, e) = choose|h: int, e: int| ansi_head_match(s, h, e);
    e + 4
}

/// The coloured span at the head of a string is unique: the parameter list
/// runs to the first character outside it, and the reset is the nearest one.
pub proof fn lemma_ansi_head_unique(s: Seq<char>, h1: int, e1: int, h2: int, e2: int)
    requires
        ansi_head_match(s, h1, e1),
        ansi_head_match(s, h2, e2),
    ensures
        h1 == h2,
        e1 == e2,
{
    if h1 < h2 {
        assert(digit_semi(s[h1]));
        assert(false);
    }
    if h2 < h1 {
        assert(digit_semi(s[h2]));
        assert(false);
    }
    if e1 < e2 {
        assert(!csi_reset_at(s, e1));
        assert(false);
    }
    if e2 < e1 {
        assert(!csi_reset_at(s, e2));
        assert(false);
    }
}

/// `s` with every coloured span removed, scanning left to right: what
/// replacing each leftmost span by nothing leaves.
pub open spec fn strip_ansi_spec(s: Seq<char>) -> Seq<char>
    decreases s.len(),
{
    if s.len() == 0 {
        s
    } else if has_ansi_head(s) && 0 < ansi_head_end(s) <= s.len() {
        strip_ansi_spec(s.skip(ansi_head_end(s)))
    } else {
        seq![s[0]] + strip_ansi_spec(s.drop_first())
    }
}

/// Removes every coloured span from `line`.
pub fn strip_ansi(line: &str) -> (r: String)
    ensures
        r@ == strip_ansi_spec(line@),
{
    let n = line.unicode_len();
    let mut out = String::new();
    let mut i: usize = 0;
    proof {
        assert(line@.skip(0) =~= line@);
    }
    while i < n
        invariant
            i <= n,
            n == line@.len(),
            strip_ansi_spec(line@) == out@ + strip_ansi_spec(line@.skip(i as int)),
        decreases n - i,
    {
        let ghost tail = line@.skip(i as int);
        let mut span_end: Option<usize> = Option::None;
        if line.get_char(i) == '\u{1b}' && i + 1 < n && line.get_char(i + 1) == '[' {
            let mut k = i + 2;
            while k < n && (('0' <= line.get_char(k) && line.get_char(k) <= '9')
                || line.get_char(k) == ';')
                invariant
                    i + 2 <= k <= n,
                    n == line@.len(),
                    forall|q: int| i + 2 <= q < k ==> digit_semi(line@[q]),
                decreases n - k,
            {
                k = k + 1;
            }
            if k < n && line.get_char(k) == 'm' {
                let mut e = k + 1;
                let mut found: Option<usize> = Option::None;
                let mut blocked = false;
                while e < n && found.is_none() && !blocked
                    invariant
                        k + 1 <= e <= n,
                        n == line@.len(),
                        found is None && !blocked ==> forall|l: int|
                            k + 1 <= l < e ==> line@[l] != '\n' && !csi_reset_at(line@, l),
                        match found {
                            Option::Some(f) => k + 1 <= f < e && csi_reset_at(line@, f as int)
                                && (forall|l: int|
                                k + 1 <= l < f ==> line@[l] != '\n' && !csi_reset_at(line@, l)),
                            Option::None => true,
                        },
                        blocked ==> exists|l: int|
                            k + 1 <= l < e && line@[l] == '\n' && (forall|q: int|
                                k + 1 <= q < l ==> !csi_reset_at(line@, q)),
                    decreases n - e,
                {
                    if n - e >= 4 && line.get_char(e) == '\u{1b}' && line.get_char(e + 1) == '['
                        && line.get_char(e + 2) == '0' && line.get_char(e + 3) == 'm' {
                        found = Option::Some(e);
                    } else if line.get_char(e) == '\n' {
                        blocked = true;
                    }
                    e = e + 1;
                }
                match found {
                    Option::Some(f) => {
                        span_end = Option::Some(f + 4);
                        proof {
                            let hr = k - i;
                            let er = f - i;
                            assert forall|q: int| 0 <= q < tail.len() implies tail[q] == line@[
                                i + q] by {}
                            assert(csi_reset_at(tail, er)) by {
                                assert(tail[er] == line@[f as int]);
                                assert(tail[er + 1] == line@[f + 1]);
                                assert(tail[er + 2] == line@[f + 2]);
                                assert(tail[er + 3] == line@[f + 3]);
                            }
                            assert(ansi_head_match(tail, hr, er)) by {
                                assert(tail[0] == line@[i as int]);
                                assert(tail[1] == line@[i + 1]);
                                assert(tail[hr] == line@[k as int]);
                                assert forall|q: int| 2 <= q < hr implies digit_semi(tail[q]) by {
                                    assert(tail[q] == line@[i + q]);
                                }
                                assert forall|l: int| hr + 1 <= l < er implies tail[l] != '\n'
                                    && !csi_reset_at(tail, l) by {
                                    assert(tail[l] == line@[i + l]);
                                    assert(line@[i + l] != '\n');
                                    assert(!csi_reset_at(line@, i + l));
                                    if csi_reset_at(tail, l) {
                                        assert(tail[l + 1] == line@[i + l + 1]);
                                        assert(tail[l + 2] == line@[i + l + 2]);
                                        assert(tail[l + 3] == line@[i + l + 3]);
                                        assert(csi_reset_at(line@, i + l));
                                    }
                                }
                            }
                            let (hc, ec) = choose|hc: int, ec: int| ansi_head_match(tail, hc, ec);
                            lemma_ansi_head_unique(tail, hc, ec, hr, er);
                            assert(ansi_head_end(tail) == er + 4);
                            assert(tail.skip(er + 4) =~= line@.skip(f + 4));
                        }
                    },
                    Option::None => {
                        proof {
                            lemma_no_ansi_head_reset(line@, i as int, k as int, e as int, blocked);
                        }
                    },
                }
            } else {
                proof {
                    lemma_no_ansi_head_header(line@, i as int, k as int);
                }
            }
        } else {
            proof {
                if tail.len() >= 2 {
                    assert(tail[0] == line@[i as int]);
                    assert(tail[1] == line@[i + 1]);
                }
                assert(!has_ansi_head(tail)) by {
                    if has_ansi_head(tail) {
                        let (h, e) = choose|h: int, e: int| ansi_head_match(tail, h, e);
                        assert(false);
                    }
                }
            }
        }
        match span_end {
            Option::Some(end) => {
                i = end;
            },
            Option::None => {
                proof {
                    assert(strip_ansi_spec(tail) == seq![tail[0]] + strip_ansi_spec(
                        tail.drop_first(),
                    ));
                    assert(tail[0] == line@[i as int]);
                    assert(tail.drop_first() =~= line@.skip(i + 1));
                }
                out.append(line.substring_char(i, i + 1));
                proof {
                    assert(line@.subrange(i as int, i + 1) =~= seq![line@[i as int]]);
                }
                i = i + 1;
            },
        }
    }
    proof {
        assert(strip_ansi_spec(line@.skip(n as int)) =~= Seq::<char>::empty());
    }
    out
}

/// The index of the first line containing `t` at or after `from`, or the
/// number of lines when none does.
pub open spec fn first_line_containing(lines: Seq<String>, t: Seq<char>, from: int) -> int
    decreases lines.len() + 1 - from,
{
    if from < 0 || from >= lines.len() {
        lines.len() as int
    } else if contains_sub(lines[from]@, t) {
        from
    } else {
        first_line_containing(lines, t, from + 1)
    }
}

/// The body of a network list: everything after the `Available networks`
/// banner and the three header lines that follow it.
pub open spec fn iwd_body(lines: Seq<String>) -> Seq<String> {
    let b = first_line_containing(lines, "Available networks"@, 0);
    if b + 4 <= lines.len() {
        lines.skip(b + 4)
    } else {
        Seq::<String>::empty()
    }
}

/// Selects the network lines of `iwctl station <iface> get-networks`
/// output, dropping the banner and header block before them.
pub fn network_list_body(lines: &Vec<String>) -> (r: Vec<String>)
    ensures
        r@ == iwd_body(lines@),
{
    let n = lines.len();
    let mut b: usize = 0;
    while b < n && !contains_str(lines[b].as_str(), "Available networks")
        invariant
            b <= n,
            n == lines@.len(),
            first_line_containing(lines@, "Available networks"@, 0) == first_line_containing(
                lines@,
                "Available networks"@,
                b as int,
            ),
        decreases n - b,
    {
        b = b + 1;
    }
    let mut r: Vec<String> = Vec::new();
    if b < n && n - b >= 4 {
        let mut i = b + 4;
        while i < n
            invariant
                b + 4 <= i <= n,
                n == lines@.len(),
                r@ == lines@.subrange(b + 4, i as int),
            decreases n - i,
        {
            r.push(lines[i].clone());
            i = i + 1;
            proof {
                assert(r@ =~= lines@.subrange(b + 4, i as int));
            }
        }
        proof {
            assert(lines@.subrange(b + 4, n as int) =~= lines@.skip(b + 4));
        }
    }
    proof {
        assert(r@ =~= iwd_body(lines@));
    }
    r
}

/// Does some raw network line begin with the `'>'` connected marker?
pub fn has_connected_entry(lines: &Vec<String>) -> (r: bool)
    ensures
        r == exists|i: int| 0 <= i < lines@.len() && first_is(#[trigger] lines@[i]@, '>'),
{
    let n = lines.len();
    for i in 0..n
        invariant
            n == lines@.len(),
            forall|k: int| 0 <= k < i ==> !first_is(#[trigger] lines@[k]@, '>'),
    {
        let line = lines[i].as_str();
        if line.unicode_len() > 0 && line.get_char(0) == '>' {
            return true;
        }
    }
    false
}

/// The entry a raw network line yields once its colour spans are stripped:
/// the last whitespace-delimited column is the signal, the one before it
/// the security type, and everything before the security column's first
/// occurrence is the SSID; lines with fewer than three columns yield none.
/// A line opening with the reset sequence marks the connected network.
pub open spec fn parsed_iwd_line(raw: Seq<char>) -> Option<Seq<char>> {
    let line = strip_ansi_spec(raw);
    let toks = ws_tokens(line);
    if toks.len() >= 3 {
        let connected = has_sub_at(raw, "\u{1b}[0m"@, 0);
        let signal = trim_spec(toks.last());
        let security = trim_spec(toks[toks.len() - 2]);
        let f = first_sub_from(line, security, 0);
        let ssid = trim_spec(line.take(f));
        Option::Some(wifi_entry_spec(connected, ssid, security, signal))
    } else {
        Option::None
    }
}

/// The entries a sequence of raw network lines yields, in order.
pub open spec fn parsed_iwd_lines(lines: Seq<Seq<char>>) -> Seq<Seq<char>>
    decreases lines.len(),
{
    if lines.len() == 0 {
        Seq::<Seq<char>>::empty()
    } else {
        let rest = parsed_iwd_lines(lines.drop_first());
        match parsed_iwd_line(lines[0]) {
            Option::Some(d) => seq![d] + rest,
            Option::None => rest,
        }
    }
}

/// One more line extends the parsed entries by that line's entry, if any.
pub proof fn lemma_parsed_iwd_lines_push(lines: Seq<Seq<char>>, x: Seq<char>)
    ensures
        parsed_iwd_lines(lines.push(x)) == parsed_iwd_lines(lines) + (match parsed_iwd_line(x) {
            Option::Some(d) => seq![d],
            Option::None => Seq::<Seq<char>>::empty(),
        }),
    decreases lines.len(),
{
    reveal_with_fuel(parsed_iwd_lines, 3);
    let whole = lines.push(x);
    assert(whole[0] == if lines.len() == 0 { x } else { lines[0] });
    if lines.len() == 0 {
        assert(whole.drop_first() =~= Seq::<Seq<char>>::empty());
        assert(parsed_iwd_lines(lines) =~= Seq::<Seq<char>>::empty());
        match parsed_iwd_line(x) {
            Option::Some(d) => {
                assert(parsed_iwd_lines(whole) =~= parsed_iwd_lines(lines) + seq![d]);
            },
            Option::None => {
                assert(parsed_iwd_lines(whole) =~= parsed_iwd_lines(lines));
            },
        }
    } else {
        lemma_parsed_iwd_lines_push(lines.drop_first(), x);
        assert(whole.drop_first() =~= lines.drop_first().push(x));
        match parsed_iwd_line(x) {
            Option::Some(d) => {
                assert(parsed_iwd_lines(whole) =~= parsed_iwd_lines(lines) + seq![d]);
            },
            Option::None => {
                assert(parsed_iwd_lines(whole) =~= parsed_iwd_lines(lines));
            },
        }
    }
}

/// Appends one Wi-Fi entry per well-formed network line, in line order:
/// a line yields an entry exactly when, colour spans stripped, it still has
/// at least three whitespace-delimited columns.
pub fn parse_iwd_networks(actions: &mut Vec<WifiAction>, networks: Vec<String>)
    ensures
        final(actions)@.len() == old(actions)@.len() + parsed_iwd_lines(
            seq_views(networks@),
        ).len(),
        forall|k: int| 0 <= k < old(actions)@.len() ==> final(actions)@[k] == old(actions)@[k],
        forall|i: int|
            old(actions)@.len() <= i < final(actions)@.len() ==> (#[trigger] final(actions)@[i]
                matches WifiAction::Network(s) && s@ == parsed_iwd_lines(seq_views(networks@))[
                i - old(actions)@.len()]),
{
    let ghost base = actions@;
    let n = networks.len();
    proof {
        assert(seq_views(networks@).take(0) =~= Seq::<Seq<char>>::empty());
    }
    for i in 0..n
        invariant
            n == networks@.len(),
            actions@.len() == base.len() + parsed_iwd_lines(
                seq_views(networks@).take(i as int),
            ).len(),
            forall|k: int| 0 <= k < base.len() ==> actions@[k] == base[k],
            forall|j: int|
                base.len() <= j < actions@.len() ==> (#[trigger] actions@[j]
                    matches WifiAction::Network(s) && s@ == parsed_iwd_lines(
                    seq_views(networks@).take(i as int),
                )[j - base.len()]),
    {
        let raw = &networks[i];
        let ghost prefix = seq_views(networks@).take(i as int);
        proof {
            lemma_parsed_iwd_lines_push(prefix, raw@);
            assert(prefix.push(raw@) =~= seq_views(networks@).take(i + 1));
        }
        let line = strip_ansi(raw.as_str());
        let toks = tokens(line.as_str());
        if toks.len() >= 3 {
            let connected = starts_with_str(raw.as_str(), "\u{1b}[0m");
            let signal = trim(toks[toks.len() - 1].as_str());
            let security = trim(toks[toks.len() - 2].as_str());
            proof {
                assert(seq_views(toks@)[toks@.len() - 1] == toks@[toks@.len() - 1]@);
                assert(seq_views(toks@)[toks@.len() - 2] == toks@[toks@.len() - 2]@);
                assert(seq_views(toks@).last() == toks@[toks@.len() - 1]@);
            }
            let f = match find_sub(line.as_str(), security) {
                Option::Some(f) => f,
                Option::None => line.as_str().unicode_len(),
            };
            proof {
                crate::text::lemma_first_sub_from_bounds(line@, security@, 0);
                assert(line@.take(first_sub_from(line@, security@, 0)) =~= line@.subrange(
                    0,
                    first_sub_from(line@, security@, 0),
                ));
            }
            let ssid = trim(line.as_str().substring_char(0, f));
            let display = wifi_entry(connected, ssid, security, signal);
            actions.push(WifiAction::Network(display));
        }
    }
    proof {
        assert(seq_views(networks@).take(n as int) =~= seq_views(networks@));
    }
}

/// Is the station reported connected by `iwctl station <iface> show`?
pub fn is_iwd_connected(lines: &Vec<String>) -> (r: bool)
    ensures
        r == exists|i: int|
            0 <= i < lines@.len() && contains_sub(#[trigger] lines@[i]@, "Connected"@),
{
    let n = lines.len();
    for i in 0..n
        invariant
            n == lines@.len(),
            forall|k: int| 0 <= k < i ==> !contains_sub(#[trigger] lines@[k]@, "Connected"@),
    {
        if contains_str(lines[i].as_str(), "Connected") {
            return true;
        }
    }
    false
}

/// A word boundary stands before index `k` of `s`.
pub open spec fn boundary(s: Seq<char>, k: int) -> bool {
    word_at(s, k - 1) != word_at(s, k)
}

/// A known-networks line listing `ssid`: the SSID occurs with a word
/// boundary on either side.
pub open spec fn iwd_known_line(line: Seq<char>, ssid: Seq<char>) -> bool {
    exists|a: int|
        #[trigger] has_sub_at(line, ssid, a) && boundary(line, a) && boundary(
            line,
            a + ssid.len(),
        )
}

/// A word boundary stands before index `k` of `line`.
fn boundary_at(line: &str, k: usize) -> (r: bool)
    requires
        k <= line@.len(),
    ensures
        r == boundary(line@, k as int),
{
    let n = line.unicode_len();
    let before = k > 0 && is_word_char(line.get_char(k - 1));
    let here = k < n && is_word_char(line.get_char(k));
    before != here
}

/// Does one line list `ssid` delimited by word boundaries?
fn line_lists_known(line: &str, ssid: &str) -> (r: bool)
    ensures
        r == iwd_known_line(line@, ssid@),
{
    let n = line.unicode_len();
    let m = ssid.unicode_len();
    if m > n {
        proof {
            assert forall|a: int| !has_sub_at(line@, ssid@, a) by {}
        }
        return false;
    }
    if m == 0 {
        let mut a: usize = 0;
        loop
            invariant
                a <= n,
                n == line@.len(),
                m == ssid@.len(),
                m == 0,
                forall|b: int|
                    0 <= b < a ==> !(#[trigger] has_sub_at(line@, ssid@, b) && boundary(line@, b)
                        && boundary(line@, b + m)),
            decreases n - a,
        {
            if boundary_at(line, a) {
                proof {
                    assert(line@.subrange(a as int, a + ssid@.len()) =~= ssid@);
                    assert(has_sub_at(line@, ssid@, a as int));
                }
                return true;
            }
            if a == n {
                proof {
                    assert forall|b: int| a < b implies !has_sub_at(line@, ssid@, b) by {}
                }
                return false;
            }
            a = a + 1;
        }
    }
    let mut a: usize = 0;
    while a <= n - m
        invariant
            n == line@.len(),
            m == ssid@.len(),
            0 < m <= n,
            a <= n - m + 1,
            forall|b: int|
                0 <= b < a ==> !(#[trigger] has_sub_at(line@, ssid@, b) && boundary(line@, b)
                    && boundary(line@, b + m)),
        decreases n - a,
    {
        if match_at(line, ssid, a) && boundary_at(line, a) && boundary_at(line, a + m) {
            return true;
        }
        a = a + 1;
    }
    proof {
        assert forall|b: int| a <= b implies !has_sub_at(line@, ssid@, b) by {}
    }
    false
}

/// Is `ssid` listed among the known networks in the given lines?
pub fn is_known_network(ssid: &str, lines: &Vec<String>) -> (r: bool)
    ensures
        r == exists|i: int| 0 <= i < lines@.len() && iwd_known_line(#[trigger] lines@[i]@, ssid@),
{
    let n = lines.len();
    for i in 0..n
        invariant
            n == lines@.len(),
            forall|k: int| 0 <= k < i ==> !iwd_known_line(#[trigger] lines@[k]@, ssid@),
    {
        if line_lists_known(lines[i].as_str(), ssid) {
            return true;
        }
    }
    false
}

/// The argument list of the connect invocation: the station, the network
/// and, when one was prompted for, the passphrase.
pub fn iwd_connect_command(interface: &str, ssid: &str, passphrase: Option<&str>) -> (r: Vec<
    String,
>)
    ensures
        seq_views(r@) == match passphrase {
            Option::Some(p) => seq![
                "station"@,
                interface@,
                "connect"@,
                ssid@,
                "--passphrase"@,
                p@,
            ],
            Option::None => seq!["station"@, interface@, "connect"@, ssid@],
        },
{
    let mut r: Vec<String> = Vec::new();
    r.push(String::from_str("station"));
    r.push(String::from_str(interface));
    r.push(String::from_str("connect"));
    r.push(String::from_str(ssid));
    match passphrase {
        Option::Some(p) => {
            r.push(String::from_str("--passphrase"));
            r.push(String::from_str(p));
            proof {
                assert(seq_views(r@) =~= seq![
                    "station"@,
                    interface@,
                    "connect"@,
                    ssid@,
                    "--passphrase"@,
                    p@,
                ]);
            }
        },
        Option::None => {
            proof {
                assert(seq_views(r@) =~= seq!["station"@, interface@, "connect"@, ssid@]);
            }
        },
    }
    r
}

/// The argument list of the disconnect invocation.
pub fn iwd_disconnect_command(interface: &str) -> (r: Vec<String>)
    ensures
        seq_views(r@) == seq!["station"@, interface@, "disconnect"@],
{
    let mut r: Vec<String> = Vec::new();
    r.push(String::from_str("station"));
    r.push(String::from_str(interface));
    r.push(String::from_str("disconnect"));
    proof {
        assert(seq_views(r@) =~= seq!["station"@, interface@, "disconnect"@]);
    }
    r
}

/// No coloured span heads the suffix of `line` at `i` when the parameter
/// scan that ran to `k` found no `'m'` there.
proof fn lemma_no_ansi_head_header(line: Seq<char>, i: int, k: int)
    requires
        0 <= i < line.len(),
        i + 2 <= k <= line.len(),
        line[i] == '\u{1b}',
        i + 1 < line.len() && line[i + 1] == '[',
        forall|q: int| i + 2 <= q < k ==> digit_semi(line[q]),
        k == line.len() || (!digit_semi(line[k]) && line[k] != 'm'),
    ensures
        !has_ansi_head(line.skip(i)),
{
    let tail = line.skip(i);
    assert forall|h: int, e: int| !ansi_head_match(tail, h, e) by {
        if ansi_head_match(tail, h, e) {
            assert(tail[h] == line[i + h]);
            if i + h < k {
                assert(digit_semi(line[i + h]));
                assert(false);
            } else if i + h == k {
                assert(false);
            } else {
                assert(k < line.len());
                assert(2 <= k - i < h);
                assert(tail[k - i] == line[k]);
                assert(digit_semi(tail[k - i]));
                assert(false);
            }
        }
    }
}

/// No coloured span heads the suffix of `line` at `i` when the scan after
/// the parameter list found no reset before a newline or the end.
proof fn lemma_no_ansi_head_reset(line: Seq<char>, i: int, k: int, e: int, blocked: bool)
    requires
        0 <= i < line.len(),
        i + 2 <= k < line.len(),
        line[i] == '\u{1b}',
        i + 1 < line.len() && line[i + 1] == '[',
        forall|q: int| i + 2 <= q < k ==> digit_semi(line[q]),
        line[k] == 'm',
        k + 1 <= e <= line.len(),
        !blocked ==> e == line.len() && (forall|l: int|
            k + 1 <= l < e ==> line[l] != '\n' && !csi_reset_at(line, l)),
        blocked ==> exists|l: int|
            k + 1 <= l < e && line[l] == '\n' && (forall|q: int|
                k + 1 <= q < l ==> !csi_reset_at(line, q)),
    ensures
        !has_ansi_head(line.skip(i)),
{
    let tail = line.skip(i);
    assert forall|h: int, er: int| !ansi_head_match(tail, h, er) by {
        if ansi_head_match(tail, h, er) {
            assert forall|q: int| 0 <= q < tail.len() implies tail[q] == line[i + q] by {}
            // the parameter list ends exactly at k
            assert(tail[h] == line[i + h]);
            if i + h < k {
                assert(digit_semi(line[i + h]));
                assert(false);
            }
            if i + h > k {
                assert(2 <= k - i < h);
                assert(digit_semi(tail[k - i]));
                assert(digit_semi(line[k]));
                assert(false);
            }
            assert(i + h == k);
            // a reset at relative er is one at absolute i + er
            assert(csi_reset_at(line, i + er)) by {
                assert(tail[er] == line[i + er]);
                assert(tail[er + 1] == line[i + er + 1]);
                assert(tail[er + 2] == line[i + er + 2]);
                assert(tail[er + 3] == line[i + er + 3]);
            }
            if !blocked {
                assert(k + 1 <= i + er < e);
                assert(!csi_reset_at(line, i + er));
                assert(false);
            } else {
                let l = choose|l: int|
                    k + 1 <= l < e && line[l] == '\n' && (forall|q: int|
                        k + 1 <= q < l ==> !csi_reset_at(line, q));
                if i + er < l {
                    assert(!csi_reset_at(line, i + er));
                    assert(false);
                } else if i + er == l {
                    assert(line[l] == '\u{1b}');
                    assert(false);
                } else {
                    assert(tail[l - i] == line[l]);
                    assert(h + 1 <= l - i < er);
                    assert(tail[l - i] != '\n');
                    assert(false);
                }
            }
        }
    }
}

} // verus!
