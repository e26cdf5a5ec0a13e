//! Shared helpers: the signal-strength glyph ladder and the password
//! prompt's response parsing.

use vstd::prelude::*;

verus! {

use crate::text::{substring, trim, trim_spec};

/// `s` begins with the `D ` data marker the prompt puts on its data lines.
pub open spec fn d_marked(s: Seq<char>) -> bool {
    s.len() >= 2 && s[0] == 'D' && s[1] == ' '
}

/// `s` without its leading repetitions of the data marker.
pub open spec fn strip_d_prefixes(s: Seq<char>) -> Seq<char>
    decreases s.len(),
{
    if d_marked(s) {
        strip_d_prefixes(s.skip(2))
    } else {
        s
    }
}

/// The password the prompt's response holds: the first line beginning with
/// the data marker, its marker repetitions stripped and the rest trimmed;
/// none when no line begins that way.
pub open spec fn password_of(lines: Seq<Seq<char>>) -> Option<Seq<char>>
    decreases lines.len(),
{
    if lines.len() == 0 {
        Option::None
    } else if d_marked(lines[0]) {
        Option::Some(trim_spec(strip_d_prefixes(lines[0])))
    } else {
        password_of(lines.drop_first())
    }
}

/// Reads the password out of the prompt's response lines.
pub fn parse_password_output(lines: &Vec<String>) -> (r: Option<String>)
    ensures
        match r {
            Some(p) => password_of(lines@.map_values(|l: String| l@)) == Option::Some(p@),
            None => password_of(lines@.map_values(|l: String| l@)) is None,
        },
{
    let ghost views = lines@.map_values(|l: String| l@);
    let n = lines.len();
    proof {
        assert(views.skip(0) =~= views);
    }
    let mut idx: usize = 0;
    while idx < n
        invariant
            idx <= n,
            n == lines@.len(),
            views == lines@.map_values(|l: String| l@),
            password_of(views) == password_of(views.skip(idx as int)),
        decreases n - idx,
    {
        proof {
            let tail = views.skip(idx as int);
            assert(tail[0] == views[idx as int]);
            assert(views[idx as int] == lines@[idx as int]@);
            assert(tail.drop_first() =~= views.skip(idx + 1));
        }
        let line = lines[idx].as_str();
        let m = line.unicode_len();
        if m >= 2 && line.get_char(0) == 'D' && line.get_char(1) == ' ' {
            let mut a: usize = 0;
            proof {
                assert(line@.skip(0) =~= line@);
            }
            while m - a >= 2 && line.get_char(a) == 'D' && line.get_char(a + 1) == ' '
                invariant
                    a <= m,
                    m == line@.len(),
                    strip_d_prefixes(line@) == strip_d_prefixes(line@.skip(a as int)),
                decreases m - a,
            {
                proof {
                    let t = line@.skip(a as int);
                    assert(t[0] == line@[a as int]);
                    assert(t[1] == line@[a + 1]);
                    assert(t.skip(2) =~= line@.skip(a + 2));
                }
                a = a + 2;
            }
            proof {
                let t = line@.skip(a as int);
                if t.len() >= 2 {
                    assert(t[0] == line@[a as int]);
                    assert(t[1] == line@[a + 1]);
                }
                assert(!d_marked(t));
                assert(strip_d_prefixes(t) == t);
                assert(t =~= line@.subrange(a as int, m as int));
            }
            let stripped = substring(line, a, m);
            let password = trim(stripped.as_str());
            return Option::Some(String::from_str(password));
        }
        idx = idx + 1;
    }
    Option::None
}

/// Number of trailing `'*'` characters of a signal field.
pub open spec fn trailing_stars(s: Seq<char>) -> nat
    decreases s.len(),
{
    if s.len() == 0 || s[s.len() - 1] != '*' {
        0
    } else {
        1 + trailing_stars(s.drop_last())
    }
}

/// The four-rung glyph ladder for a given star count: the lowest rung is
/// always shown, each further rung fills once the count reaches it.
pub open spec fn strength_glyphs(stars: nat) -> Seq<char> {
    seq![
        '\u{2582}',
        if stars >= 2 { '\u{2584}' } else { '_' },
        if stars >= 3 { '\u{2586}' } else { '_' },
        if stars >= 4 { '\u{2588}' } else { '_' },
    ]
}

/// How many rungs of a glyph ladder are filled.
pub open spec fn filled_rungs(s: Seq<char>) -> int
    recommends
        s.len() == 4,
{
    (if s[0] != '_' { 1int } else { 0int }) + (if s[1] != '_' { 1int } else { 0int }) + (
    if s[2] != '_' { 1int } else { 0int }) + (if s[3] != '_' { 1int } else { 0int })
}

/// The glyph ladder always has four rungs, and a signal with at least as
/// many trailing stars fills at least as many of them: the ladder is
/// monotone in the star count.
pub proof fn lemma_strength_monotonic(weaker: Seq<char>, stronger: Seq<char>)
    requires
        trailing_stars(weaker) <= trailing_stars(stronger),
    ensures
        strength_glyphs(trailing_stars(weaker)).len() == 4,
        strength_glyphs(trailing_stars(stronger)).len() == 4,
        filled_rungs(strength_glyphs(trailing_stars(weaker))) <= filled_rungs(
            strength_glyphs(trailing_stars(stronger)),
        ),
        forall|i: int|
            0 <= i < 4 && strength_glyphs(trailing_stars(weaker))[i] != '_'
                ==> strength_glyphs(trailing_stars(stronger))[i] != '_',
{
}

/// Converts a star-rating signal field (`"****"`-style, stars trailing) into
/// the four-character glyph ladder.
pub fn convert_network_strength(line: &str) -> (r: String)
    ensures
        r@ == strength_glyphs(trailing_stars(line@)),
        r@.len() == 4,
{
    let n = line.unicode_len();
    proof {
        assert(line@.take(n as int) =~= line@);
    }
    let mut stars: usize = 0;
    while stars < n && line.get_char(n - 1 - stars) == '*'
        invariant
            stars <= n,
            n == line@.len(),
            trailing_stars(line@) == stars + trailing_stars(line@.take(n - stars)),
        decreases n - stars,
    {
        proof {
            let s = line@.take(n - stars as int);
            assert(s[s.len() - 1] == line@[n - 1 - stars as int]);
            assert(s.drop_last() =~= line@.take(n - (stars + 1) as int));
        }
        stars = stars + 1;
    }
    proof {
        let s = line@.take(n - stars as int);
        if s.len() > 0 {
            assert(s[s.len() - 1] == line@[n - 1 - stars as int]);
        }
        assert(trailing_stars(s) == 0);
        reveal_strlit("\u{2582}");
        reveal_strlit("\u{2584}");
        reveal_strlit("\u{2586}");
        reveal_strlit("\u{2588}");
        reveal_strlit("_");
    }
    let mut r = String::from_str("\u{2582}");
    r.append(if stars >= 2 { "\u{2584}" } else { "_" });
    r.append(if stars >= 3 { "\u{2586}" } else { "_" });
    r.append(if stars >= 4 { "\u{2588}" } else { "_" });
    proof {
        assert(r@ =~= strength_glyphs(trailing_stars(line@)));
    }
    r
}

} // verus!

