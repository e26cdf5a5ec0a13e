//! Verified character-level text utilities shared by the per-tool parsers:
//! whitespace tests, equality, substring search, splitting, trimming and
//! padding, all specified over `Seq<char>` views.

use vstd::prelude::*;

verus! {

/// A character with the Unicode `White_Space` property, the set that
/// `char::is_whitespace` recognises.
pub open spec fn is_ws(c: char) -> bool {
    ||| c == ' '
    ||| ('\u{9}' <= c && c <= '\u{d}')
    ||| c == '\u{85}'
    ||| c == '\u{a0}'
    ||| c == '\u{1680}'
    ||| ('\u{2000}' <= c && c <= '\u{200a}')
    ||| c == '\u{2028}'
    ||| c == '\u{2029}'
    ||| c == '\u{202f}'
    ||| c == '\u{205f}'
    ||| c == '\u{3000}'
}

/// Runtime test for [`is_ws`].
pub fn is_ws_char(c: char) -> (r: bool)
    ensures
        r == is_ws(c),
{
    c == ' ' || ('\u{9}' <= c && c <= '\u{d}') || c == '\u{85}' || c == '\u{a0}'
        || c == '\u{1680}' || ('\u{2000}' <= c && c <= '\u{200a}') || c == '\u{2028}'
        || c == '\u{2029}' || c == '\u{202f}' || c == '\u{205f}' || c == '\u{3000}'
}

/// A character that one byte encodes.
pub open spec fn is_ascii_c(c: char) -> bool {
    (c as u32) < 128
}

/// The first index at or after `from` where `c` occurs in `s`, or `s.len()`
/// when there is none.
pub open spec fn first_char_from(s: Seq<char>, c: char, from: int) -> int
    decreases s.len() - from,
{
    if from < 0 || from >= s.len() {
        s.len() as int
    } else if s[from] == c {
        from
    } else {
        first_char_from(s, c, from + 1)
    }
}

/// The first index at or after `from` where `t` occurs in `s`, or `s.len()`
/// when it occurs nowhere there.
pub open spec fn first_sub_from(s: Seq<char>, t: Seq<char>, from: int) -> int
    decreases s.len() + 1 - from,
{
    if from < 0 || from > s.len() - t.len() {
        s.len() as int
    } else if has_sub_at(s, t, from) {
        from
    } else {
        first_sub_from(s, t, from + 1)
    }
}

/// Where the first occurrence of `c` at or after `from` is known, that is
/// what [`first_char_from`] finds.
pub proof fn lemma_first_char_from_is(s: Seq<char>, c: char, from: int, j: int)
    requires
        0 <= from <= j < s.len(),
        s[j] == c,
        forall|k: int| from <= k < j ==> s[k] != c,
    ensures
        first_char_from(s, c, from) == j,
    decreases j - from,
{
    if from < j {
        lemma_first_char_from_is(s, c, from + 1, j);
    }
}

/// An occurrence of `c` bounds where [`first_char_from`] can end.
pub proof fn lemma_first_char_from_found(s: Seq<char>, c: char, from: int, k: int)
    requires
        0 <= from <= k < s.len(),
        s[k] == c,
    ensures
        from <= first_char_from(s, c, from) <= k,
    decreases k - from,
{
    if s[from] != c {
        lemma_first_char_from_found(s, c, from + 1, k);
    }
}

/// Character-for-character string equality.
pub fn str_eq(a: &str, b: &str) -> (r: bool)
    ensures
        r == (a@ == b@),
{
    let na = a.unicode_len();
    let nb = b.unicode_len();
    if na != nb {
        return false;
    }
    let mut i: usize = 0;
    while i < na
        invariant
            i <= na,
            na == a@.len(),
            na == b@.len(),
            forall|k: int| 0 <= k < i ==> a@[k] == b@[k],
        decreases na - i,
    {
        if a.get_char(i) != b.get_char(i) {
            return false;
        }
        i = i + 1;
    }
    proof {
        assert(a@ =~= b@);
    }
    true
}

/// `t` occurs in `s` starting at index `i`.
pub open spec fn has_sub_at(s: Seq<char>, t: Seq<char>, i: int) -> bool {
    0 <= i && i + t.len() <= s.len() && s.subrange(i, i + t.len()) == t
}

/// `t` occurs somewhere in `s`.
pub open spec fn contains_sub(s: Seq<char>, t: Seq<char>) -> bool {
    exists|i: int| has_sub_at(s, t, i)
}

/// Does `t` occur in `s` starting at index `i`?
pub fn match_at(s: &str, t: &str, i: usize) -> (r: bool)
    ensures
        r == has_sub_at(s@, t@, i as int),
{
    let n = s.unicode_len();
    let m = t.unicode_len();
    if m > n || i > n - m {
        return false;
    }
    let mut j: usize = 0;
    while j < m
        invariant
            j <= m,
            n == s@.len(),
            m == t@.len(),
            i + m <= n,
            forall|l: int| 0 <= l < j ==> s@[i + l] == t@[l],
        decreases m - j,
    {
        if s.get_char(i + j) != t.get_char(j) {
            proof {
                assert(s@.subrange(i as int, i + t@.len())[j as int] == s@[i + j]);
            }
            return false;
        }
        j = j + 1;
    }
    proof {
        assert(s@.subrange(i as int, i + t@.len()) =~= t@);
    }
    true
}

/// Does `t` occur anywhere in `s`?
pub fn contains_str(s: &str, t: &str) -> (r: bool)
    ensures
        r == contains_sub(s@, t@),
{
    let n = s.unicode_len();
    let m = t.unicode_len();
    if m > n {
        return false;
    }
    if m == 0 {
        proof {
            assert(s@.subrange(0, 0) =~= t@);
            assert(has_sub_at(s@, t@, 0));
        }
        return true;
    }
    let mut i: usize = 0;
    while i <= n - m
        invariant
            n == s@.len(),
            m == t@.len(),
            0 < m <= n,
            i <= n - m + 1,
            forall|k: int| 0 <= k < i ==> !has_sub_at(s@, t@, k),
        decreases n - i,
    {
        if match_at(s, t, i) {
            return true;
        }
        i = i + 1;
    }
    false
}

/// The result of [`first_sub_from`] never passes the end of the text.
pub proof fn lemma_first_sub_from_bounds(s: Seq<char>, t: Seq<char>, from: int)
    requires
        0 <= from <= s.len(),
    ensures
        from <= first_sub_from(s, t, from) <= s.len(),
    decreases s.len() + 1 - from,
{
    if t.len() == 0 && !(from > s.len() - t.len()) {
        assert(s.subrange(from, from + t.len()) =~= t);
        assert(has_sub_at(s, t, from));
    } else if !(from > s.len() - t.len()) && !has_sub_at(s, t, from) {
        lemma_first_sub_from_bounds(s, t, from + 1);
    }
}

/// The index of the first occurrence of `t` in `s`, if any.
pub fn find_sub(s: &str, t: &str) -> (r: Option<usize>)
    ensures
        match r {
            Some(i) => first_sub_from(s@, t@, 0) == i as int,
            None => first_sub_from(s@, t@, 0) == s@.len(),
        },
{
    let n = s.unicode_len();
    let m = t.unicode_len();
    if m > n {
        return None;
    }
    if m == 0 {
        proof {
            assert(s@.subrange(0, t@.len() as int) =~= t@);
            assert(has_sub_at(s@, t@, 0));
        }
        return Some(0);
    }
    let mut a: usize = 0;
    while a <= n - m
        invariant
            n == s@.len(),
            m == t@.len(),
            0 < m <= n,
            a <= n - m + 1,
            first_sub_from(s@, t@, 0) == first_sub_from(s@, t@, a as int),
        decreases n - a,
    {
        if match_at(s, t, a) {
            return Some(a);
        }
        a = a + 1;
    }
    None
}

/// Does `s` begin with `p`?
pub fn starts_with_str(s: &str, p: &str) -> (r: bool)
    ensures
        r == has_sub_at(s@, p@, 0),
{
    match_at(s, p, 0)
}

/// The first character of `s` is `c`.
pub open spec fn first_is(s: Seq<char>, c: char) -> bool {
    s.len() > 0 && s[0] == c
}

/// Does `s` begin with the character `c`?
pub fn starts_with_char(s: &str, c: char) -> (r: bool)
    ensures
        r == first_is(s@, c),
{
    s.unicode_len() > 0 && s.get_char(0) == c
}

/// The first index at or after `from` where `c` occurs in `s`, if any.
pub fn find_char_from(s: &str, c: char, from: usize) -> (r: Option<usize>)
    requires
        from <= s@.len(),
    ensures
        match r {
            Some(i) => from <= i < s@.len() && s@[i as int] == c && (forall|k: int|
                from <= k < i ==> s@[k] != c),
            None => forall|k: int| from <= k < s@.len() ==> s@[k] != c,
        },
{
    let n = s.unicode_len();
    let mut i: usize = from;
    while i < n
        invariant
            from <= i <= n,
            n == s@.len(),
            forall|k: int| from <= k < i ==> s@[k] != c,
        decreases n - i,
    {
        if s.get_char(i) == c {
            return Some(i);
        }
        i = i + 1;
    }
    None
}

/// Does `v` hold a string with the characters of `s`?
pub fn vec_contains_str(v: &Vec<String>, s: &str) -> (r: bool)
    ensures
        r == exists|j: int| 0 <= j < v@.len() && (#[trigger] v@[j]@) == s@,
{
    let n = v.len();
    for j in 0..n
        invariant
            n == v@.len(),
            forall|k: int| 0 <= k < j ==> (#[trigger] v@[k]@) != s@,
    {
        if str_eq(v[j].as_str(), s) {
            return true;
        }
    }
    false
}

/// The views of a sequence of strings.
pub open spec fn seq_views(v: Seq<String>) -> Seq<Seq<char>> {
    v.map_values(|x: String| x@)
}

/// Copies the characters `[from, to)` of `s` into an owned string.
pub fn substring(s: &str, from: usize, to: usize) -> (r: String)
    requires
        from <= to <= s@.len(),
    ensures
        r@ == s@.subrange(from as int, to as int),
{
    String::from_str(s.substring_char(from, to))
}

/// The fields of `s` between occurrences of `sep`: always one more field
/// than there are separators, fields may be empty.
pub open spec fn split_sep(s: Seq<char>, sep: char) -> Seq<Seq<char>>
    decreases s.len(),
{
    if s.len() == 0 {
        seq![Seq::<char>::empty()]
    } else if s[0] == sep {
        seq![Seq::<char>::empty()] + split_sep(s.drop_first(), sep)
    } else {
        let rest = split_sep(s.drop_first(), sep);
        seq![seq![s[0]] + rest[0]] + rest.drop_first()
    }
}

pub proof fn lemma_split_sep_len(s: Seq<char>, sep: char)
    ensures
        split_sep(s, sep).len() >= 1,
    decreases s.len(),
{
    if s.len() > 0 {
        lemma_split_sep_len(s.drop_first(), sep);
    }
}

/// Splitting a string whose first separator stands at `i` yields the prefix
/// before `i` and then the fields of what follows it.
pub proof fn lemma_split_sep_at(s: Seq<char>, sep: char, i: int)
    requires
        0 <= i < s.len(),
        s[i] == sep,
        forall|k: int| 0 <= k < i ==> s[k] != sep,
    ensures
        split_sep(s, sep) == seq![s.take(i)] + split_sep(s.skip(i + 1), sep),
    decreases i,
{
    lemma_split_sep_len(s.drop_first(), sep);
    if i == 0 {
        assert(s.take(0) =~= Seq::<char>::empty());
        assert(s.skip(1) =~= s.drop_first());
        assert(split_sep(s, sep) =~= seq![s.take(0)] + split_sep(s.skip(1), sep));
    } else {
        let d = s.drop_first();
        lemma_split_sep_at(d, sep, i - 1);
        let rest = split_sep(d, sep);
        assert(rest[0] == d.take(i - 1));
        assert(seq![s[0]] + d.take(i - 1) =~= s.take(i));
        assert(d.skip(i) =~= s.skip(i + 1));
        assert(split_sep(s, sep) =~= seq![s.take(i)] + split_sep(s.skip(i + 1), sep));
    }
}

/// A string without the separator splits into itself alone.
pub proof fn lemma_split_sep_none(s: Seq<char>, sep: char)
    requires
        forall|k: int| 0 <= k < s.len() ==> s[k] != sep,
    ensures
        split_sep(s, sep) == seq![s],
    decreases s.len(),
{
    if s.len() > 0 {
        lemma_split_sep_none(s.drop_first(), sep);
        assert(seq![s[0]] + s.drop_first() =~= s);
        assert(split_sep(s, sep) =~= seq![s]);
    } else {
        assert(s =~= Seq::<char>::empty());
    }
}

/// Splits `s` at every occurrence of `sep`.
pub fn split_char(s: &str, sep: char) -> (r: Vec<String>)
    ensures
        seq_views(r@) == split_sep(s@, sep),
{
    let n = s.unicode_len();
    let mut r: Vec<String> = Vec::new();
    let mut start: usize = 0;
    let mut i: usize = 0;
    proof {
        assert(s@.skip(0) =~= s@);
    }
    while i < n
        invariant
            start <= i <= n,
            n == s@.len(),
            forall|k: int| start <= k < i ==> s@[k] != sep,
            split_sep(s@, sep) =~= seq_views(r@) + split_sep(s@.skip(start as int), sep),
        decreases n - i,
    {
        if s.get_char(i) == sep {
            let field = substring(s, start, i);
            proof {
                let tail = s@.skip(start as int);
                assert forall|k: int| 0 <= k < i - start implies tail[k] != sep by {
                    assert(tail[k] == s@[start + k]);
                }
                lemma_split_sep_at(tail, sep, i - start);
                assert(tail.take(i - start) =~= s@.subrange(start as int, i as int));
                assert(tail.skip(i - start + 1) =~= s@.skip(i + 1));
            }
            r.push(field);
            proof {
                assert(seq_views(r@) =~= seq_views(r@.drop_last()) + seq![s@.subrange(
                    start as int, i as int)]);
            }
            start = i + 1;
        }
        i = i + 1;
    }
    let field = substring(s, start, n);
    proof {
        let tail = s@.skip(start as int);
        assert forall|k: int| 0 <= k < tail.len() implies tail[k] != sep by {
            assert(tail[k] == s@[start + k]);
        }
        lemma_split_sep_none(tail, sep);
        assert(tail =~= s@.subrange(start as int, n as int));
    }
    r.push(field);
    proof {
        assert(seq_views(r@) =~= seq_views(r@.drop_last()) + seq![s@.subrange(
            start as int, n as int)]);
    }
    r
}

/// `s` without leading whitespace.
pub open spec fn trim_front(s: Seq<char>) -> Seq<char>
    decreases s.len(),
{
    if s.len() > 0 && is_ws(s[0]) {
        trim_front(s.drop_first())
    } else {
        s
    }
}

/// `s` without trailing whitespace.
pub open spec fn trim_back(s: Seq<char>) -> Seq<char>
    decreases s.len(),
{
    if s.len() > 0 && is_ws(s.last()) {
        trim_back(s.drop_last())
    } else {
        s
    }
}

/// `s` without leading and trailing whitespace, as `str::trim` strips it.
pub open spec fn trim_spec(s: Seq<char>) -> Seq<char> {
    trim_back(trim_front(s))
}

pub proof fn lemma_trim_front_skip(s: Seq<char>, i: int)
    requires
        0 <= i <= s.len(),
        forall|k: int| 0 <= k < i ==> is_ws(s[k]),
    ensures
        trim_front(s) == trim_front(s.skip(i)),
    decreases i,
{
    if i > 0 {
        assert(is_ws(s[0]));
        lemma_trim_front_skip(s.drop_first(), i - 1);
        assert(s.drop_first().skip(i - 1) =~= s.skip(i));
    } else {
        assert(s.skip(0) =~= s);
    }
}

pub proof fn lemma_trim_back_take(s: Seq<char>, i: int)
    requires
        0 <= i <= s.len(),
        forall|k: int| i <= k < s.len() ==> is_ws(s[k]),
    ensures
        trim_back(s) == trim_back(s.take(i)),
    decreases s.len() - i,
{
    if i < s.len() {
        assert(is_ws(s.last()));
        lemma_trim_back_take(s.drop_last(), i);
        assert(s.drop_last().take(i) =~= s.take(i));
    } else {
        assert(s.take(i) =~= s);
    }
}

/// Trims leading and trailing whitespace from `s`.
pub fn trim<'a>(s: &'a str) -> (r: &'a str)
    ensures
        r@ == trim_spec(s@),
{
    let n = s.unicode_len();
    let mut a: usize = 0;
    while a < n && is_ws_char(s.get_char(a))
        invariant
            a <= n,
            n == s@.len(),
            forall|k: int| 0 <= k < a ==> is_ws(s@[k]),
        decreases n - a,
    {
        a = a + 1;
    }
    proof {
        lemma_trim_front_skip(s@, a as int);
        if a < n {
            assert(s@.skip(a as int)[0] == s@[a as int]);
        }
        assert(trim_front(s@) == s@.skip(a as int));
    }
    let mut b: usize = n;
    while b > a && is_ws_char(s.get_char(b - 1))
        invariant
            a <= b <= n,
            n == s@.len(),
            forall|k: int| b <= k < n ==> is_ws(s@[k]),
        decreases b,
    {
        b = b - 1;
    }
    proof {
        let f = s@.skip(a as int);
        assert forall|k: int| b - a <= k < f.len() implies is_ws(f[k]) by {
            assert(f[k] == s@[a + k]);
        }
        lemma_trim_back_take(f, b - a);
        if b > a {
            assert(f.take(b - a).last() == s@[b - 1]);
        }
        assert(trim_back(f) == f.take(b - a));
        assert(f.take(b - a) =~= s@.subrange(a as int, b as int));
    }
    s.substring_char(a, b)
}

/// `s` padded on the right with spaces to at least `w` characters, as a
/// left-aligned width-`w` format field pads it.
pub open spec fn pad_right_spec(s: Seq<char>, w: nat) -> Seq<char> {
    if s.len() >= w {
        s
    } else {
        s + Seq::new((w - s.len()) as nat, |i: int| ' ')
    }
}

/// Pads `s` on the right with spaces to at least `w` characters.
pub fn pad_right(s: &str, w: usize) -> (r: String)
    ensures
        r@ == pad_right_spec(s@, w as nat),
{
    let mut r = String::from_str(s);
    let mut len = s.unicode_len();
    proof {
        reveal_strlit(" ");
        assert(r@ =~= s@ + Seq::new(0, |i: int| ' '));
    }
    while len < w
        invariant
            len >= s@.len(),
            len <= w || len == s@.len(),
            r@ =~= s@ + Seq::new((len - s@.len()) as nat, |i: int| ' '),
            " "@ == seq![' '],
        decreases w - len,
    {
        r.append(" ");
        len = len + 1;
        proof {
            assert(r@ =~= s@ + Seq::new((len - s@.len()) as nat, |i: int| ' '));
        }
    }
    r
}

/// The maximal runs of non-whitespace characters of `s`, in order: what
/// `str::split_whitespace` yields.
pub open spec fn ws_tokens(s: Seq<char>) -> Seq<Seq<char>>
    decreases s.len(),
{
    if s.len() == 0 {
        Seq::<Seq<char>>::empty()
    } else if is_ws(s[0]) {
        ws_tokens(s.drop_first())
    } else {
        let rest = ws_tokens(s.drop_first());
        if s.len() > 1 && !is_ws(s[1]) {
            seq![seq![s[0]] + rest[0]] + rest.drop_first()
        } else {
            seq![seq![s[0]]] + rest
        }
    }
}

/// A string that begins with a non-whitespace character has a first token,
/// and that token is the leading run.
pub proof fn lemma_ws_tokens_run(s: Seq<char>, j: int)
    requires
        0 < j <= s.len(),
        forall|k: int| 0 <= k < j ==> !is_ws(s[k]),
        j == s.len() || is_ws(s[j]),
    ensures
        ws_tokens(s) == seq![s.take(j)] + ws_tokens(s.skip(j)),
    decreases j,
{
    let d = s.drop_first();
    if j == 1 {
        if s.len() > 1 {
            assert(is_ws(s[1]));
            assert(ws_tokens(s) == seq![seq![s[0]]] + ws_tokens(d));
            assert(d =~= s.skip(1));
            assert(seq![s[0]] =~= s.take(1));
        } else {
            assert(ws_tokens(d) =~= Seq::<Seq<char>>::empty());
            assert(s.take(1) =~= seq![s[0]]);
            assert(s.skip(1) =~= d);
            assert(ws_tokens(s) =~= seq![s.take(1)] + ws_tokens(s.skip(1)));
        }
    } else {
        assert(!is_ws(d[0]));
        lemma_ws_tokens_run(d, j - 1);
        let rest = ws_tokens(d);
        assert(rest[0] == d.take(j - 1));
        assert(s.len() > 1 && !is_ws(s[1]));
        assert(seq![s[0]] + d.take(j - 1) =~= s.take(j));
        assert(d.skip(j - 1) =~= s.skip(j));
        assert(rest.drop_first() == ws_tokens(s.skip(j)));
        assert(ws_tokens(s) =~= seq![s.take(j)] + ws_tokens(s.skip(j)));
    }
}

/// Leading whitespace does not change the tokens.
pub proof fn lemma_ws_tokens_skip_ws(s: Seq<char>, i: int)
    requires
        0 <= i <= s.len(),
        forall|k: int| 0 <= k < i ==> is_ws(s[k]),
    ensures
        ws_tokens(s) == ws_tokens(s.skip(i)),
    decreases i,
{
    if i > 0 {
        lemma_ws_tokens_skip_ws(s.drop_first(), i - 1);
        assert(s.drop_first().skip(i - 1) =~= s.skip(i));
    } else {
        assert(s.skip(0) =~= s);
    }
}

/// Splits `s` into its whitespace-separated tokens.
pub fn tokens(s: &str) -> (r: Vec<String>)
    ensures
        seq_views(r@) == ws_tokens(s@),
{
    let n = s.unicode_len();
    let mut r: Vec<String> = Vec::new();
    let mut i: usize = 0;
    proof {
        assert(s@.skip(0) =~= s@);
    }
    while i < n
        invariant
            i <= n,
            n == s@.len(),
            ws_tokens(s@) =~= seq_views(r@) + ws_tokens(s@.skip(i as int)),
        decreases n - i,
    {
        if is_ws_char(s.get_char(i)) {
            proof {
                let tail = s@.skip(i as int);
                lemma_ws_tokens_skip_ws(tail, 1);
                assert(tail.skip(1) =~= s@.skip(i + 1));
            }
            i = i + 1;
        } else {
            let start = i;
            let mut j = i + 1;
            while j < n && !is_ws_char(s.get_char(j))
                invariant
                    start < j <= n,
                    n == s@.len(),
                    forall|k: int| start <= k < j ==> !is_ws(s@[k]),
                decreases n - j,
            {
                j = j + 1;
            }
            let tok = substring(s, start, j);
            proof {
                let tail = s@.skip(start as int);
                assert forall|k: int| 0 <= k < j - start implies !is_ws(tail[k]) by {
                    assert(tail[k] == s@[start + k]);
                }
                if (j as int) < n {
                    assert(tail[j - start] == s@[j as int]);
                }
                lemma_ws_tokens_run(tail, j - start);
                assert(tail.take(j - start) =~= s@.subrange(start as int, j as int));
                assert(tail.skip(j - start) =~= s@.skip(j as int));
            }
            r.push(tok);
            proof {
                assert(seq_views(r@) =~= seq_views(r@.drop_last()) + seq![s@.subrange(
                    start as int, j as int)]);
            }
            i = j;
        }
    }
    proof {
        assert(ws_tokens(s@.skip(n as int)) =~= Seq::<Seq<char>>::empty());
        assert(seq_views(r@) + ws_tokens(s@.skip(n as int)) =~= seq_views(r@));
    }
    r
}

/// The first whitespace-separated token of `s`, if any: the sort key the
/// exit-node list is ordered by.
pub open spec fn first_token(s: Seq<char>) -> Option<Seq<char>> {
    if ws_tokens(s).len() > 0 {
        Some(ws_tokens(s)[0])
    } else {
        None
    }
}

/// `a` is lexicographically at most `b`, comparing character code points:
/// the order `str`'s own comparison gives.
pub open spec fn lex_le(a: Seq<char>, b: Seq<char>) -> bool
    decreases a.len(),
{
    if a.len() == 0 {
        true
    } else if b.len() == 0 {
        false
    } else if a[0] == b[0] {
        lex_le(a.drop_first(), b.drop_first())
    } else {
        (a[0] as u32) < (b[0] as u32)
    }
}

/// Key order for the first-token sort: an absent token comes first, present
/// tokens compare lexicographically, as `Option`'s derived order compares.
pub open spec fn first_token_le(a: Seq<char>, b: Seq<char>) -> bool {
    match (first_token(a), first_token(b)) {
        (Option::None, _) => true,
        (Option::Some(_), Option::None) => false,
        (Option::Some(ta), Option::Some(tb)) => lex_le(ta, tb),
    }
}

/// Lexicographic comparison of two strings.
pub fn lex_le_str(a: &str, b: &str) -> (r: bool)
    ensures
        r == lex_le(a@, b@),
{
    let na = a.unicode_len();
    let nb = b.unicode_len();
    let mut i: usize = 0;
    proof {
        assert(a@.skip(0) =~= a@);
        assert(b@.skip(0) =~= b@);
    }
    while i < na && i < nb
        invariant
            i <= na,
            i <= nb,
            na == a@.len(),
            nb == b@.len(),
            lex_le(a@, b@) == lex_le(a@.skip(i as int), b@.skip(i as int)),
        decreases na - i,
    {
        let ca = a.get_char(i);
        let cb = b.get_char(i);
        proof {
            let sa = a@.skip(i as int);
            let sb = b@.skip(i as int);
            assert(sa[0] == a@[i as int]);
            assert(sb[0] == b@[i as int]);
            assert(sa.drop_first() =~= a@.skip(i + 1));
            assert(sb.drop_first() =~= b@.skip(i + 1));
        }
        if ca != cb {
            return (ca as u32) < (cb as u32);
        }
        i = i + 1;
    }
    proof {
        assert(lex_le(a@.skip(i as int), b@.skip(i as int)) == (na - i == 0));
    }
    na <= nb
}

/// The entries with a first token at most `x`'s keep their place, `x`
/// stands before the first strictly greater one: a stable insertion.
pub open spec fn sorted_insert(x: Seq<char>, v: Seq<Seq<char>>) -> Seq<Seq<char>>
    decreases v.len(),
{
    if v.len() == 0 {
        seq![x]
    } else if first_token_le(v[0], x) {
        seq![v[0]] + sorted_insert(x, v.drop_first())
    } else {
        seq![x] + v
    }
}

/// The stable sort of `v` by first token: each entry inserted, in order,
/// after the entries whose key is at most its own.
pub open spec fn stable_sort_by_first_token(v: Seq<Seq<char>>) -> Seq<Seq<char>>
    decreases v.len(),
{
    if v.len() == 0 {
        v
    } else {
        sorted_insert(v.last(), stable_sort_by_first_token(v.drop_last()))
    }
}

/// The first whitespace-separated token of `s`, if any.
pub fn first_token_str(s: &str) -> (r: Option<String>)
    ensures
        match r {
            Some(t) => first_token(s@) == Some(t@),
            None => first_token(s@) is None,
        },
{
    let mut toks = tokens(s);
    if toks.len() > 0 {
        let t = toks.remove(0);
        proof {
            assert(seq_views(toks@.insert(0, t))[0] == t@);
        }
        Some(t)
    } else {
        None
    }
}

/// Key comparison of the first-token sort.
fn first_token_le_str(a: &str, b: &str) -> (r: bool)
    ensures
        r == first_token_le(a@, b@),
{
    let ta = first_token_str(a);
    let tb = first_token_str(b);
    match (ta, tb) {
        (Option::None, _) => true,
        (Option::Some(_), Option::None) => false,
        (Option::Some(x), Option::Some(y)) => lex_le_str(x.as_str(), y.as_str()),
    }
}

/// Any two entries compare one way or the other.
pub proof fn lemma_lex_le_total(a: Seq<char>, b: Seq<char>)
    ensures
        lex_le(a, b) || lex_le(b, a),
    decreases a.len(),
{
    if a.len() > 0 && b.len() > 0 {
        if a[0] == b[0] {
            lemma_lex_le_total(a.drop_first(), b.drop_first());
        } else {
            if (a[0] as u32) == (b[0] as u32) {
                vstd::utf8::char_u32_cast(a[0], a[0] as u32);
                vstd::utf8::char_u32_cast(b[0], b[0] as u32);
                assert(false);
            }
        }
    }
}

/// The lexicographic order is transitive.
pub proof fn lemma_lex_le_trans(a: Seq<char>, b: Seq<char>, c: Seq<char>)
    requires
        lex_le(a, b),
        lex_le(b, c),
    ensures
        lex_le(a, c),
    decreases a.len(),
{
    if a.len() > 0 && b.len() > 0 && c.len() > 0 && a[0] == b[0] && b[0] == c[0] {
        lemma_lex_le_trans(a.drop_first(), b.drop_first(), c.drop_first());
    }
}

/// Any two entries' first-token keys compare one way or the other.
pub proof fn lemma_first_token_le_total(a: Seq<char>, b: Seq<char>)
    ensures
        first_token_le(a, b) || first_token_le(b, a),
{
    match (first_token(a), first_token(b)) {
        (Option::Some(ta), Option::Some(tb)) => lemma_lex_le_total(ta, tb),
        _ => {},
    }
}

/// The first-token key order is transitive.
pub proof fn lemma_first_token_le_trans(a: Seq<char>, b: Seq<char>, c: Seq<char>)
    requires
        first_token_le(a, b),
        first_token_le(b, c),
    ensures
        first_token_le(a, c),
{
    match (first_token(a), first_token(b), first_token(c)) {
        (Option::Some(ta), Option::Some(tb), Option::Some(tc)) => lemma_lex_le_trans(ta, tb, tc),
        _ => {},
    }
}

/// The entries stand in key order: every entry compares at most any later
/// one.
pub open spec fn entries_sorted(r: Seq<Seq<char>>) -> bool {
    forall|i: int, j: int| 0 <= i < j < r.len() ==> first_token_le(#[trigger] r[i], #[trigger] r[j])
}

/// Every entry of a stable insertion is the inserted one or one of the
/// old ones, so a bound below both still bounds them all.
proof fn lemma_sorted_insert_bound(x: Seq<char>, v: Seq<Seq<char>>, b: Seq<char>)
    requires
        first_token_le(b, x),
        forall|k: int| 0 <= k < v.len() ==> first_token_le(b, #[trigger] v[k]),
    ensures
        forall|j: int|
            0 <= j < sorted_insert(x, v).len() ==> first_token_le(
                b,
                #[trigger] sorted_insert(x, v)[j],
            ),
    decreases v.len(),
{
    if v.len() > 0 && first_token_le(v[0], x) {
        assert forall|k: int| 0 <= k < v.drop_first().len() implies first_token_le(
            b,
            #[trigger] v.drop_first()[k],
        ) by {
            assert(v.drop_first()[k] == v[k + 1]);
        }
        lemma_sorted_insert_bound(x, v.drop_first(), b);
        let r = sorted_insert(x, v);
        let rest = sorted_insert(x, v.drop_first());
        assert forall|j: int| 0 <= j < r.len() implies first_token_le(b, #[trigger] r[j]) by {
            if j > 0 {
                assert(r[j] == rest[j - 1]);
            }
        }
    }
}

/// A stable insertion into an ordered sequence leaves it ordered.
proof fn lemma_sorted_insert_sorted(x: Seq<char>, v: Seq<Seq<char>>)
    requires
        entries_sorted(v),
    ensures
        entries_sorted(sorted_insert(x, v)),
    decreases v.len(),
{
    let r = sorted_insert(x, v);
    if v.len() == 0 {
    } else if first_token_le(v[0], x) {
        let d = v.drop_first();
        assert forall|i: int, j: int| 0 <= i < j < d.len() implies first_token_le(
            #[trigger] d[i],
            #[trigger] d[j],
        ) by {
            assert(d[i] == v[i + 1]);
            assert(d[j] == v[j + 1]);
        }
        lemma_sorted_insert_sorted(x, d);
        assert forall|k: int| 0 <= k < d.len() implies first_token_le(v[0], #[trigger] d[k]) by {
            assert(d[k] == v[k + 1]);
        }
        lemma_sorted_insert_bound(x, d, v[0]);
        let rest = sorted_insert(x, d);
        assert forall|i: int, j: int| 0 <= i < j < r.len() implies first_token_le(
            #[trigger] r[i],
            #[trigger] r[j],
        ) by {
            assert(r[j] == rest[j - 1]);
            if i > 0 {
                assert(r[i] == rest[i - 1]);
            } else {
                assert(first_token_le(v[0], rest[j - 1]));
            }
        }
    } else {
        lemma_first_token_le_total(v[0], x);
        assert forall|i: int, j: int| 0 <= i < j < r.len() implies first_token_le(
            #[trigger] r[i],
            #[trigger] r[j],
        ) by {
            if i == 0 {
                assert(r[j] == v[j - 1]);
                if j > 1 {
                    assert(first_token_le(v[0], v[j - 1]));
                    lemma_first_token_le_trans(x, v[0], v[j - 1]);
                }
            } else {
                assert(r[i] == v[i - 1]);
                assert(r[j] == v[j - 1]);
            }
        }
    }
}

/// The stable sort leaves the entries in key order and keeps their number.
pub proof fn lemma_stable_sort_sorted(v: Seq<Seq<char>>)
    ensures
        stable_sort_by_first_token(v).len() == v.len(),
        entries_sorted(stable_sort_by_first_token(v)),
    decreases v.len(),
{
    if v.len() > 0 {
        lemma_stable_sort_sorted(v.drop_last());
        lemma_sorted_insert_sorted(v.last(), stable_sort_by_first_token(v.drop_last()));
        lemma_sorted_insert_len(v.last(), stable_sort_by_first_token(v.drop_last()));
    }
}

/// A stable insertion adds exactly one entry.
proof fn lemma_sorted_insert_len(x: Seq<char>, v: Seq<Seq<char>>)
    ensures
        sorted_insert(x, v).len() == v.len() + 1,
    decreases v.len(),
{
    if v.len() > 0 && first_token_le(v[0], x) {
        lemma_sorted_insert_len(x, v.drop_first());
    }
}

/// Sorts `v` by first whitespace-separated token, keeping the relative
/// order of entries with equal keys.
pub fn sort_by_first_token(v: Vec<String>) -> (r: Vec<String>)
    ensures
        seq_views(r@) == stable_sort_by_first_token(seq_views(v@)),
{
    let mut r: Vec<String> = Vec::new();
    let n = v.len();
    proof {
        assert(seq_views(v@).take(0) =~= Seq::<Seq<char>>::empty());
        assert(seq_views(r@) =~= stable_sort_by_first_token(seq_views(v@).take(0)));
    }
    for i in 0..n
        invariant
            n == v@.len(),
            seq_views(r@) == stable_sort_by_first_token(seq_views(v@).take(i as int)),
    {
        let x = v[i].clone();
        let mut j: usize = 0;
        while j < r.len() && first_token_le_str(r[j].as_str(), x.as_str())
            invariant
                j <= r@.len(),
                x == v@[i as int],
                forall|k: int| 0 <= k < j ==> first_token_le(#[trigger] r@[k]@, x@),
            decreases r@.len() - j,
        {
            j = j + 1;
        }
        proof {
            assert forall|k: int| 0 <= k < j implies first_token_le(
                #[trigger] seq_views(r@)[k],
                x@,
            ) by {
                assert(seq_views(r@)[k] == r@[k]@);
            }
            if (j as int) < r@.len() {
                assert(seq_views(r@)[j as int] == r@[j as int]@);
            }
            lemma_sorted_insert_at(x@, seq_views(r@), j as int);
            assert(seq_views(v@).take(i + 1).drop_last() =~= seq_views(v@).take(i as int));
            assert(seq_views(v@).take(i + 1).last() == v@[i as int]@);
            assert(seq_views(r@.insert(j as int, x)) =~= seq_views(r@).insert(j as int, x@));
        }
        r.insert(j, x);
    }
    proof {
        assert(seq_views(v@).take(n as int) =~= seq_views(v@));
    }
    r
}

/// Inserting at the first position whose key exceeds the new entry's is what
/// [`sorted_insert`] does.
proof fn lemma_sorted_insert_at(x: Seq<char>, v: Seq<Seq<char>>, j: int)
    requires
        0 <= j <= v.len(),
        forall|k: int| 0 <= k < j ==> first_token_le(#[trigger] v[k], x),
        j < v.len() ==> !first_token_le(v[j], x),
    ensures
        sorted_insert(x, v) == v.insert(j, x),
    decreases j,
{
    if v.len() == 0 {
        assert(sorted_insert(x, v) =~= v.insert(0, x));
    } else if j == 0 {
        assert(sorted_insert(x, v) =~= v.insert(0, x));
    } else {
        lemma_sorted_insert_at(x, v.drop_first(), j - 1);
        assert(sorted_insert(x, v) == seq![v[0]] + v.drop_first().insert(j - 1, x));
        assert(seq![v[0]] + v.drop_first().insert(j - 1, x) =~= v.insert(j, x));
    }
}

/// The lines of `lines` that `f` accepts, each replaced by what `f` makes
/// of it, in order.
pub open spec fn filter_mapped(
    lines: Seq<Seq<char>>,
    f: spec_fn(Seq<char>) -> Option<Seq<char>>,
) -> Seq<Seq<char>>
    decreases lines.len(),
{
    if lines.len() == 0 {
        Seq::<Seq<char>>::empty()
    } else {
        let rest = filter_mapped(lines.drop_first(), f);
        match f(lines[0]) {
            Option::Some(d) => seq![d] + rest,
            Option::None => rest,
        }
    }
}

/// One more line extends the filtered entries by that line's entry, if any.
pub proof fn lemma_filter_mapped_push(
    lines: Seq<Seq<char>>,
    f: spec_fn(Seq<char>) -> Option<Seq<char>>,
    x: Seq<char>,
)
    ensures
        filter_mapped(lines.push(x), f) == filter_mapped(lines, f) + (match f(x) {
            Option::Some(d) => seq![d],
            Option::None => Seq::<Seq<char>>::empty(),
        }),
    decreases lines.len(),
{
    reveal_with_fuel(filter_mapped, 3);
    let whole = lines.push(x);
    assert(whole[0] == if lines.len() == 0 { x } else { lines[0] });
    if lines.len() == 0 {
        assert(whole.drop_first() =~= Seq::<Seq<char>>::empty());
        assert(filter_mapped(lines, f) =~= Seq::<Seq<char>>::empty());
        match f(x) {
            Option::Some(d) => {
                assert(filter_mapped(whole, f) =~= filter_mapped(lines, f) + seq![d]);
            },
            Option::None => {
                assert(filter_mapped(whole, f) =~= filter_mapped(lines, f));
            },
        }
    } else {
        lemma_filter_mapped_push(lines.drop_first(), f, x);
        assert(whole.drop_first() =~= lines.drop_first().push(x));
        match f(x) {
            Option::Some(d) => {
                assert(filter_mapped(whole, f) =~= filter_mapped(lines, f) + seq![d]);
            },
            Option::None => {
                assert(filter_mapped(whole, f) =~= filter_mapped(lines, f));
            },
        }
    }
}

/// A word character, as the token boundaries of the pattern matches count
/// them: a letter, a digit or an underscore.
pub open spec fn is_word(c: char) -> bool {
    ('a' <= c && c <= 'z') || ('A' <= c && c <= 'Z') || ('0' <= c && c <= '9') || c == '_'
}

/// A word character stands at index `k` of `s`.
pub open spec fn word_at(s: Seq<char>, k: int) -> bool {
    0 <= k < s.len() && is_word(s[k])
}

/// Runtime test for [`is_word`].
pub fn is_word_char(c: char) -> (r: bool)
    ensures
        r == is_word(c),
{
    ('a' <= c && c <= 'z') || ('A' <= c && c <= 'Z') || ('0' <= c && c <= '9') || c == '_'
}

/// The end of the whitespace run at or after `from`: the first index not
/// holding whitespace, or `s.len()`.
pub open spec fn ws_run_end(s: Seq<char>, from: int) -> int
    decreases s.len() + 1 - from,
{
    if from < 0 || from >= s.len() {
        s.len() as int
    } else if is_ws(s[from]) {
        ws_run_end(s, from + 1)
    } else {
        from
    }
}

/// The first index at or after `from` where two whitespace characters
/// stand together, or `s.len()`.
pub open spec fn first_ws2_from(s: Seq<char>, from: int) -> int
    decreases s.len() + 1 - from,
{
    if from < 0 || from >= s.len() {
        s.len() as int
    } else if is_ws(s[from]) && from + 1 < s.len() && is_ws(s[from + 1]) {
        from
    } else {
        first_ws2_from(s, from + 1)
    }
}

/// The fields of `s` between runs of two or more whitespace characters:
/// how a double-space-delimited table splits into columns.
pub open spec fn split_ws2(s: Seq<char>) -> Seq<Seq<char>>
    decreases s.len(),
{
    let i = first_ws2_from(s, 0);
    if i == s.len() {
        seq![s]
    } else if i + 2 <= ws_run_end(s, i) && ws_run_end(s, i) <= s.len() {
        seq![s.take(i)] + split_ws2(s.skip(ws_run_end(s, i)))
    } else {
        seq![s]
    }
}

/// Splits `s` at every run of two or more whitespace characters.
pub fn split_on_ws_runs(s: &str) -> (r: Vec<String>)
    ensures
        seq_views(r@) == split_ws2(s@),
{
    let n = s.unicode_len();
    let mut r: Vec<String> = Vec::new();
    let mut start: usize = 0;
    let mut i: usize = 0;
    proof {
        assert(s@.skip(0) =~= s@);
    }
    while i < n
        invariant
            start <= i <= n,
            n == s@.len(),
            split_ws2(s@) =~= seq_views(r@) + split_ws2(s@.skip(start as int)),
            first_ws2_from(s@.skip(start as int), 0) == first_ws2_from(
                s@.skip(start as int),
                i - start,
            ),
        decreases n - i,
    {
        let ghost tail = s@.skip(start as int);
        if is_ws_char(s.get_char(i)) && i + 1 < n && is_ws_char(s.get_char(i + 1)) {
            proof {
                assert(tail[i - start] == s@[i as int]);
                assert(tail[i - start + 1] == s@[i + 1]);
                assert(first_ws2_from(tail, i - start) == i - start);
            }
            let field = substring(s, start, i);
            let mut j = i;
            while j < n && is_ws_char(s.get_char(j))
                invariant
                    i <= j <= n,
                    n == s@.len(),
                    start <= i,
                    tail == s@.skip(start as int),
                    ws_run_end(tail, i - start) == ws_run_end(tail, j - start),
                    forall|q: int| i <= q < j ==> is_ws(s@[q]),
                decreases n - j,
            {
                proof {
                    assert(tail[j - start] == s@[j as int]);
                }
                j = j + 1;
            }
            proof {
                if j < n {
                    assert(tail[j - start] == s@[j as int]);
                }
                assert(ws_run_end(tail, j - start) == j - start);
                assert(tail.take(i - start) =~= s@.subrange(start as int, i as int));
                assert(tail.skip(j - start) =~= s@.skip(j as int));
                assert(j >= i + 2);
                assert(split_ws2(tail) == seq![tail.take(i - start)] + split_ws2(
                    tail.skip(j - start),
                ));
            }
            r.push(field);
            proof {
                assert(seq_views(r@) =~= seq_views(r@.drop_last()) + seq![s@.subrange(
                    start as int, i as int)]);
                assert(s@.skip(j as int).skip(0) =~= s@.skip(j as int));
            }
            start = j;
            i = j;
        } else {
            proof {
                assert(tail[i - start] == s@[i as int]);
                if i + 1 < n {
                    assert(tail[i - start + 1] == s@[i + 1]);
                }
            }
            i = i + 1;
        }
    }
    let field = substring(s, start, n);
    proof {
        let tail = s@.skip(start as int);
        assert(first_ws2_from(tail, i - start) == tail.len());
        assert(split_ws2(tail) == seq![tail]);
        assert(tail =~= s@.subrange(start as int, n as int));
    }
    r.push(field);
    proof {
        assert(seq_views(r@) =~= seq_views(r@.drop_last()) + seq![s@.subrange(
            start as int, n as int)]);
    }
    r
}

/// What `str::to_uppercase` returns for the characters of its argument: the
/// result depends on those characters alone.
pub uninterp spec fn upper_of(s: Seq<char>) -> Seq<char>;

/// Relies on `str::to_uppercase`: returns the Unicode uppercase form of the
/// text, a function of the characters alone, named by [`upper_of`].
#[verifier::external_body]
pub(crate) fn to_uppercase(s: &str) -> (r: String)
    ensures
        r@ == upper_of(s@),
{
    s.to_uppercase()
}

} // verus!
