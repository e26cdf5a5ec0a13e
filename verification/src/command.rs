//! Decoding captured command output into lines.

use vstd::prelude::*;

verus! {

use crate::text::{seq_views, split_char, split_sep, substring};

/// A line without its trailing carriage return, if it has one.
pub open spec fn strip_cr(l: Seq<char>) -> Seq<char> {
    if l.len() > 0 && l.last() == '\r' {
        l.drop_last()
    } else {
        l
    }
}

/// The lines of a text, as `BufRead::lines` reads them: split at every
/// newline, no final empty line when the text ends with a newline, and a
/// carriage return stripped only where it stood before a newline — a final
/// line not closed by one keeps its carriage return.
pub open spec fn lines_spec(s: Seq<char>) -> Seq<Seq<char>> {
    let raw = split_sep(s, '\n');
    if raw.len() > 0 && raw.last().len() == 0 {
        raw.drop_last().map_values(|l: Seq<char>| strip_cr(l))
    } else {
        raw.map(
            |i: int, l: Seq<char>|
                if i < raw.len() - 1 {
                    strip_cr(l)
                } else {
                    l
                },
        )
    }
}

/// Splits decoded command output into its lines.
pub fn read_output_lines(text: &str) -> (r: Vec<String>)
    ensures
        seq_views(r@) == lines_spec(text@),
{
    let mut parts = split_char(text, '\n');
    let mut ended_with_newline = false;
    if parts.len() > 0 && parts[parts.len() - 1].as_str().unicode_len() == 0 {
        proof {
            assert(seq_views(parts@).last() == parts@.last()@);
        }
        parts.pop();
        ended_with_newline = true;
        proof {
            assert(seq_views(parts@) =~= split_sep(text@, '\n').drop_last());
        }
    }
    let ghost cut = seq_views(parts@);
    let mut r: Vec<String> = Vec::new();
    let n = parts.len();
    for i in 0..n
        invariant
            n == parts@.len(),
            cut == seq_views(parts@),
            r@.len() == i,
            forall|k: int|
                0 <= k < i ==> r@[k]@ == (if ended_with_newline || k < n - 1 {
                    strip_cr(cut[k])
                } else {
                    cut[k]
                }),
    {
        let p = &parts[i];
        let m = p.as_str().unicode_len();
        if (ended_with_newline || i + 1 < n) && m > 0 && p.as_str().get_char(m - 1) == '\r' {
            r.push(substring(p.as_str(), 0, m - 1));
            proof {
                assert(p@.subrange(0, m - 1) =~= p@.drop_last());
            }
        } else {
            r.push(p.clone());
        }
        proof {
            assert(cut[i as int] == parts@[i as int]@);
        }
    }
    proof {
        assert(seq_views(r@) =~= lines_spec(text@));
    }
    r
}

} // verus!
