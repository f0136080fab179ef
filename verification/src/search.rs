//! The search surface: formatting entries into selector lines and reading
//! the selection back. The interactive selector runs outside the library.

use crate::entry::Entry;
use crate::strutil::{
    char_range, chars_to_string, find_char, lemma_find_ch_at, spec_trim_end_in, str_to_chars,
    trim_end_crlf,
};
use vstd::prelude::*;

verus! {

/// A command flattened onto one line: every line break replaced by a
/// space.
pub open spec fn spec_sanitize(s: Seq<char>) -> Seq<char> {
    s.map_values(
        |c: char|
            if c == '\n' || c == '\r' {
                ' '
            } else {
                c
            },
    )
}

/// Replaces line breaks with spaces.
pub fn sanitize_one_line(value: &str) -> (r: String)
    ensures
        r@ == spec_sanitize(value@),
{
    let cs = str_to_chars(value);
    let n: usize = cs.len();
    let mut out: Vec<char> = Vec::new();
    let mut i: usize = 0;
    while i < n
        invariant
            n == cs@.len(),
            cs@ == value@,
            i <= n,
            out@.len() == i,
            forall|j: int| 0 <= j < i ==> out@[j] == spec_sanitize(value@)[j],
        decreases n - i,
    {
        let c = cs[i];
        if c == '\n' || c == '\r' {
            out.push(' ');
        } else {
            out.push(c);
        }
        i = i + 1;
    }
    proof {
        assert(out@ =~= spec_sanitize(value@));
    }
    chars_to_string(out.as_slice())
}

/// The selector line of one entry: its id, a tab, and the flattened
/// command.
pub open spec fn spec_fzf_line(e: crate::entry::EntryModel) -> Seq<char> {
    e.entry_id + seq!['\t'] + spec_sanitize(e.cmd)
}

/// Formats entries into selector lines, ids first so the selection can be
/// traced back.
pub fn format_fzf_lines(entries: &Vec<Entry>) -> (r: Vec<String>)
    ensures
        r.deep_view() == entries.deep_view().map_values(
            |e: crate::entry::EntryModel| spec_fzf_line(e),
        ),
{
    let n: usize = entries.len();
    let mut out: Vec<String> = Vec::new();
    let mut i: usize = 0;
    while i < n
        invariant
            n == entries@.len(),
            i <= n,
            out@.len() == i,
            forall|j: int|
                0 <= j < i ==> #[trigger] out.deep_view()[j] == spec_fzf_line(
                    entries.deep_view()[j],
                ),
        decreases n - i,
    {
        let e = &entries[i];
        let mut line: Vec<char> = str_to_chars(e.entry_id.as_str());
        line.push('\t');
        let sane = sanitize_one_line(e.cmd.as_str());
        let sane_cs = str_to_chars(sane.as_str());
        let mut k: usize = 0;
        let m: usize = sane_cs.len();
        while k < m
            invariant
                m == sane_cs@.len(),
                k <= m,
                line@ == entries@[i as int].entry_id@ + seq!['\t'] + sane_cs@.subrange(
                    0,
                    k as int,
                ),
                i < n,
                n == entries@.len(),
            decreases m - k,
        {
            line.push(sane_cs[k]);
            proof {
                assert(line@ =~= entries@[i as int].entry_id@ + seq!['\t'] + sane_cs@.subrange(
                    0,
                    k + 1,
                ));
            }
            k = k + 1;
        }
        proof {
            assert(sane_cs@.subrange(0, m as int) =~= sane_cs@);
        }
        let ghost prev = out@;
        let ghost prevdv = out.deep_view();
        out.push(chars_to_string(line.as_slice()));
        proof {
            assert(out@ == prev.push(out@[prev.len() as int]));
            assert forall|j: int|
                0 <= j < i + 1 implies #[trigger] out.deep_view()[j] == spec_fzf_line(
                entries.deep_view()[j],
            ) by {
                assert(out.deep_view()[j] == out@[j]@);
                if j < i {
                    assert(out@[j] == prev[j]);
                    assert(prevdv[j] == prev[j]@);
                } else {
                    assert(out@[j]@ =~= spec_fzf_line(entries.deep_view()[i as int]));
                }
            }
        }
        i = i + 1;
    }
    proof {
        assert(out.deep_view() =~= entries.deep_view().map_values(
            |e: crate::entry::EntryModel| spec_fzf_line(e),
        ));
    }
    out
}

/// What a selected line means: the command after the first tab, or the
/// whole line when it carries no tab; an empty selection means nothing.
pub open spec fn spec_selected_cmd(line: Seq<char>) -> Option<Seq<char>> {
    let l = spec_trim_end_in(line, set!['\n', '\r']);
    if l.len() == 0 {
        None
    } else {
        let i = crate::strutil::find_ch(l, '\t');
        if 0 <= i < l.len() {
            let c = l.subrange(i + 1, l.len() as int);
            if c.len() == 0 {
                None
            } else {
                Some(c)
            }
        } else {
            Some(l)
        }
    }
}

/// Reads the command out of the selector's chosen line.
pub fn parse_selected_cmd(selected_line: &str) -> (r: Option<String>)
    ensures
        (match r {
            Some(c) => Some(c@),
            None => None,
        }) == spec_selected_cmd(selected_line@),
{
    let cs = str_to_chars(selected_line);
    let l = trim_end_crlf(cs.as_slice());
    if l.len() == 0 {
        return None;
    }
    match find_char(l.as_slice(), '\t') {
        Some(i) => {
            proof {
                lemma_find_ch_at(l@, '\t', i as int);
            }
            let c = char_range(l.as_slice(), i + 1, l.len());
            if c.len() == 0 {
                None
            } else {
                Some(chars_to_string(c.as_slice()))
            }
        },
        None => {
            proof {
                lemma_find_ch_at(l@, '\t', l@.len() as int);
            }
            Some(chars_to_string(l.as_slice()))
        },
    }
}

} // verus!
