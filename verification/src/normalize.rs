//! The Markdown normalizer: a pure function from converter output to the
//! canonical form of a Markdown document.
//!
//! Normalizing works in four steps: runs of three or more line feeds shrink
//! to two; the text is split into lines; every line loses its trailing
//! whitespace and, unless it is structural, its leading whitespace too; the
//! lines are joined by single line feeds and the whole is trimmed.

use crate::normal_form::{is_tidy, is_trimmed, lemma_normalized_shape};
use crate::text::{
    append_chars, from_chars, join, join_lines, lines, split_lines, starts_with, to_chars, trim,
    trim_chars, trim_end, trim_end_chars, views,
};
use vstd::prelude::*;

verus! {

// ---------------------------------------------------------------------------
// Step 1: collapsing runs of line feeds
// ---------------------------------------------------------------------------

/// Whether the character at index `i` is a line feed with two line feeds
/// directly before it, that is the third or a later member of a run.
pub open spec fn is_excess_newline(s: Seq<char>, i: int) -> bool {
    2 <= i < s.len() && s[i] == '\n' && s[i - 1] == '\n' && s[i - 2] == '\n'
}

/// `s` without its excess line feeds: of every run of line feeds the first two
/// stay, so a run of three or more becomes a run of exactly two, and nothing
/// else changes.
pub open spec fn collapse_newlines(s: Seq<char>) -> Seq<char>
    decreases s.len(),
{
    if s.len() == 0 {
        s
    } else if is_excess_newline(s, s.len() - 1) {
        collapse_newlines(s.drop_last())
    } else {
        collapse_newlines(s.drop_last()).push(s.last())
    }
}

/// Whether three line feeds stand in a row somewhere in `s`.
pub open spec fn has_newline_triple(s: Seq<char>) -> bool {
    exists|i: int| is_excess_newline(s, i)
}

/// Removes the excess line feeds of `s`.
pub fn collapse_newline_runs(s: &[char]) -> (out: Vec<char>)
    ensures
        out@ == collapse_newlines(s@),
{
    let mut out: Vec<char> = Vec::new();
    let mut i: usize = 0;
    assert(s@.take(0) =~= Seq::<char>::empty());
    while i < s.len()
        invariant
            i <= s.len(),
            out@ == collapse_newlines(s@.take(i as int)),
        decreases s.len() - i,
    {
        let excess = i >= 2 && s[i] == '\n' && s[i - 1] == '\n' && s[i - 2] == '\n';
        proof {
            let now = s@.take(i + 1);
            assert(now.drop_last() =~= s@.take(i as int));
            assert(now.last() == s@[i as int]);
            assert(excess == is_excess_newline(now, i as int));
        }
        if !excess {
            out.push(s[i]);
        }
        i += 1;
    }
    assert(s@.take(i as int) =~= s@);
    out
}

// ---------------------------------------------------------------------------
// Step 2: tidying each line
// ---------------------------------------------------------------------------

/// Whether `line` opens a block whose indentation carries meaning: it begins
/// with four spaces, a tab, `- `, `* ` or `> `.
pub open spec fn is_structural(line: Seq<char>) -> bool {
    ||| starts_with(line, seq![' ', ' ', ' ', ' '])
    ||| starts_with(line, seq!['\t'])
    ||| starts_with(line, seq!['-', ' '])
    ||| starts_with(line, seq!['*', ' '])
    ||| starts_with(line, seq!['>', ' '])
}

/// A structural line keeps its leading whitespace and loses what trails; any
/// other line loses both.
pub open spec fn tidy_line(line: Seq<char>) -> Seq<char> {
    if is_structural(line) {
        trim_end(line)
    } else {
        trim(line)
    }
}

/// Every line of `ls`, tidied.
pub open spec fn tidy_lines(ls: Seq<Seq<char>>) -> Seq<Seq<char>> {
    Seq::new(ls.len(), |i: int| tidy_line(ls[i]))
}

/// `is_structural`, said of the single characters at the start of the text.
pub open spec fn begins_structurally(s: Seq<char>) -> bool {
    ||| s.len() >= 4 && s[0] == ' ' && s[1] == ' ' && s[2] == ' ' && s[3] == ' '
    ||| s.len() >= 1 && s[0] == '\t'
    ||| s.len() >= 2 && s[1] == ' ' && (s[0] == '-' || s[0] == '*' || s[0] == '>')
}

/// A text is structural exactly if its first characters say so.
pub proof fn lemma_structural_by_chars(s: Seq<char>)
    ensures
        is_structural(s) == begins_structurally(s),
{
    let n = s.len();
    let p4 = seq![' ', ' ', ' ', ' '];
    let pt = seq!['\t'];
    let pd = seq!['-', ' '];
    let ps = seq!['*', ' '];
    let pq = seq!['>', ' '];
    if n >= 4 {
        assert(s.subrange(0, 4)[0] == s[0] && s.subrange(0, 4)[1] == s[1] && s.subrange(0, 4)[2]
            == s[2] && s.subrange(0, 4)[3] == s[3]);
        if s[0] == ' ' && s[1] == ' ' && s[2] == ' ' && s[3] == ' ' {
            assert(s.subrange(0, 4) =~= p4);
        }
    }
    if n >= 1 {
        assert(s.subrange(0, 1)[0] == s[0]);
        if s[0] == '\t' {
            assert(s.subrange(0, 1) =~= pt);
        }
    }
    if n >= 2 {
        assert(s.subrange(0, 2)[0] == s[0] && s.subrange(0, 2)[1] == s[1]);
        if s[1] == ' ' {
            if s[0] == '-' {
                assert(s.subrange(0, 2) =~= pd);
            }
            if s[0] == '*' {
                assert(s.subrange(0, 2) =~= ps);
            }
            if s[0] == '>' {
                assert(s.subrange(0, 2) =~= pq);
            }
        }
    }
    assert(starts_with(s, p4) == (n >= 4 && s[0] == ' ' && s[1] == ' ' && s[2] == ' ' && s[3]
        == ' '));
    assert(starts_with(s, pt) == (n >= 1 && s[0] == '\t'));
    assert(starts_with(s, pd) == (n >= 2 && s[0] == '-' && s[1] == ' '));
    assert(starts_with(s, ps) == (n >= 2 && s[0] == '*' && s[1] == ' '));
    assert(starts_with(s, pq) == (n >= 2 && s[0] == '>' && s[1] == ' '));
}

/// Whether `line` is structural.
pub fn line_is_structural(line: &[char]) -> (b: bool)
    ensures
        b == is_structural(line@),
{
    let n = line.len();
    let four_spaces = n >= 4 && line[0] == ' ' && line[1] == ' ' && line[2] == ' ' && line[3]
        == ' ';
    let tab = n >= 1 && line[0] == '\t';
    let marker = n >= 2 && line[1] == ' ' && (line[0] == '-' || line[0] == '*' || line[0] == '>');
    proof {
        lemma_structural_by_chars(line@);
    }
    four_spaces || tab || marker
}

/// The tidied form of `line`.
pub fn tidy_line_chars<'a>(line: &'a [char]) -> (r: &'a [char])
    ensures
        r@ == tidy_line(line@),
{
    if line_is_structural(line) {
        trim_end_chars(line)
    } else {
        trim_chars(line)
    }
}

// ---------------------------------------------------------------------------
// The whole normalizer
// ---------------------------------------------------------------------------

/// The canonical form of the Markdown text `md`.
pub open spec fn normalized(md: Seq<char>) -> Seq<char> {
    trim(join(tidy_lines(lines(collapse_newlines(md))), seq!['\n']))
}

/// Normalizes the characters of a Markdown document.
pub fn normalize_chars(md: &[char]) -> (out: Vec<char>)
    ensures
        out@ == normalized(md@),
{
    let collapsed = collapse_newline_runs(md);
    let raw_lines = split_lines(collapsed.as_slice());
    let mut tidied: Vec<Vec<char>> = Vec::new();
    let mut i: usize = 0;
    while i < raw_lines.len()
        invariant
            i <= raw_lines.len(),
            views(tidied@) == tidy_lines(views(raw_lines@)).take(i as int),
        decreases raw_lines.len() - i,
    {
        let line = tidy_line_chars(raw_lines[i].as_slice());
        let mut owned: Vec<char> = Vec::new();
        append_chars(&mut owned, line);
        let ghost before = views(tidied@);
        tidied.push(owned);
        i += 1;
        proof {
            assert(owned@ =~= tidy_line(raw_lines@[i - 1]@));
            assert(views(tidied@) =~= before.push(owned@));
            assert(views(tidied@) =~= tidy_lines(views(raw_lines@)).take(i as int));
        }
    }
    assert(views(tidied@) =~= tidy_lines(views(raw_lines@)));
    let newline: Vec<char> = vec!['\n'];
    assert(newline@ =~= seq!['\n']);
    let joined = join_lines(&tidied, newline.as_slice());
    let trimmed = trim_chars(joined.as_slice());
    let mut out: Vec<char> = Vec::new();
    append_chars(&mut out, trimmed);
    assert(out@ =~= trimmed@);
    out
}

/// Cleans up converted Markdown: the result is the canonical form of `md`.
///
/// No line of the result ends with whitespace, only structural lines begin
/// with it, and the result as a whole neither begins nor ends with
/// whitespace.
pub fn clean_markdown(md: &str) -> (out: String)
    ensures
        out@ == normalized(md@),
        is_tidy(out@),
        is_trimmed(out@),
{
    let chars = to_chars(md);
    let cleaned = normalize_chars(chars.as_slice());
    proof {
        lemma_normalized_shape(md@);
    }
    from_chars(cleaned.as_slice())
}

} // verus!
