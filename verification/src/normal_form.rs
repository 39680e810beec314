//! What holds of the normalizer: what collapsing does to runs of line feeds,
//! which shape a normalized document has, and when normalizing a second time
//! changes nothing.

use crate::normalize::{
    collapse_newlines, has_newline_triple, is_excess_newline, is_structural,
    lemma_structural_by_chars, normalized, tidy_line, tidy_lines,
};
use crate::text::{
    first_newline, is_whitespace, join, leading_whitespace, lemma_first_newline_facts,
    lemma_leading_whitespace_facts, lemma_trailing_whitespace_facts, lines,
    strip_carriage_return, trailing_whitespace, trim, trim_end, trim_start,
};
use vstd::prelude::*;

verus! {

// ---------------------------------------------------------------------------
// Collapsing
// ---------------------------------------------------------------------------

/// A run of `n` line feeds.
pub open spec fn newlines(n: nat) -> Seq<char> {
    Seq::new(n, |i: int| '\n')
}

/// Whether `s` ends with two line feeds.
pub open spec fn ends_with_two_newlines(s: Seq<char>) -> bool {
    s.len() >= 2 && s[s.len() - 1] == '\n' && s[s.len() - 2] == '\n'
}

/// Collapsing keeps the last character, and leaves two line feeds at the end
/// only where there were two before.
proof fn lemma_collapse_end(s: Seq<char>)
    ensures
        collapse_newlines(s).len() <= s.len(),
        s.len() > 0 ==> collapse_newlines(s).len() > 0 && collapse_newlines(s).last() == s.last(),
        ends_with_two_newlines(collapse_newlines(s)) ==> ends_with_two_newlines(s),
    decreases s.len(),
{
    if s.len() > 0 {
        lemma_collapse_end(s.drop_last());
    }
}

/// After collapsing, no three line feeds stand in a row.
pub proof fn lemma_collapse_leaves_no_triple(s: Seq<char>)
    ensures
        !has_newline_triple(collapse_newlines(s)),
    decreases s.len(),
{
    if s.len() > 0 {
        let shorter = s.drop_last();
        let r = collapse_newlines(s);
        lemma_collapse_leaves_no_triple(shorter);
        lemma_collapse_end(shorter);
        assert forall|i: int| !is_excess_newline(r, i) by {
            if is_excess_newline(r, i) {
                if is_excess_newline(s, s.len() - 1) {
                    assert(is_excess_newline(collapse_newlines(shorter), i));
                } else if i < r.len() - 1 {
                    assert(is_excess_newline(collapse_newlines(shorter), i));
                } else {
                    assert(ends_with_two_newlines(collapse_newlines(shorter)));
                    assert(ends_with_two_newlines(shorter));
                    assert(is_excess_newline(s, s.len() - 1));
                }
            }
        }
    }
}

/// Collapsing changes nothing where no three line feeds stand in a row.
pub proof fn lemma_collapse_fixes_clean_text(s: Seq<char>)
    requires
        !has_newline_triple(s),
    ensures
        collapse_newlines(s) == s,
    decreases s.len(),
{
    if s.len() > 0 {
        let shorter = s.drop_last();
        assert forall|i: int| !is_excess_newline(shorter, i) by {
            if is_excess_newline(shorter, i) {
                assert(is_excess_newline(s, i));
            }
        }
        lemma_collapse_fixes_clean_text(shorter);
        assert(!is_excess_newline(s, s.len() - 1));
        assert(shorter.push(s.last()) =~= s);
    }
}

/// Collapsing makes a text with three line feeds in a row shorter.
pub proof fn lemma_collapse_shortens_triple(s: Seq<char>)
    requires
        has_newline_triple(s),
    ensures
        collapse_newlines(s).len() < s.len(),
    decreases s.len(),
{
    let i = choose|i: int| is_excess_newline(s, i);
    let shorter = s.drop_last();
    lemma_collapse_end(shorter);
    if i < s.len() - 1 {
        assert(is_excess_newline(shorter, i));
        lemma_collapse_shortens_triple(shorter);
    }
}

/// Collapsing works on two parts apart where no run of line feeds crosses
/// the place at which they meet.
pub proof fn lemma_collapse_splits(x: Seq<char>, y: Seq<char>)
    requires
        x.len() == 0 || x.last() != '\n' || y.len() == 0 || y[0] != '\n',
    ensures
        collapse_newlines(x + y) == collapse_newlines(x) + collapse_newlines(y),
    decreases y.len(),
{
    if y.len() == 0 {
        assert(x + y =~= x);
        assert(collapse_newlines(x) + collapse_newlines(y) =~= collapse_newlines(x));
    } else {
        let whole = x + y;
        assert(whole.drop_last() =~= x + y.drop_last());
        lemma_collapse_splits(x, y.drop_last());
        assert(is_excess_newline(whole, whole.len() - 1) == is_excess_newline(y, y.len() - 1));
        assert(whole.last() == y.last());
        if !is_excess_newline(y, y.len() - 1) {
            assert(collapse_newlines(whole) =~= collapse_newlines(x) + collapse_newlines(y));
        }
    }
}

/// A run of two or more line feeds collapses to exactly two.
pub proof fn lemma_collapse_of_run(n: nat)
    requires
        n >= 2,
    ensures
        collapse_newlines(newlines(n)) == newlines(2),
    decreases n,
{
    let run = newlines(n);
    if n == 2 {
        let one = run.drop_last();
        let none = one.drop_last();
        assert(none.len() == 0);
        assert(collapse_newlines(none) == none);
        assert(!is_excess_newline(one, 0));
        assert(collapse_newlines(one) == none.push(one.last()));
        assert(!is_excess_newline(run, 1));
        assert(collapse_newlines(run) == collapse_newlines(one).push(run.last()));
        assert(collapse_newlines(run) =~= newlines(2));
    } else {
        assert(run.drop_last() =~= newlines((n - 1) as nat));
        lemma_collapse_of_run((n - 1) as nat);
        assert(is_excess_newline(run, n - 1));
    }
}

/// Any run of three or more line feeds becomes a run of exactly two. Where
/// `n >= 3` line feeds stand between a text that does not end with a line
/// feed and one that does not begin with one, collapsing leaves two of them
/// and treats the texts on either side as if each stood alone.
pub proof fn lemma_collapse_long_run(before: Seq<char>, n: nat, after: Seq<char>)
    requires
        n >= 3,
        before.len() == 0 || before.last() != '\n',
        after.len() == 0 || after[0] != '\n',
    ensures
        collapse_newlines(before + newlines(n) + after) == collapse_newlines(before) + newlines(2)
            + collapse_newlines(after),
{
    lemma_collapse_splits(before + newlines(n), after);
    lemma_collapse_splits(before, newlines(n));
    lemma_collapse_of_run(n);
}

// ---------------------------------------------------------------------------
// The shape of a tidied line
// ---------------------------------------------------------------------------

/// Whether `e` looks like a line that has been tidied: it holds no line feed,
/// it does not end with whitespace, and it begins with whitespace only where
/// it is structural.
pub open spec fn is_tidy_line(e: Seq<char>) -> bool {
    &&& forall|i: int| 0 <= i < e.len() ==> e[i] != '\n'
    &&& e.len() > 0 ==> !is_whitespace(e.last())
    &&& e.len() > 0 ==> !is_whitespace(e[0]) || is_structural(e)
}

/// Tidying never makes a line longer.
pub proof fn lemma_tidy_line_len(line: Seq<char>)
    ensures
        tidy_line(line).len() <= line.len(),
{
    lemma_leading_whitespace_facts(line);
    lemma_trailing_whitespace_facts(line);
    lemma_trailing_whitespace_facts(trim_start(line));
}

/// A line without line feeds is a tidy line once it has been tidied.
pub proof fn lemma_tidy_line_shape(line: Seq<char>)
    requires
        forall|i: int| 0 <= i < line.len() ==> line[i] != '\n',
    ensures
        is_tidy_line(tidy_line(line)),
{
    let e = tidy_line(line);
    lemma_structural_by_chars(line);
    lemma_structural_by_chars(e);
    if is_structural(line) {
        lemma_trailing_whitespace_facts(line);
        let m = line.len() - trailing_whitespace(line);
        assert(e == line.take(m));
        if m > 0 {
            assert(!is_whitespace(line[m - 1]));
            if is_whitespace(e[0]) {
                if m <= 4 && line[0] == ' ' {
                    assert(is_whitespace(line[m - 1]));
                }
            }
        }
    } else {
        lemma_leading_whitespace_facts(line);
        let start = trim_start(line);
        lemma_trailing_whitespace_facts(start);
        let m = start.len() - trailing_whitespace(start);
        assert(e == start.take(m));
        if m > 0 {
            assert(e[0] == start[0]);
        }
    }
}

/// A tidy line is not changed by tidying.
pub proof fn lemma_tidy_line_is_fixed(e: Seq<char>)
    requires
        e.len() > 0 ==> !is_whitespace(e.last()),
        e.len() > 0 ==> !is_whitespace(e[0]) || is_structural(e),
    ensures
        tidy_line(e) == e,
{
    assert(trailing_whitespace(e) == 0);
    assert(trim_end(e) =~= e);
    if !is_structural(e) {
        assert(leading_whitespace(e) == 0);
        assert(trim_start(e) =~= e);
    }
}

/// No line of a text holds a line feed.
pub proof fn lemma_lines_hold_no_newline(s: Seq<char>)
    ensures
        forall|i: int, j: int|
            0 <= i < lines(s).len() && 0 <= j < lines(s)[i].len() ==> lines(s)[i][j] != '\n',
    decreases s.len(),
{
    if s.len() > 0 {
        lemma_first_newline_facts(s);
        let n = first_newline(s) as int;
        if n < s.len() {
            let rest = s.skip(n + 1);
            lemma_lines_hold_no_newline(rest);
            let head = strip_carriage_return(s.take(n));
            assert forall|i: int, j: int|
                0 <= i < lines(s).len() && 0 <= j < lines(s)[i].len() implies lines(s)[i][j]
                != '\n' by {
                if i == 0 {
                    assert(lines(s)[0] == head);
                    assert(head[j] == s[j]);
                } else {
                    assert(lines(s)[i] == lines(rest)[i - 1]);
                }
            }
        }
    }
}

/// Joining, seen from the first line.
pub proof fn lemma_join_from_front(first: Seq<char>, rest: Seq<Seq<char>>, sep: Seq<char>)
    requires
        rest.len() > 0,
    ensures
        join(seq![first] + rest, sep) == first + sep + join(rest, sep),
    decreases rest.len(),
{
    let all = seq![first] + rest;
    assert(all.drop_last() =~= seq![first] + rest.drop_last());
    assert(all.last() == rest.last());
    if rest.len() == 1 {
        assert(all.drop_last() =~= seq![first]);
        assert(join(all.drop_last(), sep) == first);
        assert(join(rest, sep) == rest[0]);
    } else {
        lemma_join_from_front(first, rest.drop_last(), sep);
        assert(join(all, sep) =~= first + sep + join(rest, sep));
    }
}

// ---------------------------------------------------------------------------
// The shape of a normalized document
// ---------------------------------------------------------------------------

/// The line that ends at index `p`, at a line feed or at the end of the text,
/// does not end with whitespace.
pub open spec fn line_end_is_clean(t: Seq<char>, p: int) -> bool {
    (0 < p <= t.len() && (p == t.len() || t[p] == '\n')) ==> (t[p - 1] == '\n' || !is_whitespace(
        t[p - 1],
    ))
}

/// The line that begins at index `q`, at the start of the text or after a
/// line feed, begins with whitespace only where it is structural.
pub open spec fn line_start_is_clean(t: Seq<char>, q: int) -> bool {
    (0 <= q < t.len() && (q == 0 || t[q - 1] == '\n')) ==> (t[q] == '\n' || !is_whitespace(t[q])
        || is_structural(t.skip(q)))
}

/// Whether every line of `t` is tidy: none ends with whitespace, and only
/// structural lines begin with it.
pub open spec fn is_tidy(t: Seq<char>) -> bool {
    &&& forall|p: int| #[trigger] line_end_is_clean(t, p)
    &&& forall|q: int| #[trigger] line_start_is_clean(t, q)
}

/// Whether `t` neither begins nor ends with whitespace.
pub open spec fn is_trimmed(t: Seq<char>) -> bool {
    t.len() > 0 ==> !is_whitespace(t[0]) && !is_whitespace(t.last())
}

/// A tidy text followed by a line feed and a tidy line is a tidy text.
proof fn lemma_tidy_grows(z: Seq<char>, e: Seq<char>)
    requires
        is_tidy(z),
        is_tidy_line(e),
    ensures
        is_tidy(z + seq!['\n'] + e),
{
    let t = z + seq!['\n'] + e;
    let k = z.len() as int;
    assert forall|p: int| #[trigger] line_end_is_clean(t, p) by {
        if 0 < p <= t.len() && (p == t.len() || t[p] == '\n') {
            if p <= k {
                assert(line_end_is_clean(z, p));
            } else if p > k + 1 {
                if p < t.len() {
                    assert(t[p] == e[p - k - 1]);
                }
                assert(t[p - 1] == e[p - k - 2]);
            }
        }
    }
    assert forall|q: int| #[trigger] line_start_is_clean(t, q) by {
        if 0 <= q < t.len() && (q == 0 || t[q - 1] == '\n') {
            lemma_structural_by_chars(t.skip(q));
            if q < k {
                assert(line_start_is_clean(z, q));
                lemma_structural_by_chars(z.skip(q));
                if is_structural(z.skip(q)) {
                    assert(z.skip(q)[0] == t.skip(q)[0]);
                    if z.skip(q).len() >= 2 {
                        assert(z.skip(q)[1] == t.skip(q)[1]);
                    }
                    if z.skip(q).len() >= 4 {
                        assert(z.skip(q)[2] == t.skip(q)[2]);
                        assert(z.skip(q)[3] == t.skip(q)[3]);
                    }
                }
            } else if q == k + 1 {
                assert(t.skip(q) =~= e);
            } else if q > k + 1 {
                assert(t[q - 1] == e[q - k - 2]);
            }
        }
    }
}

/// Tidy lines joined by line feeds make a tidy text.
pub proof fn lemma_joined_tidy_lines(ls: Seq<Seq<char>>)
    requires
        forall|i: int| 0 <= i < ls.len() ==> is_tidy_line(#[trigger] ls[i]),
    ensures
        is_tidy(join(ls, seq!['\n'])),
    decreases ls.len(),
{
    let sep = seq!['\n'];
    if ls.len() == 0 {
        assert(join(ls, sep).len() == 0);
    } else if ls.len() == 1 {
        let e = ls[0];
        assert(is_tidy_line(e));
        assert forall|q: int| #[trigger] line_start_is_clean(e, q) by {
            if q == 0 {
                assert(e.skip(0) =~= e);
            }
        }
    } else {
        let shorter = ls.drop_last();
        assert forall|i: int| 0 <= i < shorter.len() implies is_tidy_line(
            #[trigger] shorter[i],
        ) by {
            assert(shorter[i] == ls[i]);
        }
        lemma_joined_tidy_lines(shorter);
        assert(is_tidy_line(ls[ls.len() - 1]));
        lemma_tidy_grows(join(shorter, sep), ls.last());
    }
}

/// What is left of a tidy text is tidy, where the cut is made before a
/// character that is not whitespace.
proof fn lemma_tidy_skip(z: Seq<char>, a: int)
    requires
        is_tidy(z),
        0 <= a <= z.len(),
        a < z.len() ==> !is_whitespace(z[a]),
    ensures
        is_tidy(z.skip(a)),
{
    let y = z.skip(a);
    assert forall|p: int| #[trigger] line_end_is_clean(y, p) by {
        if 0 < p <= y.len() {
            assert(line_end_is_clean(z, a + p));
        }
    }
    assert forall|q: int| #[trigger] line_start_is_clean(y, q) by {
        if 0 < q < y.len() {
            assert(line_start_is_clean(z, a + q));
            assert(y.skip(q) =~= z.skip(a + q));
        }
    }
}

/// The start of a tidy text is tidy, where the cut is made after a character
/// that is not whitespace.
proof fn lemma_tidy_take(z: Seq<char>, m: int)
    requires
        is_tidy(z),
        0 <= m <= z.len(),
        m > 0 ==> !is_whitespace(z[m - 1]),
    ensures
        is_tidy(z.take(m)),
{
    let y = z.take(m);
    assert forall|p: int| #[trigger] line_end_is_clean(y, p) by {
        if 0 < p < m {
            assert(line_end_is_clean(z, p));
        }
    }
    assert forall|q: int| #[trigger] line_start_is_clean(y, q) by {
        if 0 <= q < m && (q == 0 || y[q - 1] == '\n') {
            assert(line_start_is_clean(z, q));
            lemma_structural_by_chars(z.skip(q));
            lemma_structural_by_chars(y.skip(q));
            if is_whitespace(z[q]) && z[q] != '\n' {
                let zs = z.skip(q);
                let ys = y.skip(q);
                assert(zs[0] == z[q]);
                assert(ys[0] == z[q]);
                if zs[0] == ' ' {
                    assert(zs[1] == z[q + 1] && zs[2] == z[q + 2] && zs[3] == z[q + 3]);
                    if m - 1 <= q + 3 {
                        assert(is_whitespace(z[m - 1]));
                    }
                    assert(ys[1] == z[q + 1] && ys[2] == z[q + 2] && ys[3] == z[q + 3]);
                }
            }
        }
    }
}

/// A tidy text stays tidy when it is trimmed, and is then trimmed.
pub proof fn lemma_trimmed_tidy_text(z: Seq<char>)
    requires
        is_tidy(z),
    ensures
        is_tidy(trim(z)),
        is_trimmed(trim(z)),
{
    lemma_leading_whitespace_facts(z);
    let start = trim_start(z);
    lemma_tidy_skip(z, leading_whitespace(z) as int);
    lemma_trailing_whitespace_facts(start);
    let m = start.len() - trailing_whitespace(start);
    lemma_tidy_take(start, m);
    if m > 0 {
        assert(trim(z)[0] == start[0]);
        assert(trim(z).last() == start[m - 1]);
    }
}

/// The shape of every normalized document: no line of it ends with
/// whitespace, only its structural lines begin with whitespace, and the
/// document as a whole neither begins nor ends with whitespace.
pub proof fn lemma_normalized_shape(md: Seq<char>)
    ensures
        is_tidy(normalized(md)),
        is_trimmed(normalized(md)),
{
    let raw = lines(collapse_newlines(md));
    let tidied = tidy_lines(raw);
    lemma_lines_hold_no_newline(collapse_newlines(md));
    assert forall|i: int| 0 <= i < tidied.len() implies is_tidy_line(#[trigger] tidied[i]) by {
        lemma_tidy_line_shape(raw[i]);
    }
    lemma_joined_tidy_lines(tidied);
    lemma_trimmed_tidy_text(join(tidied, seq!['\n']));
}

// ---------------------------------------------------------------------------
// Normalizing twice
// ---------------------------------------------------------------------------

/// Tidying the lines of a text gives as many lines as the text has.
proof fn lemma_tidy_lines_from_front(first: Seq<char>, rest: Seq<Seq<char>>)
    ensures
        tidy_lines(seq![first] + rest) == seq![tidy_line(first)] + tidy_lines(rest),
{
    assert(tidy_lines(seq![first] + rest) =~= seq![tidy_line(first)] + tidy_lines(rest));
}

/// The first line of a tidy text is a tidy line: it ends with no carriage
/// return, and tidying changes nothing of it.
proof fn lemma_first_line_of_tidy_text(t: Seq<char>, n: int)
    requires
        is_tidy(t),
        0 <= n <= t.len(),
        forall|i: int| 0 <= i < n ==> t[i] != '\n',
        n < t.len() ==> t[n] == '\n',
    ensures
        strip_carriage_return(t.take(n)) == t.take(n),
        tidy_line(t.take(n)) == t.take(n),
{
    let head = t.take(n);
    if n > 0 {
        assert(line_start_is_clean(t, 0));
        assert(line_end_is_clean(t, n));
        assert(t.skip(0) =~= t);
        assert(head.last() == t[n - 1]);
        assert(head[0] == t[0]);
        lemma_structural_by_chars(t);
        lemma_structural_by_chars(head);
        if t[0] == ' ' && is_structural(t) {
            assert(n >= 4) by {
                if n < 4 {
                    assert(t[n] == ' ');
                }
            }
            assert(head[1] == t[1] && head[2] == t[2] && head[3] == t[3]);
        }
    }
    lemma_tidy_line_is_fixed(head);
}

/// What follows the first line feed of a tidy text is a tidy text.
proof fn lemma_rest_of_tidy_text(t: Seq<char>, n: int)
    requires
        is_tidy(t),
        0 <= n < t.len(),
        t[n] == '\n',
    ensures
        is_tidy(t.skip(n + 1)),
{
    let rest = t.skip(n + 1);
    assert forall|p: int| #[trigger] line_end_is_clean(rest, p) by {
        if 0 < p <= rest.len() {
            assert(line_end_is_clean(t, n + 1 + p));
        }
    }
    assert forall|q: int| #[trigger] line_start_is_clean(rest, q) by {
        if 0 <= q < rest.len() {
            assert(line_start_is_clean(t, n + 1 + q));
            assert(rest.skip(q) =~= t.skip(n + 1 + q));
        }
    }
}

/// Splitting a tidy text into lines, tidying them and joining them again
/// gives the text back, where it does not end with a line feed.
proof fn lemma_tidy_text_is_rejoined(t: Seq<char>)
    requires
        is_tidy(t),
        t.len() > 0 ==> t.last() != '\n',
    ensures
        join(tidy_lines(lines(t)), seq!['\n']) == t,
    decreases t.len(),
{
    let sep = seq!['\n'];
    if t.len() == 0 {
        assert(tidy_lines(lines(t)) =~= Seq::<Seq<char>>::empty());
    } else {
        lemma_first_newline_facts(t);
        let n = first_newline(t) as int;
        lemma_first_line_of_tidy_text(t, n);
        if n >= t.len() {
            assert(t.take(n) =~= t);
            assert(tidy_lines(seq![t]) =~= seq![tidy_line(t)]);
        } else {
            let head = t.take(n);
            let rest = t.skip(n + 1);
            assert(rest.len() > 0 && rest.last() == t.last());
            lemma_rest_of_tidy_text(t, n);
            lemma_tidy_text_is_rejoined(rest);
            assert(lines(rest).len() > 0);
            lemma_tidy_lines_from_front(head, lines(rest));
            lemma_join_from_front(head, tidy_lines(lines(rest)), sep);
            assert(head + sep + rest =~= t);
        }
    }
}

/// Splitting into lines, tidying and joining never makes a text longer.
proof fn lemma_rejoined_is_no_longer(t: Seq<char>)
    ensures
        join(tidy_lines(lines(t)), seq!['\n']).len() <= t.len(),
    decreases t.len(),
{
    let sep = seq!['\n'];
    if t.len() == 0 {
        assert(tidy_lines(lines(t)) =~= Seq::<Seq<char>>::empty());
    } else {
        lemma_first_newline_facts(t);
        let n = first_newline(t) as int;
        if n >= t.len() {
            lemma_tidy_line_len(t);
            assert(tidy_lines(seq![t]) =~= seq![tidy_line(t)]);
        } else {
            let head = strip_carriage_return(t.take(n));
            let rest = t.skip(n + 1);
            lemma_tidy_line_len(head);
            lemma_rejoined_is_no_longer(rest);
            lemma_tidy_lines_from_front(head, lines(rest));
            if lines(rest).len() == 0 {
                assert(seq![tidy_line(head)] + tidy_lines(lines(rest)) =~= seq![tidy_line(head)]);
            } else {
                lemma_join_from_front(tidy_line(head), tidy_lines(lines(rest)), sep);
            }
        }
    }
}

/// Normalizing never makes a text longer than collapsing alone does.
proof fn lemma_normalized_is_no_longer(md: Seq<char>)
    ensures
        normalized(md).len() <= collapse_newlines(md).len(),
{
    let joined = join(tidy_lines(lines(collapse_newlines(md))), seq!['\n']);
    lemma_rejoined_is_no_longer(collapse_newlines(md));
    lemma_leading_whitespace_facts(joined);
    lemma_trailing_whitespace_facts(trim_start(joined));
}

/// A document that is tidy and trimmed, with no three line feeds in a row,
/// is its own normal form.
pub proof fn lemma_normal_form_is_fixed(t: Seq<char>)
    requires
        is_tidy(t),
        is_trimmed(t),
        !has_newline_triple(t),
    ensures
        normalized(t) == t,
{
    lemma_collapse_fixes_clean_text(t);
    lemma_tidy_text_is_rejoined(t);
    assert(leading_whitespace(t) == 0);
    assert(trim_start(t) =~= t);
    assert(trailing_whitespace(t) == 0);
    assert(trim_end(t) =~= t);
}

/// When normalizing is idempotent. Normalizing a normalized document changes
/// nothing exactly if the document came out without three line feeds in a
/// row. It comes out with three where whitespace-only lines, or carriage
/// returns, stood between its line feeds: they are emptied after the runs of
/// line feeds have been collapsed, and so leave a longer run behind.
pub proof fn lemma_normalizing_twice(md: Seq<char>)
    ensures
        normalized(normalized(md)) == normalized(md) <==> !has_newline_triple(normalized(md)),
{
    let once = normalized(md);
    lemma_normalized_shape(md);
    if has_newline_triple(once) {
        lemma_collapse_shortens_triple(once);
        lemma_normalized_is_no_longer(once);
    } else {
        lemma_normal_form_is_fixed(once);
    }
}

/// Normalizing is idempotent on every document whose normal form holds no
/// three line feeds in a row.
pub proof fn lemma_normalizing_is_idempotent(md: Seq<char>)
    requires
        !has_newline_triple(normalized(md)),
    ensures
        normalized(normalized(md)) == normalized(md),
{
    lemma_normalizing_twice(md);
}

} // verus!
