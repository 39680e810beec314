//! Character-level text primitives shared by the rest of the library.
//!
//! Every string is modelled by its sequence of Unicode scalar values. Byte
//! offsets and byte lengths always refer to the UTF-8 encoding of that
//! sequence.

use vstd::prelude::*;
use vstd::slice::slice_subrange;

verus! {

// ---------------------------------------------------------------------------
// Conversions between strings and character vectors
// ---------------------------------------------------------------------------

/// `String::push` appends the given character to the end of the string and
/// leaves the characters already present untouched.
pub assume_specification[ String::push ](s: &mut String, c: char)
    ensures
        final(s)@ == old(s)@.push(c),
;

/// The characters of `s`, in order.
pub fn to_chars(s: &str) -> (v: Vec<char>)
    ensures
        v@ == s@,
{
    let mut v: Vec<char> = Vec::new();
    for c in it: s.chars()
        invariant
            v@ == it.seq().take(it.index() as int),
            it.seq() == s@,
    {
        v.push(c);
    }
    v
}

/// The string made of the characters of `v`, in order.
pub fn from_chars(v: &[char]) -> (s: String)
    ensures
        s@ == v@,
{
    let mut s = String::new();
    let mut i: usize = 0;
    while i < v.len()
        invariant
            i <= v.len(),
            s@ == v@.take(i as int),
        decreases v.len() - i,
    {
        s.push(v[i]);
        i += 1;
        assert(v@.take(i as int) =~= v@.take(i - 1).push(v@[i - 1]));
    }
    assert(v@.take(i as int) =~= v@);
    s
}

/// Appends every character of `extra` to `out`.
pub fn append_chars(out: &mut Vec<char>, extra: &[char])
    ensures
        final(out)@ == old(out)@ + extra@,
{
    let mut i: usize = 0;
    while i < extra.len()
        invariant
            i <= extra.len(),
            out@ == old(out)@ + extra@.take(i as int),
        decreases extra.len() - i,
    {
        out.push(extra[i]);
        i += 1;
        assert(extra@.take(i as int) =~= extra@.take(i - 1).push(extra@[i - 1]));
        assert(out@ =~= old(out)@ + extra@.take(i as int));
    }
    assert(extra@.take(i as int) =~= extra@);
}

// ---------------------------------------------------------------------------
// Whitespace
// ---------------------------------------------------------------------------

/// Whether `c` carries the Unicode `White_Space` property.
pub open spec fn is_whitespace(c: char) -> bool {
    let n = c as u32;
    ||| (0x09 <= n && n <= 0x0D)
    ||| n == 0x20
    ||| n == 0x85
    ||| n == 0xA0
    ||| n == 0x1680
    ||| (0x2000 <= n && n <= 0x200A)
    ||| n == 0x2028
    ||| n == 0x2029
    ||| n == 0x202F
    ||| n == 0x205F
    ||| n == 0x3000
}

/// Executable test for [`is_whitespace`].
pub fn char_is_whitespace(c: char) -> (b: bool)
    ensures
        b == is_whitespace(c),
{
    let n: u32 = c as u32;
    (0x09 <= n && n <= 0x0D) || n == 0x20 || n == 0x85 || n == 0xA0 || n == 0x1680 || (0x2000 <= n
        && n <= 0x200A) || n == 0x2028 || n == 0x2029 || n == 0x202F || n == 0x205F || n == 0x3000
}

/// Whether every character of `s` is whitespace (true of the empty text).
pub open spec fn is_blank(s: Seq<char>) -> bool {
    forall|i: int| 0 <= i < s.len() ==> is_whitespace(#[trigger] s[i])
}

/// How many whitespace characters `s` begins with.
pub open spec fn leading_whitespace(s: Seq<char>) -> nat
    decreases s.len(),
{
    if s.len() > 0 && is_whitespace(s[0]) {
        1 + leading_whitespace(s.drop_first())
    } else {
        0
    }
}

/// How many whitespace characters `s` ends with.
pub open spec fn trailing_whitespace(s: Seq<char>) -> nat
    decreases s.len(),
{
    if s.len() > 0 && is_whitespace(s.last()) {
        1 + trailing_whitespace(s.drop_last())
    } else {
        0
    }
}

/// `s` without its leading whitespace.
pub open spec fn trim_start(s: Seq<char>) -> Seq<char> {
    s.skip(leading_whitespace(s) as int)
}

/// `s` without its trailing whitespace.
pub open spec fn trim_end(s: Seq<char>) -> Seq<char> {
    s.take(s.len() - trailing_whitespace(s))
}

/// `s` without its leading and trailing whitespace.
pub open spec fn trim(s: Seq<char>) -> Seq<char> {
    trim_end(trim_start(s))
}

/// `leading_whitespace(s)` is the only `k` such that the first `k` characters
/// are whitespace and the one after them, if any, is not.
pub proof fn lemma_leading_whitespace(s: Seq<char>, k: int)
    requires
        0 <= k <= s.len(),
        forall|i: int| 0 <= i < k ==> is_whitespace(#[trigger] s[i]),
        k < s.len() ==> !is_whitespace(s[k]),
    ensures
        leading_whitespace(s) == k,
    decreases s.len(),
{
    if k > 0 {
        assert(is_whitespace(s[0]));
        let t = s.drop_first();
        assert forall|i: int| 0 <= i < k - 1 implies is_whitespace(#[trigger] t[i]) by {
            assert(t[i] == s[i + 1]);
        }
        if k - 1 < t.len() {
            assert(t[k - 1] == s[k]);
        }
        lemma_leading_whitespace(t, k - 1);
    }
}

/// The bound and the two defining facts of `leading_whitespace`.
pub proof fn lemma_leading_whitespace_facts(s: Seq<char>)
    ensures
        leading_whitespace(s) <= s.len(),
        forall|i: int| 0 <= i < leading_whitespace(s) ==> is_whitespace(#[trigger] s[i]),
        leading_whitespace(s) < s.len() ==> !is_whitespace(s[leading_whitespace(s) as int]),
    decreases s.len(),
{
    if s.len() > 0 && is_whitespace(s[0]) {
        let t = s.drop_first();
        lemma_leading_whitespace_facts(t);
        assert forall|i: int| 0 <= i < leading_whitespace(s) implies is_whitespace(
            #[trigger] s[i],
        ) by {
            if i > 0 {
                assert(s[i] == t[i - 1]);
            }
        }
        if leading_whitespace(s) < s.len() {
            assert(s[leading_whitespace(s) as int] == t[leading_whitespace(t) as int]);
        }
    }
}

/// `trailing_whitespace(s)` is the only `k` such that the last `k` characters
/// are whitespace and the one before them, if any, is not.
pub proof fn lemma_trailing_whitespace(s: Seq<char>, k: int)
    requires
        0 <= k <= s.len(),
        forall|i: int| s.len() - k <= i < s.len() ==> is_whitespace(#[trigger] s[i]),
        k < s.len() ==> !is_whitespace(s[s.len() - k - 1]),
    ensures
        trailing_whitespace(s) == k,
    decreases s.len(),
{
    if k > 0 {
        assert(is_whitespace(s[s.len() - 1]));
        let t = s.drop_last();
        assert forall|i: int| t.len() - (k - 1) <= i < t.len() implies is_whitespace(
            #[trigger] t[i],
        ) by {
            assert(t[i] == s[i]);
        }
        if k - 1 < t.len() {
            assert(t[t.len() - (k - 1) - 1] == s[s.len() - k - 1]);
        }
        lemma_trailing_whitespace(t, k - 1);
    }
}

/// The bound and the two defining facts of `trailing_whitespace`.
pub proof fn lemma_trailing_whitespace_facts(s: Seq<char>)
    ensures
        trailing_whitespace(s) <= s.len(),
        forall|i: int|
            s.len() - trailing_whitespace(s) <= i < s.len() ==> is_whitespace(#[trigger] s[i]),
        trailing_whitespace(s) < s.len() ==> !is_whitespace(
            s[s.len() - trailing_whitespace(s) - 1],
        ),
    decreases s.len(),
{
    if s.len() > 0 && is_whitespace(s.last()) {
        let t = s.drop_last();
        lemma_trailing_whitespace_facts(t);
        assert forall|i: int|
            s.len() - trailing_whitespace(s) <= i < s.len() implies is_whitespace(
            #[trigger] s[i],
        ) by {
            if i < s.len() - 1 {
                assert(s[i] == t[i]);
            }
        }
        if trailing_whitespace(s) < s.len() {
            assert(s[s.len() - trailing_whitespace(s) - 1] == t[t.len() - trailing_whitespace(t)
                - 1]);
        }
    }
}

/// The part of `s` that is left when leading whitespace is removed.
pub fn trim_start_chars<'a>(s: &'a [char]) -> (r: &'a [char])
    ensures
        r@ == trim_start(s@),
{
    let mut i: usize = 0;
    while i < s.len() && char_is_whitespace(s[i])
        invariant
            i <= s.len(),
            forall|j: int| 0 <= j < i ==> is_whitespace(#[trigger] s@[j]),
        decreases s.len() - i,
    {
        i += 1;
    }
    proof {
        lemma_leading_whitespace(s@, i as int);
    }
    let r = slice_subrange(s, i, s.len());
    assert(r@ =~= s@.skip(i as int));
    r
}

/// The part of `s` that is left when trailing whitespace is removed.
pub fn trim_end_chars<'a>(s: &'a [char]) -> (r: &'a [char])
    ensures
        r@ == trim_end(s@),
{
    let mut n: usize = s.len();
    while n > 0 && char_is_whitespace(s[n - 1])
        invariant
            n <= s.len(),
            forall|j: int| n <= j < s.len() ==> is_whitespace(#[trigger] s@[j]),
        decreases n,
    {
        n -= 1;
    }
    proof {
        lemma_trailing_whitespace(s@, s.len() - n);
    }
    let r = slice_subrange(s, 0, n);
    assert(r@ =~= s@.take(n as int));
    r
}

/// The part of `s` that is left when leading and trailing whitespace are
/// removed.
pub fn trim_chars<'a>(s: &'a [char]) -> (r: &'a [char])
    ensures
        r@ == trim(s@),
{
    trim_end_chars(trim_start_chars(s))
}

/// Whether `s` holds nothing but whitespace.
pub fn is_blank_chars(s: &[char]) -> (b: bool)
    ensures
        b == is_blank(s@),
{
    let mut i: usize = 0;
    while i < s.len()
        invariant
            i <= s.len(),
            forall|j: int| 0 <= j < i ==> is_whitespace(#[trigger] s@[j]),
        decreases s.len() - i,
    {
        if !char_is_whitespace(s[i]) {
            return false;
        }
        i += 1;
    }
    true
}

// ---------------------------------------------------------------------------
// Searching
// ---------------------------------------------------------------------------

/// Whether `pat` stands in `s` at character index `i`.
pub open spec fn occurs_at(s: Seq<char>, pat: Seq<char>, i: int) -> bool {
    0 <= i && i + pat.len() <= s.len() && s.subrange(i, i + pat.len()) == pat
}

/// The first index at or after `from` at which `pat` stands in `s`.
pub open spec fn find_from(s: Seq<char>, pat: Seq<char>, from: int) -> Option<int>
    decreases s.len() - from + 1,
{
    if from < 0 || from + pat.len() > s.len() {
        None
    } else if occurs_at(s, pat, from) {
        Some(from)
    } else {
        find_from(s, pat, from + 1)
    }
}

/// The first index at which `pat` stands in `s`.
pub open spec fn find(s: Seq<char>, pat: Seq<char>) -> Option<int> {
    find_from(s, pat, 0)
}

/// Whether `s` begins with `pat`.
pub open spec fn starts_with(s: Seq<char>, pat: Seq<char>) -> bool {
    occurs_at(s, pat, 0)
}

/// Whether `s` ends with `pat`.
pub open spec fn ends_with(s: Seq<char>, pat: Seq<char>) -> bool {
    occurs_at(s, pat, s.len() - pat.len())
}

/// What `find_from` returns is the least occurrence at or after `from`, and
/// it returns `None` only when there is none.
pub proof fn lemma_find_from(s: Seq<char>, pat: Seq<char>, from: int)
    requires
        0 <= from,
    ensures
        match find_from(s, pat, from) {
            Some(i) => from <= i && occurs_at(s, pat, i) && forall|j: int|
                from <= j < i ==> !occurs_at(s, pat, j),
            None => forall|j: int| from <= j ==> !occurs_at(s, pat, j),
        },
    decreases s.len() - from + 1,
{
    if from + pat.len() > s.len() {
    } else if occurs_at(s, pat, from) {
    } else {
        lemma_find_from(s, pat, from + 1);
    }
}

/// `find` returns the least occurrence, and `None` only when there is none.
pub proof fn lemma_find(s: Seq<char>, pat: Seq<char>)
    ensures
        match find(s, pat) {
            Some(i) => occurs_at(s, pat, i) && forall|j: int| 0 <= j < i ==> !occurs_at(s, pat, j),
            None => forall|j: int| !occurs_at(s, pat, j),
        },
{
    lemma_find_from(s, pat, 0);
}

/// An occurrence with none before it is the one that `find` returns.
pub proof fn lemma_find_is(s: Seq<char>, pat: Seq<char>, i: int)
    requires
        occurs_at(s, pat, i),
        forall|j: int| 0 <= j < i ==> !occurs_at(s, pat, j),
    ensures
        find(s, pat) == Some(i),
{
    lemma_find(s, pat);
}

/// Whether `pat` stands in `s` at index `i`.
pub fn matches_at(s: &[char], pat: &[char], i: usize) -> (b: bool)
    ensures
        b == occurs_at(s@, pat@, i as int),
{
    if pat.len() > s.len() || i > s.len() - pat.len() {
        return false;
    }
    let mut k: usize = 0;
    while k < pat.len()
        invariant
            k <= pat.len(),
            i + pat.len() <= s.len(),
            forall|j: int| 0 <= j < k ==> s@[i + j] == pat@[j],
        decreases pat.len() - k,
    {
        if s[i + k] != pat[k] {
            assert(s@.subrange(i as int, i + pat.len())[k as int] == s@[i + k]);
            return false;
        }
        k += 1;
    }
    assert(s@.subrange(i as int, i + pat.len()) =~= pat@);
    true
}

/// The first index at which `pat` stands in `s`.
pub fn find_chars(s: &[char], pat: &[char]) -> (r: Option<usize>)
    ensures
        match r {
            Some(i) => find(s@, pat@) == Some(i as int),
            None => find(s@, pat@) is None,
        },
{
    let mut i: usize = 0;
    while i < s.len()
        invariant
            i <= s.len(),
            forall|j: int| 0 <= j < i ==> !occurs_at(s@, pat@, j),
        decreases s.len() - i,
    {
        if matches_at(s, pat, i) {
            proof {
                lemma_find_is(s@, pat@, i as int);
            }
            return Some(i);
        }
        i += 1;
    }
    if matches_at(s, pat, i) {
        proof {
            lemma_find_is(s@, pat@, i as int);
        }
        return Some(i);
    }
    proof {
        lemma_find(s@, pat@);
    }
    None
}

// ---------------------------------------------------------------------------
// Lines
// ---------------------------------------------------------------------------

/// The index of the first line feed of `s`, or `s.len()` where it has none.
pub open spec fn first_newline(s: Seq<char>) -> nat
    decreases s.len(),
{
    if s.len() == 0 || s[0] == '\n' {
        0
    } else {
        1 + first_newline(s.drop_first())
    }
}

/// `line` without one carriage return at its end, if it has one there.
pub open spec fn strip_carriage_return(line: Seq<char>) -> Seq<char> {
    if line.len() > 0 && line.last() == '\r' {
        line.drop_last()
    } else {
        line
    }
}

/// The lines of `s`. A line ends at a line feed; the line feed, and a carriage
/// return directly before it, belong to no line. What follows the last line
/// feed is a line of its own, kept as it stands, unless it is empty.
pub open spec fn lines(s: Seq<char>) -> Seq<Seq<char>>
    decreases s.len(),
{
    if s.len() == 0 {
        Seq::empty()
    } else {
        let n = first_newline(s);
        if n >= s.len() {
            seq![s]
        } else {
            seq![strip_carriage_return(s.take(n as int))] + lines(s.skip(n as int + 1))
        }
    }
}

/// `first_newline(s)` is the only `k` such that no line feed stands before
/// index `k` and one stands at `k`, if `k` is an index at all.
pub proof fn lemma_first_newline(s: Seq<char>, k: int)
    requires
        0 <= k <= s.len(),
        forall|i: int| 0 <= i < k ==> #[trigger] s[i] != '\n',
        k < s.len() ==> s[k] == '\n',
    ensures
        first_newline(s) == k,
    decreases s.len(),
{
    if k > 0 {
        assert(s[0] != '\n');
        let t = s.drop_first();
        assert forall|i: int| 0 <= i < k - 1 implies #[trigger] t[i] != '\n' by {
            assert(t[i] == s[i + 1]);
        }
        if k - 1 < t.len() {
            assert(t[k - 1] == s[k]);
        }
        lemma_first_newline(t, k - 1);
    }
}

/// The bound and the two defining facts of `first_newline`.
pub proof fn lemma_first_newline_facts(s: Seq<char>)
    ensures
        first_newline(s) <= s.len(),
        forall|i: int| 0 <= i < first_newline(s) ==> #[trigger] s[i] != '\n',
        first_newline(s) < s.len() ==> s[first_newline(s) as int] == '\n',
    decreases s.len(),
{
    if s.len() == 0 || s[0] == '\n' {
    } else {
        let t = s.drop_first();
        lemma_first_newline_facts(t);
        assert forall|i: int| 0 <= i < first_newline(s) implies #[trigger] s[i] != '\n' by {
            if i > 0 {
                assert(s[i] == t[i - 1]);
            }
        }
        if first_newline(s) < s.len() {
            assert(s[first_newline(s) as int] == t[first_newline(t) as int]);
        }
    }
}

/// The index of the first line feed of `s`, or `s.len()` where it has none.
pub fn first_newline_chars(s: &[char]) -> (n: usize)
    ensures
        n == first_newline(s@),
        n <= s.len(),
{
    let mut n: usize = 0;
    while n < s.len() && s[n] != '\n'
        invariant
            n <= s.len(),
            forall|j: int| 0 <= j < n ==> #[trigger] s@[j] != '\n',
        decreases s.len() - n,
    {
        n += 1;
    }
    proof {
        lemma_first_newline(s@, n as int);
    }
    n
}

/// The texts that a vector of character vectors holds.
pub open spec fn views(ls: Seq<Vec<char>>) -> Seq<Seq<char>> {
    Seq::new(ls.len(), |i: int| ls[i]@)
}

/// The lines of `s`, each as a vector of its own.
pub fn split_lines(s: &[char]) -> (ls: Vec<Vec<char>>)
    ensures
        views(ls@) == lines(s@),
{
    let mut ls: Vec<Vec<char>> = Vec::new();
    let mut pos: usize = 0;
    assert(s@.skip(0) =~= s@);
    assert(views(ls@) + lines(s@.skip(0)) =~= lines(s@));
    while pos < s.len()
        invariant
            pos <= s.len(),
            lines(s@) == views(ls@) + lines(s@.skip(pos as int)),
        decreases s.len() - pos,
    {
        let ghost rest = s@.skip(pos as int);
        let tail = slice_subrange(s, pos, s.len());
        assert(tail@ =~= rest);
        let end: usize = pos + first_newline_chars(tail);
        let ghost before = views(ls@);
        if end == s.len() {
            let line = slice_subrange(s, pos, end);
            let mut owned: Vec<char> = Vec::new();
            append_chars(&mut owned, line);
            ls.push(owned);
            proof {
                assert(owned@ =~= rest);
                assert(lines(rest) =~= seq![rest]);
                assert(s@.skip(end as int).len() == 0);
                assert(views(ls@) =~= before + seq![rest]);
                assert(views(ls@) + lines(s@.skip(end as int)) =~= before + lines(rest));
            }
            pos = end;
        } else {
            let stop: usize = if end > pos && s[end - 1] == '\r' {
                end - 1
            } else {
                end
            };
            let line = slice_subrange(s, pos, stop);
            let mut owned: Vec<char> = Vec::new();
            append_chars(&mut owned, line);
            ls.push(owned);
            proof {
                let raw = rest.take(end - pos);
                assert(raw =~= s@.subrange(pos as int, end as int));
                assert(owned@ =~= strip_carriage_return(raw));
                assert(rest.skip(end - pos + 1) =~= s@.skip(end + 1));
                assert(views(ls@) =~= before + seq![strip_carriage_return(raw)]);
                assert(views(ls@) + lines(s@.skip(end + 1)) =~= before + lines(rest));
            }
            pos = end + 1;
        }
    }
    proof {
        assert(s@.skip(pos as int).len() == 0);
        assert(views(ls@) + lines(s@.skip(pos as int)) =~= views(ls@));
    }
    ls
}

/// The texts of `ls` in order, with `sep` between each two neighbours.
pub open spec fn join(ls: Seq<Seq<char>>, sep: Seq<char>) -> Seq<char>
    decreases ls.len(),
{
    if ls.len() == 0 {
        Seq::empty()
    } else if ls.len() == 1 {
        ls[0]
    } else {
        join(ls.drop_last(), sep) + sep + ls.last()
    }
}

/// The texts of `ls` in order, with `sep` between each two neighbours.
pub fn join_lines(ls: &Vec<Vec<char>>, sep: &[char]) -> (out: Vec<char>)
    ensures
        out@ == join(views(ls@), sep@),
{
    let mut out: Vec<char> = Vec::new();
    let mut i: usize = 0;
    while i < ls.len()
        invariant
            i <= ls.len(),
            out@ == join(views(ls@).take(i as int), sep@),
        decreases ls.len() - i,
    {
        if i > 0 {
            append_chars(&mut out, sep);
        }
        append_chars(&mut out, ls[i].as_slice());
        i += 1;
        proof {
            let now = views(ls@).take(i as int);
            assert(now.drop_last() =~= views(ls@).take(i - 1));
            assert(now.last() == ls@[i - 1]@);
            if i == 1 {
                assert(out@ =~= now[0]);
            }
        }
    }
    assert(views(ls@).take(i as int) =~= views(ls@));
    out
}

// ---------------------------------------------------------------------------
// Tokens and unsigned numbers
// ---------------------------------------------------------------------------

/// How many characters stand at the start of `s` before its first whitespace
/// character.
pub open spec fn leading_non_whitespace(s: Seq<char>) -> nat
    decreases s.len(),
{
    if s.len() > 0 && !is_whitespace(s[0]) {
        1 + leading_non_whitespace(s.drop_first())
    } else {
        0
    }
}

/// The first whitespace-delimited token of `s`; empty where `s` is blank.
pub open spec fn first_token(s: Seq<char>) -> Seq<char> {
    trim_start(s).take(leading_non_whitespace(trim_start(s)) as int)
}

/// `leading_non_whitespace(s)` is the only `k` such that none of the first `k`
/// characters is whitespace and the one after them, if any, is.
pub proof fn lemma_leading_non_whitespace(s: Seq<char>, k: int)
    requires
        0 <= k <= s.len(),
        forall|i: int| 0 <= i < k ==> !is_whitespace(#[trigger] s[i]),
        k < s.len() ==> is_whitespace(s[k]),
    ensures
        leading_non_whitespace(s) == k,
    decreases s.len(),
{
    if k > 0 {
        assert(!is_whitespace(s[0]));
        let t = s.drop_first();
        assert forall|i: int| 0 <= i < k - 1 implies !is_whitespace(#[trigger] t[i]) by {
            assert(t[i] == s[i + 1]);
        }
        if k - 1 < t.len() {
            assert(t[k - 1] == s[k]);
        }
        lemma_leading_non_whitespace(t, k - 1);
    }
}

/// The first whitespace-delimited token of `s`.
pub fn first_token_chars<'a>(s: &'a [char]) -> (r: &'a [char])
    ensures
        r@ == first_token(s@),
{
    let t = trim_start_chars(s);
    let mut n: usize = 0;
    while n < t.len() && !char_is_whitespace(t[n])
        invariant
            n <= t.len(),
            forall|j: int| 0 <= j < n ==> !is_whitespace(#[trigger] t@[j]),
        decreases t.len() - n,
    {
        n += 1;
    }
    proof {
        lemma_leading_non_whitespace(t@, n as int);
    }
    let r = slice_subrange(t, 0, n);
    assert(r@ =~= t@.take(n as int));
    r
}

/// Whether `c` is one of the ten ASCII digits.
pub open spec fn is_digit(c: char) -> bool {
    0x30 <= c as u32 <= 0x39
}

/// The number that the ASCII digit `c` stands for.
pub open spec fn digit_value(c: char) -> nat {
    (c as u32 - 0x30) as nat
}

/// Whether `ds` holds ASCII digits only.
pub open spec fn all_digits(ds: Seq<char>) -> bool {
    forall|i: int| 0 <= i < ds.len() ==> is_digit(#[trigger] ds[i])
}

/// The number that the decimal digits `ds` write; leading zeros count for
/// nothing.
pub open spec fn digits_value(ds: Seq<char>) -> nat
    decreases ds.len(),
{
    if ds.len() == 0 {
        0
    } else {
        10 * digits_value(ds.drop_last()) + digit_value(ds.last())
    }
}

/// `token` without one plus sign at its start, if it has one there.
pub open spec fn strip_plus(token: Seq<char>) -> Seq<char> {
    if token.len() > 0 && token[0] == '+' {
        token.drop_first()
    } else {
        token
    }
}

/// The number that `token` writes in decimal: an optional plus sign followed
/// by at least one ASCII digit, and nothing else.
pub open spec fn parse_unsigned(token: Seq<char>) -> Option<nat> {
    let ds = strip_plus(token);
    if ds.len() > 0 && all_digits(ds) {
        Some(digits_value(ds))
    } else {
        None
    }
}

/// `parse_unsigned`, for numbers that fit the machine's word.
pub open spec fn parse_usize(token: Seq<char>) -> Option<usize> {
    match parse_unsigned(token) {
        Some(v) => if v <= usize::MAX {
            Some(v as usize)
        } else {
            None
        },
        None => None,
    }
}

/// Digits appended to a number never make it smaller.
pub proof fn lemma_digits_value_grows(ds: Seq<char>, k: int)
    requires
        0 <= k <= ds.len(),
    ensures
        digits_value(ds.take(k)) <= digits_value(ds),
    decreases ds.len() - k,
{
    if k < ds.len() {
        lemma_digits_value_grows(ds, k + 1);
        assert(ds.take(k + 1).drop_last() =~= ds.take(k));
    } else {
        assert(ds.take(k) =~= ds);
    }
}

/// Reads `token` as an unsigned decimal number that fits the machine's word.
pub fn parse_usize_chars(token: &[char]) -> (r: Option<usize>)
    ensures
        r == parse_usize(token@),
{
    let ds = if token.len() > 0 && token[0] == '+' {
        let rest = slice_subrange(token, 1, token.len());
        assert(rest@ =~= token@.drop_first());
        rest
    } else {
        token
    };
    assert(ds@ == strip_plus(token@));
    if ds.len() == 0 {
        return None;
    }
    let mut value: usize = 0;
    let mut i: usize = 0;
    assert(ds@.take(0) =~= Seq::<char>::empty());
    while i < ds.len()
        invariant
            i <= ds.len(),
            ds@.len() > 0,
            ds@ == strip_plus(token@),
            all_digits(ds@.take(i as int)),
            value == digits_value(ds@.take(i as int)),
        decreases ds.len() - i,
    {
        let c = ds[i];
        let n: u32 = c as u32;
        if n < 0x30 || n > 0x39 {
            assert(!is_digit(ds@[i as int]));
            return None;
        }
        let d: usize = (n - 0x30) as usize;
        proof {
            let now = ds@.take(i + 1);
            assert(now.drop_last() =~= ds@.take(i as int));
            assert(now.last() == c);
            assert(digits_value(now) == 10 * value + d);
            assert forall|j: int| 0 <= j < now.len() implies is_digit(#[trigger] now[j]) by {
                if j < i {
                    assert(now[j] == ds@.take(i as int)[j]);
                }
            }
        }
        let next = match value.checked_mul(10) {
            Some(tenfold) => tenfold.checked_add(d),
            None => None,
        };
        match next {
            Some(v) => {
                value = v;
            },
            None => {
                // The digits read so far already exceed the word; whatever
                // follows makes a larger number or no number at all.
                proof {
                    lemma_digits_value_grows(ds@, i + 1);
                }
                return None;
            },
        }
        i += 1;
    }
    assert(ds@.take(i as int) =~= ds@);
    Some(value)
}

// ---------------------------------------------------------------------------
// UTF-8 byte lengths and byte offsets
// ---------------------------------------------------------------------------

/// How many bytes the UTF-8 encoding of `c` takes.
pub open spec fn utf8_width(c: char) -> nat {
    let n = c as u32;
    if n < 0x80 {
        1
    } else if n < 0x800 {
        2
    } else if n < 0x10000 {
        3
    } else {
        4
    }
}

/// How many bytes the UTF-8 encoding of `s` takes.
pub open spec fn utf8_len(s: Seq<char>) -> nat
    decreases s.len(),
{
    if s.len() == 0 {
        0
    } else {
        utf8_len(s.drop_last()) + utf8_width(s.last())
    }
}

/// Whether the first `k` characters of `s` fill exactly the first `offset`
/// bytes of its encoding.
pub open spec fn is_char_index_of_byte(s: Seq<char>, k: int, offset: int) -> bool {
    0 <= k <= s.len() && utf8_len(s.take(k)) == offset
}

/// The number of characters that stand before byte `offset` of the encoding
/// of `s`, where that offset falls between two characters or at either end of
/// the text; `None` where it falls inside a character or beyond the end.
pub open spec fn char_index_of_byte(s: Seq<char>, offset: int) -> Option<int> {
    if exists|k: int| is_char_index_of_byte(s, k, offset) {
        Some(choose|k: int| is_char_index_of_byte(s, k, offset))
    } else {
        None
    }
}

/// A longer prefix takes more bytes.
pub proof fn lemma_utf8_len_increases(s: Seq<char>, i: int, j: int)
    requires
        0 <= i < j <= s.len(),
    ensures
        utf8_len(s.take(i)) < utf8_len(s.take(j)),
    decreases j - i,
{
    assert(s.take(j).drop_last() =~= s.take(j - 1));
    if i < j - 1 {
        lemma_utf8_len_increases(s, i, j - 1);
    }
}

/// At most one character index belongs to a byte offset.
pub proof fn lemma_char_index_of_byte(s: Seq<char>, k: int, offset: int)
    requires
        is_char_index_of_byte(s, k, offset),
    ensures
        char_index_of_byte(s, offset) == Some(k),
{
    let c = choose|c: int| is_char_index_of_byte(s, c, offset);
    if c < k {
        lemma_utf8_len_increases(s, c, k);
    } else if k < c {
        lemma_utf8_len_increases(s, k, c);
    }
}

/// How many bytes the UTF-8 encoding of `c` takes.
pub fn char_width(c: char) -> (w: u8)
    ensures
        w == utf8_width(c),
        1 <= w <= 4,
{
    let n: u32 = c as u32;
    if n < 0x80 {
        1
    } else if n < 0x800 {
        2
    } else if n < 0x10000 {
        3
    } else {
        4
    }
}

/// The number of characters of `s` that stand before byte `offset` of its
/// encoding, if the offset does not fall inside a character or beyond the end.
pub fn char_index_at_byte(s: &[char], offset: usize) -> (r: Option<usize>)
    ensures
        match r {
            Some(k) => char_index_of_byte(s@, offset as int) == Some(k as int),
            None => char_index_of_byte(s@, offset as int) is None,
        },
{
    let mut k: usize = 0;
    let mut bytes: u128 = 0;
    assert(s@.take(0) =~= Seq::<char>::empty());
    while k < s.len() && bytes < offset as u128
        invariant
            k <= s.len(),
            bytes == utf8_len(s@.take(k as int)),
            bytes <= 4 * k,
            forall|j: int| 0 <= j < k ==> utf8_len(#[trigger] s@.take(j)) < offset,
        decreases s.len() - k,
    {
        let w = char_width(s[k]);
        proof {
            assert(s@.take(k + 1).drop_last() =~= s@.take(k as int));
        }
        bytes = bytes + w as u128;
        k += 1;
    }
    if bytes == offset as u128 {
        proof {
            lemma_char_index_of_byte(s@, k as int, offset as int);
        }
        Some(k)
    } else {
        proof {
            assert forall|j: int| !is_char_index_of_byte(s@, j, offset as int) by {
                if k <= j <= s.len() {
                    if k < j {
                        lemma_utf8_len_increases(s@, k as int, j);
                    }
                }
            }
        }
        None
    }
}

/// How many bytes the UTF-8 encoding of `s` takes.
pub fn utf8_len_chars(s: &[char]) -> (n: u128)
    ensures
        n == utf8_len(s@),
        n <= 4 * s@.len(),
{
    let mut k: usize = 0;
    let mut bytes: u128 = 0;
    assert(s@.take(0) =~= Seq::<char>::empty());
    while k < s.len()
        invariant
            k <= s.len(),
            bytes == utf8_len(s@.take(k as int)),
            bytes <= 4 * k,
        decreases s.len() - k,
    {
        let w = char_width(s[k]);
        proof {
            assert(s@.take(k + 1).drop_last() =~= s@.take(k as int));
        }
        bytes = bytes + w as u128;
        k += 1;
    }
    assert(s@.take(k as int) =~= s@);
    bytes
}

// ---------------------------------------------------------------------------
// Comparing and writing numbers
// ---------------------------------------------------------------------------

/// Whether two texts hold the same characters.
pub fn same_chars(a: &[char], b: &[char]) -> (r: bool)
    ensures
        r == (a@ == b@),
{
    if a.len() != b.len() {
        return false;
    }
    let mut i: usize = 0;
    while i < a.len()
        invariant
            i <= a.len(),
            a.len() == b.len(),
            forall|j: int| 0 <= j < i ==> a@[j] == b@[j],
        decreases a.len() - i,
    {
        if a[i] != b[i] {
            return false;
        }
        i += 1;
    }
    assert(a@ =~= b@);
    true
}

/// Whether `s` is the text `literal`.
pub fn is_text(s: &str, literal: &str) -> (r: bool)
    ensures
        r == (s@ == literal@),
{
    let a = to_chars(s);
    let b = to_chars(literal);
    same_chars(a.as_slice(), b.as_slice())
}

/// The ASCII digit that stands for `d`.
pub open spec fn digit_char(d: nat) -> char
    recommends
        d < 10,
{
    (0x30 + d) as u8 as char
}

/// The decimal digits of `n`, without leading zeros; `0` is written `0`.
pub open spec fn decimal(n: nat) -> Seq<char>
    decreases n,
{
    if n < 10 {
        seq![digit_char(n)]
    } else {
        decimal(n / 10).push(digit_char(n % 10))
    }
}

/// Appends the decimal digits of `n` to `out`.
pub fn append_decimal(out: &mut Vec<char>, n: u64)
    ensures
        final(out)@ == old(out)@ + decimal(n as nat),
    decreases n,
{
    if n >= 10 {
        append_decimal(out, n / 10);
    }
    let d: u8 = (n % 10) as u8;
    out.push((0x30 + d) as char);
    proof {
        if n < 10 {
            assert(out@ =~= old(out)@ + decimal(n as nat));
        } else {
            assert(out@ =~= old(out)@ + decimal(n as nat));
        }
    }
}

} // verus!
