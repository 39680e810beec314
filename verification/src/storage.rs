//! What describes a note: its title, its preview, its word count, and the
//! record that holds them.

use crate::text::{
    append_chars, char_index_at_byte, char_index_of_byte, char_is_whitespace, from_chars,
    is_blank, is_blank_chars, is_whitespace, join, join_lines, lines, split_lines, to_chars, trim,
    trim_chars, utf8_len, utf8_len_chars, views,
};
use vstd::prelude::*;
use vstd::slice::slice_subrange;

verus! {

/// The description of one note, as it is shown in a list of notes.
#[derive(Debug, Clone)]
pub struct NoteMeta {
    pub id: String,
    pub path: String,
    pub title: String,
    pub preview: String,
    pub created_at: String,
    pub modified_at: String,
    pub word_count: usize,
    pub char_count: usize,
}

// ---------------------------------------------------------------------------
// Names of new files
// ---------------------------------------------------------------------------

/// The pattern by which the moment at which a file is made is written into
/// its name: year, month, day, hour, minute, second and millisecond. The
/// caller reads the clock and writes the moment by this pattern.
pub fn stamp_pattern() -> (pattern: String)
    ensures
        pattern@ == "%Y-%m-%d_%H-%M-%S-%3f"@,
{
    "%Y-%m-%d_%H-%M-%S-%3f".to_string()
}

/// The name of the file of a note that was made at the moment which the
/// stamp writes: the stamp, followed by `.md`.
pub fn generate_note_filename(stamp: &str) -> (name: String)
    ensures
        name@ == stamp@ + ".md"@,
{
    let mut name = to_chars(stamp);
    let suffix = to_chars(".md");
    append_chars(&mut name, suffix.as_slice());
    from_chars(name.as_slice())
}

/// The name of the file of an image that was stored at the moment which the
/// stamp writes: the stamp, a full stop and the extension, which is taken as
/// it stands.
pub fn generate_image_filename(stamp: &str, extension: &str) -> (name: String)
    ensures
        name@ == stamp@ + seq!['.'] + extension@,
{
    let mut name = to_chars(stamp);
    let ext = to_chars(extension);
    name.push('.');
    append_chars(&mut name, ext.as_slice());
    assert(name@ =~= stamp@ + seq!['.'] + extension@);
    from_chars(name.as_slice())
}

// ---------------------------------------------------------------------------
// Shortening
// ---------------------------------------------------------------------------

/// The three full stops that mark a shortened text.
pub open spec fn ellipsis() -> Seq<char> {
    seq!['.', '.', '.']
}

/// Whether `s` can be shortened: it is either short enough to stay as it is,
/// or byte `keep` of its encoding falls between two characters.
pub open spec fn can_shorten(s: Seq<char>, limit: nat, keep: nat) -> bool {
    utf8_len(s) > limit ==> char_index_of_byte(s, keep as int) is Some
}

/// `s` as it stands where its encoding takes at most `limit` bytes; else the
/// characters that fill its first `keep` bytes, followed by an ellipsis.
pub open spec fn shortened(s: Seq<char>, limit: nat, keep: nat) -> Seq<char>
    recommends
        can_shorten(s, limit, keep),
{
    if utf8_len(s) > limit {
        s.take(char_index_of_byte(s, keep as int)->0) + ellipsis()
    } else {
        s
    }
}

/// Shortens `s`; `None` exactly where it cannot be shortened.
pub fn shorten_chars(s: &[char], limit: usize, keep: usize) -> (r: Option<Vec<char>>)
    ensures
        r is Some <==> can_shorten(s@, limit as nat, keep as nat),
        r matches Some(v) ==> v@ == shortened(s@, limit as nat, keep as nat),
{
    let mut out: Vec<char> = Vec::new();
    if utf8_len_chars(s) > limit as u128 {
        match char_index_at_byte(s, keep) {
            Some(k) => {
                append_chars(&mut out, slice_subrange(s, 0, k));
                out.push('.');
                out.push('.');
                out.push('.');
                assert(out@ =~= s@.take(k as int) + ellipsis());
                Some(out)
            },
            None => None,
        }
    } else {
        append_chars(&mut out, s);
        assert(out@ =~= s@);
        Some(out)
    }
}

// ---------------------------------------------------------------------------
// Title
// ---------------------------------------------------------------------------

/// The first line of `ls` that is not blank.
pub open spec fn first_non_blank(ls: Seq<Seq<char>>) -> Option<Seq<char>>
    decreases ls.len(),
{
    if ls.len() == 0 {
        None
    } else if !is_blank(ls[0]) {
        Some(ls[0])
    } else {
        first_non_blank(ls.drop_first())
    }
}

/// How many `#` characters `s` begins with.
pub open spec fn leading_hashes(s: Seq<char>) -> nat
    decreases s.len(),
{
    if s.len() > 0 && s[0] == '#' {
        1 + leading_hashes(s.drop_first())
    } else {
        0
    }
}

/// The text of a heading line: the line trimmed, without the `#` characters
/// it then begins with, trimmed again.
pub open spec fn heading_text(line: Seq<char>) -> Seq<char> {
    let t = trim(line);
    trim(t.skip(leading_hashes(t) as int))
}

/// The title that a note with this content has before it is shortened: the
/// heading text of its first line that is not blank.
pub open spec fn full_title(content: Seq<char>) -> Option<Seq<char>> {
    match first_non_blank(lines(content)) {
        Some(line) => Some(heading_text(line)),
        None => None,
    }
}

/// Whether a note with this content has a title: its full title is either at
/// most 50 bytes long or can be cut after exactly 47 bytes.
pub open spec fn has_title(content: Seq<char>) -> bool {
    full_title(content) matches Some(t) ==> can_shorten(t, 50, 47)
}

/// The title of a note with this content: `Untitled` where every line is
/// blank; else the full title, shortened to 47 bytes and an ellipsis where it
/// is longer than 50 bytes.
pub open spec fn title_of(content: Seq<char>) -> Seq<char>
    recommends
        has_title(content),
{
    match full_title(content) {
        Some(t) => shortened(t, 50, 47),
        None => "Untitled"@,
    }
}

/// `leading_hashes(s)` is the only `k` such that the first `k` characters are
/// `#` and the one after them, if any, is not.
pub proof fn lemma_leading_hashes(s: Seq<char>, k: int)
    requires
        0 <= k <= s.len(),
        forall|i: int| 0 <= i < k ==> #[trigger] s[i] == '#',
        k < s.len() ==> s[k] != '#',
    ensures
        leading_hashes(s) == k,
    decreases s.len(),
{
    if k > 0 {
        assert(s[0] == '#');
        let t = s.drop_first();
        assert forall|i: int| 0 <= i < k - 1 implies #[trigger] t[i] == '#' by {
            assert(t[i] == s[i + 1]);
        }
        if k - 1 < t.len() {
            assert(t[k - 1] == s[k]);
        }
        lemma_leading_hashes(t, k - 1);
    }
}

/// The heading text of `line`.
pub fn heading_text_chars<'a>(line: &'a [char]) -> (r: &'a [char])
    ensures
        r@ == heading_text(line@),
{
    let t = trim_chars(line);
    let mut k: usize = 0;
    while k < t.len() && t[k] == '#'
        invariant
            k <= t.len(),
            forall|j: int| 0 <= j < k ==> #[trigger] t@[j] == '#',
        decreases t.len() - k,
    {
        k += 1;
    }
    proof {
        lemma_leading_hashes(t@, k as int);
    }
    let rest = slice_subrange(t, k, t.len());
    assert(rest@ =~= t@.skip(k as int));
    trim_chars(rest)
}

/// The index of the first line of `ls` that is not blank.
fn first_non_blank_index(ls: &Vec<Vec<char>>) -> (r: Option<usize>)
    ensures
        match r {
            Some(i) => i < ls@.len() && first_non_blank(views(ls@)) == Some(ls@[i as int]@),
            None => first_non_blank(views(ls@)) is None,
        },
{
    let mut i: usize = 0;
    assert(views(ls@).skip(0) =~= views(ls@));
    while i < ls.len()
        invariant
            i <= ls.len(),
            first_non_blank(views(ls@)) == first_non_blank(views(ls@).skip(i as int)),
        decreases ls.len() - i,
    {
        let ghost rest = views(ls@).skip(i as int);
        assert(rest[0] == ls@[i as int]@);
        if !is_blank_chars(ls[i].as_slice()) {
            return Some(i);
        }
        assert(rest.drop_first() =~= views(ls@).skip(i + 1));
        i += 1;
    }
    None
}

/// The title of a note with this content; `None` exactly where it has none,
/// that is where a title longer than 50 bytes cannot be cut after 47.
pub fn try_extract_title(content: &str) -> (title: Option<String>)
    ensures
        title is Some <==> has_title(content@),
        title matches Some(t) ==> t@ == title_of(content@),
{
    let chars = to_chars(content);
    let ls = split_lines(chars.as_slice());
    match first_non_blank_index(&ls) {
        Some(i) => {
            let heading = heading_text_chars(ls[i].as_slice());
            match shorten_chars(heading, 50, 47) {
                Some(t) => Some(from_chars(t.as_slice())),
                None => None,
            }
        },
        None => Some("Untitled".to_string()),
    }
}

/// The title of a note with this content.
pub fn extract_title(content: &str) -> (title: String)
    requires
        has_title(content@),
    ensures
        title@ == title_of(content@),
{
    try_extract_title(content).unwrap()
}

// ---------------------------------------------------------------------------
// Preview
// ---------------------------------------------------------------------------

/// The lines of `ls` that are not blank, in their order.
pub open spec fn non_blank_lines(ls: Seq<Seq<char>>) -> Seq<Seq<char>>
    decreases ls.len(),
{
    if ls.len() == 0 {
        ls
    } else if is_blank(ls.last()) {
        non_blank_lines(ls.drop_last())
    } else {
        non_blank_lines(ls.drop_last()).push(ls.last())
    }
}

/// The first `n` lines of `ls`, or all of them where there are fewer.
pub open spec fn first_lines(ls: Seq<Seq<char>>, n: nat) -> Seq<Seq<char>> {
    if ls.len() <= n {
        ls
    } else {
        ls.take(n as int)
    }
}

/// The preview of a note with this content before it is shortened: its first
/// fifteen lines that are not blank, as they stand, joined by line feeds.
pub open spec fn full_preview(content: Seq<char>) -> Seq<char> {
    join(first_lines(non_blank_lines(lines(content)), 15), seq!['\n'])
}

/// Whether a note with this content has a preview: its full preview is either
/// at most 800 bytes long or can be cut after exactly 797 bytes.
pub open spec fn has_preview(content: Seq<char>) -> bool {
    can_shorten(full_preview(content), 800, 797)
}

/// The preview of a note with this content: the full preview, shortened to
/// 797 bytes and an ellipsis where it is longer than 800 bytes.
pub open spec fn preview_of(content: Seq<char>) -> Seq<char>
    recommends
        has_preview(content),
{
    shortened(full_preview(content), 800, 797)
}

/// The lines that are not blank among the first `i` are the first of those
/// that are not blank among all.
pub proof fn lemma_non_blank_lines_prefix(ls: Seq<Seq<char>>, i: int)
    requires
        0 <= i <= ls.len(),
    ensures
        non_blank_lines(ls.take(i)).len() <= non_blank_lines(ls).len(),
        non_blank_lines(ls).take(non_blank_lines(ls.take(i)).len() as int) == non_blank_lines(
            ls.take(i),
        ),
    decreases ls.len(),
{
    if i == ls.len() {
        assert(ls.take(i) =~= ls);
        assert(non_blank_lines(ls).take(non_blank_lines(ls).len() as int) =~= non_blank_lines(ls));
    } else {
        let shorter = ls.drop_last();
        lemma_non_blank_lines_prefix(shorter, i);
        assert(shorter.take(i) =~= ls.take(i));
        let n = non_blank_lines(ls.take(i)).len() as int;
        assert(non_blank_lines(ls).take(n) =~= non_blank_lines(shorter).take(n));
    }
}

/// The first fifteen lines of `ls` that are not blank.
fn first_non_blank_lines(ls: &Vec<Vec<char>>) -> (kept: Vec<Vec<char>>)
    ensures
        views(kept@) == first_lines(non_blank_lines(views(ls@)), 15),
{
    let mut kept: Vec<Vec<char>> = Vec::new();
    let mut i: usize = 0;
    assert(views(ls@).take(0) =~= Seq::<Seq<char>>::empty());
    assert(views(kept@) =~= Seq::<Seq<char>>::empty());
    while i < ls.len() && kept.len() < 15
        invariant
            i <= ls.len(),
            kept.len() <= 15,
            views(kept@) == non_blank_lines(views(ls@).take(i as int)),
        decreases ls.len() - i,
    {
        let ghost before = views(kept@);
        let ghost now = views(ls@).take(i + 1);
        assert(now.drop_last() =~= views(ls@).take(i as int));
        assert(now.last() == ls@[i as int]@);
        if !is_blank_chars(ls[i].as_slice()) {
            let mut line: Vec<char> = Vec::new();
            append_chars(&mut line, ls[i].as_slice());
            kept.push(line);
            assert(views(kept@) =~= before.push(ls@[i as int]@));
        }
        i += 1;
    }
    proof {
        lemma_non_blank_lines_prefix(views(ls@), i as int);
        if i == ls.len() {
            assert(views(ls@).take(i as int) =~= views(ls@));
        }
    }
    kept
}

/// The preview of a note with this content; `None` exactly where it has none,
/// that is where a preview longer than 800 bytes cannot be cut after 797.
pub fn try_extract_preview(content: &str) -> (preview: Option<String>)
    ensures
        preview is Some <==> has_preview(content@),
        preview matches Some(p) ==> p@ == preview_of(content@),
{
    let chars = to_chars(content);
    let ls = split_lines(chars.as_slice());
    let kept = first_non_blank_lines(&ls);
    let newline: Vec<char> = vec!['\n'];
    assert(newline@ =~= seq!['\n']);
    let joined = join_lines(&kept, newline.as_slice());
    match shorten_chars(joined.as_slice(), 800, 797) {
        Some(p) => Some(from_chars(p.as_slice())),
        None => None,
    }
}

/// The preview of a note with this content.
pub fn extract_preview(content: &str) -> (preview: String)
    requires
        has_preview(content@),
    ensures
        preview@ == preview_of(content@),
{
    try_extract_preview(content).unwrap()
}

// ---------------------------------------------------------------------------
// Emptiness and word count
// ---------------------------------------------------------------------------

/// Whether a note with this content counts as empty: it holds nothing but
/// whitespace.
pub fn is_note_empty(content: &str) -> (b: bool)
    ensures
        b == is_blank(content@),
{
    let chars = to_chars(content);
    is_blank_chars(chars.as_slice())
}

/// Whether a word begins at index `i` of `s`: a character that is not
/// whitespace stands there, and none such directly before it.
pub open spec fn is_word_start(s: Seq<char>, i: int) -> bool {
    0 <= i < s.len() && !is_whitespace(s[i]) && (i == 0 || is_whitespace(s[i - 1]))
}

/// How many words `s` holds, a word being a longest run of characters that
/// are not whitespace.
pub open spec fn word_count(s: Seq<char>) -> nat
    decreases s.len(),
{
    if s.len() == 0 {
        0
    } else if is_word_start(s, s.len() - 1) {
        word_count(s.drop_last()) + 1
    } else {
        word_count(s.drop_last())
    }
}

/// How many words the content holds.
pub fn count_words(content: &str) -> (n: usize)
    ensures
        n == word_count(content@),
{
    let chars = to_chars(content);
    let s = chars.as_slice();
    let mut n: usize = 0;
    let mut i: usize = 0;
    let mut in_word = false;
    assert(s@.take(0) =~= Seq::<char>::empty());
    while i < s.len()
        invariant
            i <= s.len(),
            n == word_count(s@.take(i as int)),
            n <= i,
            in_word == (i > 0 && !is_whitespace(s@[i - 1])),
        decreases s.len() - i,
    {
        let white = char_is_whitespace(s[i]);
        proof {
            let now = s@.take(i + 1);
            assert(now.drop_last() =~= s@.take(i as int));
            assert(is_word_start(now, i as int) == (!white && !in_word));
        }
        if !white && !in_word {
            n += 1;
        }
        in_word = !white;
        i += 1;
    }
    assert(s@.take(i as int) =~= s@);
    n
}

} // verus!
