//! What exporting a note computes before anything is written: the text that
//! goes into the file, the name of the file, and the names that are tried
//! when a file of that name exists already.

use crate::storage::{leading_hashes, lemma_leading_hashes};
use crate::text::{
    append_chars, append_decimal, decimal, from_chars, is_text, join, join_lines, lines,
    split_lines, to_chars, trim, trim_chars, views,
};
use vstd::prelude::*;
use vstd::slice::slice_subrange;

verus! {

// ---------------------------------------------------------------------------
// The text of an exported note
// ---------------------------------------------------------------------------

/// `line` without the `#` characters it begins with, trimmed.
pub open spec fn plain_line(line: Seq<char>) -> Seq<char> {
    trim(line.skip(leading_hashes(line) as int))
}

/// Every line of `ls` as plain text.
pub open spec fn plain_lines(ls: Seq<Seq<char>>) -> Seq<Seq<char>> {
    Seq::new(ls.len(), |i: int| plain_line(ls[i]))
}

/// A note as plain text: every line without its leading `#` characters and
/// the whitespace around what is left, the lines joined by line feeds.
pub open spec fn plain_text(content: Seq<char>) -> Seq<char> {
    join(plain_lines(lines(content)), seq!['\n'])
}

/// What is written when a note is exported in a format: plain text for
/// `txt`, the content as it stands for any other.
pub open spec fn exported_text(content: Seq<char>, format: Seq<char>) -> Seq<char> {
    if format == "txt"@ {
        plain_text(content)
    } else {
        content
    }
}

/// A line as plain text.
pub fn plain_line_chars<'a>(line: &'a [char]) -> (r: &'a [char])
    ensures
        r@ == plain_line(line@),
{
    let mut k: usize = 0;
    while k < line.len() && line[k] == '#'
        invariant
            k <= line.len(),
            forall|j: int| 0 <= j < k ==> #[trigger] line@[j] == '#',
        decreases line.len() - k,
    {
        k += 1;
    }
    proof {
        lemma_leading_hashes(line@, k as int);
    }
    let rest = slice_subrange(line, k, line.len());
    assert(rest@ =~= line@.skip(k as int));
    trim_chars(rest)
}

/// What is written when a note is exported in a format.
pub fn export_text(content: &str, format: &str) -> (text: String)
    ensures
        text@ == exported_text(content@, format@),
{
    if !is_text(format, "txt") {
        return from_chars(to_chars(content).as_slice());
    }
    let chars = to_chars(content);
    let raw = split_lines(chars.as_slice());
    let mut plain: Vec<Vec<char>> = Vec::new();
    let mut i: usize = 0;
    while i < raw.len()
        invariant
            i <= raw.len(),
            views(plain@) == plain_lines(views(raw@)).take(i as int),
        decreases raw.len() - i,
    {
        let line = plain_line_chars(raw[i].as_slice());
        let mut owned: Vec<char> = Vec::new();
        append_chars(&mut owned, line);
        let ghost before = views(plain@);
        plain.push(owned);
        i += 1;
        proof {
            assert(owned@ =~= plain_line(raw@[i - 1]@));
            assert(views(plain@) =~= before.push(owned@));
            assert(views(plain@) =~= plain_lines(views(raw@)).take(i as int));
        }
    }
    assert(views(plain@) =~= plain_lines(views(raw@)));
    let newline: Vec<char> = vec!['\n'];
    assert(newline@ =~= seq!['\n']);
    let joined = join_lines(&plain, newline.as_slice());
    from_chars(joined.as_slice())
}

// ---------------------------------------------------------------------------
// The name of an exported file
// ---------------------------------------------------------------------------

/// The extension of a file in a format: `txt` and `pdf` for themselves, `md`
/// for any other.
pub open spec fn extension_of(format: Seq<char>) -> Seq<char> {
    if format == "txt"@ {
        "txt"@
    } else if format == "pdf"@ {
        "pdf"@
    } else {
        "md"@
    }
}

/// The name of the file to which a note is exported: the name given, a full
/// stop and the extension of the format.
pub open spec fn exported_name(filename: Seq<char>, format: Seq<char>) -> Seq<char> {
    filename + seq!['.'] + extension_of(format)
}

/// The extension of a file in a format.
pub fn export_extension(format: &str) -> (ext: String)
    ensures
        ext@ == extension_of(format@),
{
    if is_text(format, "txt") {
        "txt".to_string()
    } else if is_text(format, "pdf") {
        "pdf".to_string()
    } else {
        "md".to_string()
    }
}

/// The name of the file to which a note is exported.
pub fn export_file_name(filename: &str, format: &str) -> (name: String)
    ensures
        name@ == exported_name(filename@, format@),
{
    let mut name = to_chars(filename);
    let ext = export_extension(format);
    name.push('.');
    append_chars(&mut name, to_chars(ext.as_str()).as_slice());
    assert(name@ =~= exported_name(filename@, format@));
    from_chars(name.as_slice())
}

// ---------------------------------------------------------------------------
// Names that are free
// ---------------------------------------------------------------------------

/// The name that is tried at the `counter`th attempt to find one that no
/// file has yet: the stem, a space, the counter in brackets and, where the
/// file has an extension, a full stop and the extension.
pub open spec fn numbered_name(stem: Seq<char>, extension: Option<Seq<char>>, counter: nat) -> Seq<
    char,
> {
    let numbered = stem + seq![' ', '('] + decimal(counter) + seq![')'];
    match extension {
        Some(e) => numbered + seq!['.'] + e,
        None => numbered,
    }
}

/// The name that is tried at the `counter`th attempt.
pub fn unique_name_candidate(stem: &str, extension: Option<&str>, counter: u64) -> (name: String)
    ensures
        name@ == numbered_name(
            stem@,
            match extension {
                Some(e) => Some(e@),
                None => None,
            },
            counter as nat,
        ),
{
    let mut name = to_chars(stem);
    name.push(' ');
    name.push('(');
    append_decimal(&mut name, counter);
    name.push(')');
    assert(name@ =~= stem@ + seq![' ', '('] + decimal(counter as nat) + seq![')']);
    match extension {
        Some(e) => {
            let ghost numbered = name@;
            name.push('.');
            append_chars(&mut name, to_chars(e).as_slice());
            assert(name@ =~= numbered + seq!['.'] + e@);
        },
        None => {},
    }
    from_chars(name.as_slice())
}

/// What the search for a free name does next.
#[derive(Debug, Clone, Copy, PartialEq, Eq)]
pub enum UniquePathStep {
    /// The name that was tried is free: take it.
    Take,
    /// The name that was tried is taken: try the one with this counter.
    Try(u64),
}

/// What the search does after the attempt with `counter`, given whether the
/// name that was tried is taken.
pub open spec fn next_step(counter: u64, taken: bool) -> UniquePathStep {
    if taken {
        UniquePathStep::Try((counter + 1) as u64)
    } else {
        UniquePathStep::Take
    }
}

/// What the search for a free name does once it knows whether the name tried
/// with `counter` is taken. The base name is tried with counter 0, and the
/// numbered names from 1 on.
pub fn get_unique_path(counter: u64, taken: bool) -> (step: UniquePathStep)
    requires
        counter < u64::MAX,
    ensures
        step == next_step(counter, taken),
{
    if taken {
        UniquePathStep::Try(counter + 1)
    } else {
        UniquePathStep::Take
    }
}

} // verus!
