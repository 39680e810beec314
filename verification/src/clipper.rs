//! Reading the clipboard's rich payload and deciding what becomes of it.
//!
//! A rich payload is a container: a few `key:value` header lines that give
//! byte offsets into the payload, followed by the markup itself. The HTML is
//! taken out of it by the first of three strategies that yields something:
//! the fragment that the header's offsets bracket, the text from the opening
//! tag of the document on, the text from the first angle bracket on.

use crate::normal_form::{is_tidy, is_trimmed};
use crate::normalize::{clean_markdown, normalized};
use crate::text::{
    append_chars, char_index_at_byte, char_index_of_byte, find, find_chars, first_newline,
    first_newline_chars, first_token, first_token_chars, from_chars, is_blank, is_blank_chars,
    is_char_index_of_byte, lemma_char_index_of_byte, lemma_find, lemma_utf8_len_increases,
    occurs_at, parse_usize, parse_usize_chars, to_chars, utf8_len, utf8_len_chars,
};
use vstd::prelude::*;
use vstd::slice::slice_subrange;

verus! {

// ---------------------------------------------------------------------------
// The container header
// ---------------------------------------------------------------------------

/// The header key whose value is the byte offset at which the fragment
/// begins.
pub open spec fn start_fragment_key() -> Seq<char> {
    "StartFragment:"@
}

/// The header key whose value is the byte offset at which the fragment ends.
pub open spec fn end_fragment_key() -> Seq<char> {
    "EndFragment:"@
}

/// The opening of the tag that begins an HTML document.
pub open spec fn document_root_tag() -> Seq<char> {
    "<html"@
}

/// The character that opens any tag.
pub open spec fn tag_opener() -> Seq<char> {
    "<"@
}

/// The offset that the header gives under `key`: the first
/// whitespace-delimited token after the first occurrence of `key`, on the
/// rest of the line on which the key stands, read as an unsigned number.
/// `None` where the key does not occur, where nothing follows it on its line,
/// or where the token is not such a number.
pub open spec fn header_offset(payload: Seq<char>, key: Seq<char>) -> Option<usize> {
    match find(payload, key) {
        None => None,
        Some(i) => {
            let rest = payload.skip(i + key.len());
            parse_usize(first_token(rest.take(first_newline(rest) as int)))
        },
    }
}

/// The offset that the header of `payload` gives under `key`.
pub fn read_header_offset(payload: &[char], key: &[char]) -> (r: Option<usize>)
    ensures
        r == header_offset(payload@, key@),
{
    match find_chars(payload, key) {
        None => None,
        Some(i) => {
            proof {
                lemma_find(payload@, key@);
                assert(occurs_at(payload@, key@, i as int));
            }
            let total = payload.len();
            let rest = slice_subrange(payload, i + key.len(), total);
            assert(rest@ =~= payload@.skip(i + key.len()));
            let n = first_newline_chars(rest);
            let line = slice_subrange(rest, 0, n);
            assert(line@ =~= rest@.take(n as int));
            parse_usize_chars(first_token_chars(line))
        },
    }
}

// ---------------------------------------------------------------------------
// The three extraction strategies
// ---------------------------------------------------------------------------

/// The character indices `(a, b)` of the fragment, where the header is to be
/// trusted: both offsets are given, the end lies after the start and within
/// the payload, and neither offset cuts a character in two.
pub open spec fn fragment_span(payload: Seq<char>) -> Option<(int, int)> {
    match (
        header_offset(payload, start_fragment_key()),
        header_offset(payload, end_fragment_key()),
    ) {
        (Some(start), Some(end)) => {
            if end > start && end <= utf8_len(payload) {
                match (
                    char_index_of_byte(payload, start as int),
                    char_index_of_byte(payload, end as int),
                ) {
                    (Some(a), Some(b)) => Some((a, b)),
                    _ => None,
                }
            } else {
                None
            }
        },
        _ => None,
    }
}

/// First strategy: the part of the payload between the two byte offsets of a
/// trustworthy header.
pub open spec fn fragment_html(payload: Seq<char>) -> Option<Seq<char>> {
    match fragment_span(payload) {
        Some((a, b)) => Some(payload.subrange(a, b)),
        None => None,
    }
}

/// Second strategy: the payload from the first `<html` on.
pub open spec fn document_root_html(payload: Seq<char>) -> Option<Seq<char>> {
    match find(payload, document_root_tag()) {
        Some(i) => Some(payload.skip(i)),
        None => None,
    }
}

/// Third strategy: the payload from the first `<` on.
pub open spec fn first_tag_html(payload: Seq<char>) -> Option<Seq<char>> {
    match find(payload, tag_opener()) {
        Some(i) => Some(payload.skip(i)),
        None => None,
    }
}

/// The HTML that the payload holds: what the first strategy yields, else what
/// the second yields, else what the third yields, else nothing.
pub open spec fn extracted_html(payload: Seq<char>) -> Option<Seq<char>> {
    if fragment_html(payload) is Some {
        fragment_html(payload)
    } else if document_root_html(payload) is Some {
        document_root_html(payload)
    } else {
        first_tag_html(payload)
    }
}

/// A fragment span lies within the payload, and its start before its end.
pub proof fn lemma_fragment_span_bounds(payload: Seq<char>)
    ensures
        fragment_span(payload) matches Some((a, b)) ==> 0 <= a < b <= payload.len(),
{
    if let Some((a, b)) = fragment_span(payload) {
        let start = header_offset(payload, start_fragment_key())->0;
        let end = header_offset(payload, end_fragment_key())->0;
        assert(is_char_index_of_byte(payload, a, start as int));
        assert(is_char_index_of_byte(payload, b, end as int));
        if b < a {
            lemma_utf8_len_increases(payload, b, a);
        }
    }
}

/// The character indices of the fragment, if the header is to be trusted.
pub fn find_fragment_span(payload: &[char]) -> (r: Option<(usize, usize)>)
    ensures
        match r {
            Some((a, b)) => fragment_span(payload@) == Some((a as int, b as int)) && a < b
                <= payload@.len(),
            None => fragment_span(payload@) is None,
        },
{
    let start_key = to_chars("StartFragment:");
    let end_key = to_chars("EndFragment:");
    let start = read_header_offset(payload, start_key.as_slice());
    let end = read_header_offset(payload, end_key.as_slice());
    match (start, end) {
        (Some(start), Some(end)) => {
            if end > start && end as u128 <= utf8_len_chars(payload) {
                match (char_index_at_byte(payload, start), char_index_at_byte(payload, end)) {
                    (Some(a), Some(b)) => {
                        proof {
                            lemma_fragment_span_bounds(payload@);
                        }
                        Some((a, b))
                    },
                    _ => None,
                }
            } else {
                None
            }
        },
        _ => None,
    }
}

/// The payload from the first occurrence of `pattern` on.
fn tail_from_first(payload: &[char], pattern: &str) -> (r: Option<Vec<char>>)
    ensures
        match find(payload@, pattern@) {
            Some(i) => r matches Some(v) && v@ == payload@.skip(i),
            None => r is None,
        },
{
    let pat = to_chars(pattern);
    match find_chars(payload, pat.as_slice()) {
        Some(i) => {
            proof {
                lemma_find(payload@, pat@);
            }
            let tail = slice_subrange(payload, i, payload.len());
            assert(tail@ =~= payload@.skip(i as int));
            Some(copy_chars(tail))
        },
        None => None,
    }
}

/// A vector that holds the characters of `s`.
fn copy_chars(s: &[char]) -> (v: Vec<char>)
    ensures
        v@ == s@,
{
    let mut v: Vec<char> = Vec::new();
    append_chars(&mut v, s);
    assert(v@ =~= s@);
    v
}

/// The text of an optional string.
pub open spec fn text_of(s: Option<String>) -> Option<Seq<char>> {
    match s {
        Some(s) => Some(s@),
        None => None,
    }
}

/// The text of an optional character vector.
pub open spec fn chars_of(s: Option<Vec<char>>) -> Option<Seq<char>> {
    match s {
        Some(s) => Some(s@),
        None => None,
    }
}

/// First strategy, on characters.
pub fn extract_fragment_chars(payload: &[char]) -> (r: Option<Vec<char>>)
    ensures
        chars_of(r) == fragment_html(payload@),
{
    match find_fragment_span(payload) {
        Some((a, b)) => Some(copy_chars(slice_subrange(payload, a, b))),
        None => None,
    }
}

/// Second strategy, on characters.
pub fn extract_document_root_chars(payload: &[char]) -> (r: Option<Vec<char>>)
    ensures
        chars_of(r) == document_root_html(payload@),
{
    tail_from_first(payload, "<html")
}

/// Third strategy, on characters.
pub fn extract_first_tag_chars(payload: &[char]) -> (r: Option<Vec<char>>)
    ensures
        chars_of(r) == first_tag_html(payload@),
{
    tail_from_first(payload, "<")
}

/// The three strategies in order, on characters.
pub fn extract_html_chars(payload: &[char]) -> (r: Option<Vec<char>>)
    ensures
        chars_of(r) == extracted_html(payload@),
{
    let fragment = extract_fragment_chars(payload);
    if fragment.is_some() {
        return fragment;
    }
    let root = extract_document_root_chars(payload);
    if root.is_some() {
        return root;
    }
    extract_first_tag_chars(payload)
}

/// Takes the HTML out of a rich clipboard payload.
///
/// Where the header gives a trustworthy fragment, the result is exactly that
/// fragment, whatever else the payload holds. Otherwise it is the payload
/// from the first `<html` on, or failing that from the first `<` on. A payload
/// with none of these holds no HTML.
pub fn extract_html_from_cf_html(cf_html: &str) -> (html: Option<String>)
    ensures
        text_of(html) == extracted_html(cf_html@),
{
    let payload = to_chars(cf_html);
    match extract_html_chars(payload.as_slice()) {
        Some(chars) => Some(from_chars(chars.as_slice())),
        None => None,
    }
}

// ---------------------------------------------------------------------------
// Laws of extraction
// ---------------------------------------------------------------------------

/// Fragment offsets take precedence. Let the payload be `before`, then a
/// fragment that is not empty, then `after`, and let its header give the byte
/// length of `before` as the start and the byte length of `before` and the
/// fragment together as the end. Then extraction yields exactly the fragment,
/// whatever markup stands before and after it.
pub proof fn lemma_fragment_takes_precedence(
    before: Seq<char>,
    fragment: Seq<char>,
    after: Seq<char>,
)
    requires
        fragment.len() > 0,
        header_offset(before + fragment + after, start_fragment_key()) matches Some(start)
            && start == utf8_len(before),
        header_offset(before + fragment + after, end_fragment_key()) matches Some(end) && end
            == utf8_len(before + fragment),
    ensures
        extracted_html(before + fragment + after) == Some(fragment),
{
    let payload = before + fragment + after;
    let a = before.len() as int;
    let b = a + fragment.len();
    let start = header_offset(payload, start_fragment_key())->0;
    let end = header_offset(payload, end_fragment_key())->0;
    assert(payload.take(a) =~= before);
    assert(payload.take(b) =~= before + fragment);
    assert(payload.take(payload.len() as int) =~= payload);
    lemma_utf8_len_increases(payload, a, b);
    if b < payload.len() {
        lemma_utf8_len_increases(payload, b, payload.len() as int);
    }
    lemma_char_index_of_byte(payload, a, start as int);
    lemma_char_index_of_byte(payload, b, end as int);
    assert(fragment_span(payload) == Some((a, b)));
    assert(payload.subrange(a, b) =~= fragment);
}

/// A header that is not to be trusted is ignored. Where an offset is missing
/// or is no number, where the end does not lie after the start, or where the
/// end lies beyond the payload, extraction goes on to the document root, and
/// from there to the first tag.
pub proof fn lemma_untrusted_header_falls_through(payload: Seq<char>)
    requires
        ({
            let start = header_offset(payload, start_fragment_key());
            let end = header_offset(payload, end_fragment_key());
            ||| start is None
            ||| end is None
            ||| end->0 <= start->0
            ||| end->0 > utf8_len(payload)
        }),
    ensures
        fragment_html(payload) is None,
        extracted_html(payload) == if document_root_html(payload) is Some {
            document_root_html(payload)
        } else {
            first_tag_html(payload)
        },
{
}

/// No markup, no HTML. A payload without any `<`, whose header brackets no
/// fragment, holds no HTML.
pub proof fn lemma_without_tag_no_html(payload: Seq<char>)
    requires
        forall|i: int| 0 <= i < payload.len() ==> payload[i] != '<',
        fragment_span(payload) is None,
    ensures
        extracted_html(payload) is None,
{
    reveal_strlit("<html");
    reveal_strlit("<");
    lemma_find(payload, document_root_tag());
    lemma_find(payload, tag_opener());
    if let Some(i) = find(payload, document_root_tag()) {
        assert(payload.subrange(i, i + 5)[0] == '<');
    }
    if let Some(i) = find(payload, tag_opener()) {
        assert(payload.subrange(i, i + 1)[0] == '<');
    }
}

// ---------------------------------------------------------------------------
// What one invocation works on
// ---------------------------------------------------------------------------

/// What the clipboard held when it was read: the rich payload as raw bytes,
/// header included, and the plain text. Either may be missing.
#[derive(Debug, Clone)]
pub struct ClipboardSnapshot {
    pub raw_rich_payload: Option<Vec<u8>>,
    pub plain_text: Option<String>,
}

/// What the Markdown is made from: HTML that still has to be converted, or
/// plain text that is passed on as it stands.
#[derive(Debug, Clone, PartialEq, Eq)]
pub enum MarkdownSource {
    Html { html: String },
    Text { text: String },
}

/// The text that a [`MarkdownSource`] holds, and of which kind it is.
pub ghost enum SourceText {
    Html(Seq<char>),
    Text(Seq<char>),
}

impl View for MarkdownSource {
    type V = SourceText;

    open spec fn view(&self) -> SourceText {
        match self {
            MarkdownSource::Html { html } => SourceText::Html(html@),
            MarkdownSource::Text { text } => SourceText::Text(text@),
        }
    }
}

/// Why an invocation failed. Every failure ends the invocation; none is
/// retried.
#[derive(Debug, Clone, PartialEq, Eq)]
pub enum ClipError {
    /// The clipboard could not be opened; the platform's reason is attached.
    ClipboardUnavailable(String),
    /// Neither usable HTML nor plain text was found.
    ClipboardEmpty,
    /// The converter failed on the HTML; its reason is attached.
    ConversionFailed(String),
    /// The result could not be written back; the platform's reason is
    /// attached.
    WriteBackFailed(String),
}

impl ClipError {
    /// The message that the user is shown for this failure.
    pub open spec fn message_text(self) -> Seq<char> {
        match self {
            ClipError::ClipboardUnavailable(reason) => reason@,
            ClipError::ClipboardEmpty => "Clipboard is empty"@,
            ClipError::ConversionFailed(reason) => reason@,
            ClipError::WriteBackFailed(reason) => reason@,
        }
    }

    /// The message that the user is shown for this failure.
    pub fn message(&self) -> (s: String)
        ensures
            s@ == self.message_text(),
    {
        match self {
            ClipError::ClipboardUnavailable(reason) => reason.clone(),
            ClipError::ClipboardEmpty => "Clipboard is empty".to_string(),
            ClipError::ConversionFailed(reason) => reason.clone(),
            ClipError::WriteBackFailed(reason) => reason.clone(),
        }
    }
}

// ---------------------------------------------------------------------------
// Decoding the payload
// ---------------------------------------------------------------------------

/// The text that `String::from_utf8_lossy` makes of a byte sequence.
pub uninterp spec fn utf8_lossy(bytes: Seq<u8>) -> Seq<char>;

/// Calls `String::from_utf8_lossy`. The result depends on the bytes alone.
/// Bytes that are valid UTF-8 decode to the text they encode; of any other
/// input nothing is claimed but that the result is the named one.
#[verifier::external_body]
fn decode_lossy(bytes: &[u8]) -> (text: String)
    ensures
        text@ == utf8_lossy(bytes@),
        vstd::utf8::valid_utf8(bytes@) ==> text@ == vstd::utf8::decode_utf8(bytes@),
{
    String::from_utf8_lossy(bytes).into_owned()
}

// ---------------------------------------------------------------------------
// Reading
// ---------------------------------------------------------------------------

/// The HTML that the snapshot's rich payload holds, if it has a payload and
/// the payload holds any.
pub open spec fn clipboard_html(snapshot: ClipboardSnapshot) -> Option<Seq<char>> {
    match snapshot.raw_rich_payload {
        Some(bytes) => extracted_html(utf8_lossy(bytes@)),
        None => None,
    }
}

/// What the snapshot yields: its HTML where that is not blank; else its plain
/// text where there is any; else nothing.
pub open spec fn source_text(snapshot: ClipboardSnapshot) -> Option<SourceText> {
    if clipboard_html(snapshot) is Some && !is_blank(clipboard_html(snapshot)->0) {
        Some(SourceText::Html(clipboard_html(snapshot)->0))
    } else if snapshot.plain_text is Some && snapshot.plain_text->0@.len() > 0 {
        Some(SourceText::Text(snapshot.plain_text->0@))
    } else {
        None
    }
}

/// The HTML of the snapshot's rich payload: the payload is decoded as text,
/// and the HTML is taken out of it. A payload that is valid UTF-8 is decoded
/// to the text that it encodes.
pub fn get_clipboard_html(snapshot: &ClipboardSnapshot) -> (html: Option<String>)
    ensures
        text_of(html) == clipboard_html(*snapshot),
        snapshot.raw_rich_payload is Some && vstd::utf8::valid_utf8(
            snapshot.raw_rich_payload->0@,
        ) ==> utf8_lossy(snapshot.raw_rich_payload->0@) == vstd::utf8::decode_utf8(
            snapshot.raw_rich_payload->0@,
        ),
{
    match &snapshot.raw_rich_payload {
        Some(bytes) => {
            let payload = decode_lossy(bytes.as_slice());
            extract_html_from_cf_html(payload.as_str())
        },
        None => None,
    }
}

/// Settles what the Markdown is to be made from.
///
/// HTML wins where the rich payload holds any that is not blank. A payload
/// that is missing, blank or without markup counts for nothing, and the plain
/// text is taken in its place. With neither, the clipboard is empty. A
/// payload that is valid UTF-8 is decoded to the text that it encodes.
pub fn read(snapshot: &ClipboardSnapshot) -> (res: Result<MarkdownSource, ClipError>)
    ensures
        match source_text(*snapshot) {
            Some(source) => res matches Ok(found) && found@ == source,
            None => res == Err::<MarkdownSource, ClipError>(ClipError::ClipboardEmpty),
        },
        snapshot.raw_rich_payload is Some && vstd::utf8::valid_utf8(
            snapshot.raw_rich_payload->0@,
        ) ==> utf8_lossy(snapshot.raw_rich_payload->0@) == vstd::utf8::decode_utf8(
            snapshot.raw_rich_payload->0@,
        ),
{
    if let Some(html) = get_clipboard_html(snapshot) {
        let chars = to_chars(html.as_str());
        if !is_blank_chars(chars.as_slice()) {
            return Ok(MarkdownSource::Html { html });
        }
    }
    if let Some(text) = &snapshot.plain_text {
        if !text.as_str().is_empty() {
            return Ok(MarkdownSource::Text { text: text.clone() });
        }
    }
    Err(ClipError::ClipboardEmpty)
}

// ---------------------------------------------------------------------------
// Orchestration
// ---------------------------------------------------------------------------

/// What is to be done next with what the clipboard held.
#[derive(Debug, Clone, PartialEq, Eq)]
pub enum ClipStep {
    /// This HTML is to be converted to Markdown; what the converter returns
    /// goes to [`render_converted`].
    Convert { html: String },
    /// This text is to be written back to the clipboard as it stands.
    WriteBack { markdown: String },
}

/// What a [`ClipStep`] holds, as plain values.
pub ghost enum ClipStepView {
    Convert(Seq<char>),
    WriteBack(Seq<char>),
}

impl View for ClipStep {
    type V = ClipStepView;

    open spec fn view(&self) -> ClipStepView {
        match self {
            ClipStep::Convert { html } => ClipStepView::Convert(html@),
            ClipStep::WriteBack { markdown } => ClipStepView::WriteBack(markdown@),
        }
    }
}

/// The step that a source calls for: HTML is to be converted; plain text is
/// written back as it stands, untrimmed.
pub open spec fn step_for(source: SourceText) -> ClipStepView {
    match source {
        SourceText::Html(html) => ClipStepView::Convert(html),
        SourceText::Text(text) => ClipStepView::WriteBack(text),
    }
}

/// Decides what is to be done with what the clipboard held.
///
/// HTML is handed out for conversion, and plain text is handed back to be
/// written as it stands. It fails with `ClipboardEmpty`, and only with that,
/// exactly when the snapshot yields neither. A payload that is valid UTF-8 is
/// decoded to the text that it encodes.
pub fn clip_to_markdown(snapshot: &ClipboardSnapshot) -> (res: Result<ClipStep, ClipError>)
    ensures
        match source_text(*snapshot) {
            Some(source) => res matches Ok(step) && step@ == step_for(source),
            None => res == Err::<ClipStep, ClipError>(ClipError::ClipboardEmpty),
        },
        snapshot.raw_rich_payload is Some && vstd::utf8::valid_utf8(
            snapshot.raw_rich_payload->0@,
        ) ==> utf8_lossy(snapshot.raw_rich_payload->0@) == vstd::utf8::decode_utf8(
            snapshot.raw_rich_payload->0@,
        ),
{
    match read(snapshot) {
        Ok(MarkdownSource::Html { html }) => Ok(ClipStep::Convert { html }),
        Ok(MarkdownSource::Text { text }) => Ok(ClipStep::WriteBack { markdown: text }),
        Err(e) => Err(e),
    }
}

/// Settles what is written back once the converter has returned.
///
/// What the converter made of the HTML is normalized. Where the converter
/// failed, the invocation fails with `ConversionFailed` and the converter's
/// reason.
pub fn render_converted(converted: Result<String, String>) -> (res: Result<String, ClipError>)
    ensures
        match converted {
            Ok(md) => res matches Ok(out) && out@ == normalized(md@) && is_tidy(out@)
                && is_trimmed(out@),
            Err(reason) => res == Err::<String, ClipError>(ClipError::ConversionFailed(reason)),
        },
{
    match converted {
        Ok(md) => Ok(clean_markdown(md.as_str())),
        Err(reason) => Err(ClipError::ConversionFailed(reason)),
    }
}

} // verus!
