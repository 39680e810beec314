//! What the note commands compute between reading and writing files: the
//! description of a new, a saved and a listed note, the order of the list,
//! and which empty notes are old enough to be cleaned up.

use crate::storage::{
    count_words, extract_preview, extract_title, has_preview, has_title, is_note_empty,
    preview_of, title_of, try_extract_preview, try_extract_title, word_count, NoteMeta,
};
use crate::text::{ends_with, from_chars, is_blank, is_text, matches_at, to_chars};
use vstd::prelude::*;
use vstd::slice::slice_subrange;

verus! {

// ---------------------------------------------------------------------------
// The description of a note as a value
// ---------------------------------------------------------------------------

/// What a [`NoteMeta`] holds, as plain values.
pub ghost struct NoteMetaView {
    pub id: Seq<char>,
    pub path: Seq<char>,
    pub title: Seq<char>,
    pub preview: Seq<char>,
    pub created_at: Seq<char>,
    pub modified_at: Seq<char>,
    pub word_count: nat,
    pub char_count: nat,
}

impl View for NoteMeta {
    type V = NoteMetaView;

    open spec fn view(&self) -> NoteMetaView {
        NoteMetaView {
            id: self.id@,
            path: self.path@,
            title: self.title@,
            preview: self.preview@,
            created_at: self.created_at@,
            modified_at: self.modified_at@,
            word_count: self.word_count as nat,
            char_count: self.char_count as nat,
        }
    }
}

/// Whether a note with this content can be described: it has a title and a
/// preview.
pub open spec fn is_describable(content: Seq<char>) -> bool {
    has_title(content) && has_preview(content)
}

/// The description of a note with this content.
pub open spec fn described(
    id: Seq<char>,
    path: Seq<char>,
    content: Seq<char>,
    created_at: Seq<char>,
    modified_at: Seq<char>,
) -> NoteMetaView
    recommends
        is_describable(content),
{
    NoteMetaView {
        id,
        path,
        title: title_of(content),
        preview: preview_of(content),
        created_at,
        modified_at,
        word_count: word_count(content),
        char_count: content.len(),
    }
}

/// Whether a note with this content can be described.
pub fn can_describe(content: &str) -> (b: bool)
    ensures
        b == is_describable(content@),
{
    try_extract_title(content).is_some() && try_extract_preview(content).is_some()
}

/// Describes a note with this content.
pub fn describe(id: String, path: String, content: &str, created_at: String, modified_at: String)
    -> (meta: NoteMeta)
    requires
        is_describable(content@),
    ensures
        meta@ == described(id@, path@, content@, created_at@, modified_at@),
{
    let chars = to_chars(content);
    NoteMeta {
        id,
        path,
        title: extract_title(content),
        preview: extract_preview(content),
        created_at,
        modified_at,
        word_count: count_words(content),
        char_count: chars.len(),
    }
}

// ---------------------------------------------------------------------------
// Creating and saving
// ---------------------------------------------------------------------------

/// The ending of the name of a note's file.
pub open spec fn note_suffix() -> Seq<char> {
    ".md"@
}

/// `name` without every `.md` that it ends with.
pub open spec fn note_id_of(name: Seq<char>) -> Seq<char>
    decreases name.len(),
{
    if note_suffix().len() > 0 && ends_with(name, note_suffix()) {
        note_id_of(name.take(name.len() - note_suffix().len()))
    } else {
        name
    }
}

/// The id of the note that is kept in the file of this name.
pub fn note_id(filename: &str) -> (id: String)
    ensures
        id@ == note_id_of(filename@),
{
    let name = to_chars(filename);
    let suffix = to_chars(".md");
    let k = suffix.len();
    let mut n: usize = name.len();
    assert(name@.take(n as int) =~= name@);
    if k == 0 {
        return from_chars(name.as_slice());
    }
    while n >= k && matches_at(slice_subrange(name.as_slice(), 0, n), suffix.as_slice(), n - k)
        invariant
            n <= name.len(),
            k == suffix@.len(),
            k > 0,
            suffix@ == note_suffix(),
            note_id_of(name@) == note_id_of(name@.take(n as int)),
        decreases n,
    {
        assert(name@.take(n as int).take(n - k) =~= name@.take(n - k));
        n -= k;
    }
    from_chars(slice_subrange(name.as_slice(), 0, n))
}

/// The description of a note that has just been created in the file of this
/// name: no title yet, no content, and created and modified at one and the
/// same moment, `now`, which the caller read from the clock.
pub fn create_note(filename: &str, path: String, now: String) -> (meta: NoteMeta)
    ensures
        meta.id@ == note_id_of(filename@),
        meta.path@ == path@,
        meta.title@ == "Untitled"@,
        meta.preview@.len() == 0,
        meta.created_at@ == now@,
        meta.modified_at@ == now@,
        meta.word_count == 0,
        meta.char_count == 0,
{
    NoteMeta {
        id: note_id(filename),
        path,
        title: "Untitled".to_string(),
        preview: String::new(),
        created_at: now.clone(),
        modified_at: now,
        word_count: 0,
        char_count: 0,
    }
}

/// The description of a note that has just been saved with this content. It
/// says nothing of when the note was created, and the note counts as
/// modified at `now`, which the caller read from the clock.
pub fn save_note(id: String, path: String, content: &str, now: String) -> (meta: NoteMeta)
    requires
        is_describable(content@),
    ensures
        meta@ == described(id@, path@, content@, Seq::<char>::empty(), now@),
{
    describe(id, path, content, String::new(), now)
}

// ---------------------------------------------------------------------------
// Listing
// ---------------------------------------------------------------------------

/// What was read of one file of the notes directory.
#[derive(Debug, Clone)]
pub struct NoteFile {
    /// The path of the file.
    pub path: String,
    /// The name of the file without its extension.
    pub stem: String,
    /// The extension of the file, if it has one.
    pub extension: Option<String>,
    /// What the file holds; empty where it could not be read as text.
    pub content: String,
    /// When the file was last modified, in seconds since 1970, if known.
    pub modified_secs: Option<u64>,
    /// When the file was created, in seconds since 1970, if known.
    pub created_secs: Option<u64>,
}

/// What a [`NoteFile`] holds, as plain values.
pub ghost struct NoteFileView {
    pub path: Seq<char>,
    pub stem: Seq<char>,
    pub extension: Option<Seq<char>>,
    pub content: Seq<char>,
    pub modified_secs: Option<u64>,
    pub created_secs: Option<u64>,
}

impl View for NoteFile {
    type V = NoteFileView;

    open spec fn view(&self) -> NoteFileView {
        NoteFileView {
            path: self.path@,
            stem: self.stem@,
            extension: match self.extension {
                Some(e) => Some(e@),
                None => None,
            },
            content: self.content@,
            modified_secs: self.modified_secs,
            created_secs: self.created_secs,
        }
    }
}

/// The RFC 3339 text that chrono writes for the moment `secs` seconds after
/// the start of 1970 in universal time; `None` where chrono cannot hold that
/// moment.
pub uninterp spec fn rfc3339_of_unix_seconds(secs: int) -> Option<Seq<char>>;

/// Calls `chrono::DateTime::from_timestamp` with no nanoseconds and writes
/// the moment it returns with `DateTime::to_rfc3339`. The first returns
/// `None` for a number of seconds that is out of its range; the second
/// prints a moment in universal time. The result depends on the number
/// alone.
#[verifier::external_body]
fn unix_seconds_to_rfc3339(secs: i64) -> (text: Option<String>)
    ensures
        match text {
            Some(t) => rfc3339_of_unix_seconds(secs as int) == Some(t@),
            None => rfc3339_of_unix_seconds(secs as int) is None,
        },
{
    match chrono::DateTime::from_timestamp(secs, 0) {
        Some(moment) => Some(moment.to_rfc3339()),
        None => None,
    }
}

/// How a moment of a file is written: as RFC 3339 text, where the moment is
/// known and can be written; else as the empty text. The seconds are read as
/// a signed 64-bit number.
pub open spec fn moment_text(secs: Option<u64>) -> Seq<char> {
    match secs {
        Some(s) => text_or_empty(rfc3339_of_unix_seconds((s as i64) as int)),
        None => Seq::empty(),
    }
}

/// The text, or the empty text where there is none.
pub open spec fn text_or_empty(written: Option<Seq<char>>) -> Seq<char> {
    match written {
        Some(t) => t,
        None => Seq::empty(),
    }
}

/// The text that was written for a moment, or the empty text where none
/// could be written.
pub fn written_or_empty(written: Option<String>) -> (text: String)
    ensures
        text@ == text_or_empty(
            match written {
                Some(t) => Some(t@),
                None => None,
            },
        ),
{
    match written {
        Some(t) => t,
        None => String::new(),
    }
}

/// Writes a moment given in seconds since 1970.
pub fn write_moment(secs: Option<u64>) -> (text: String)
    ensures
        text@ == moment_text(secs),
{
    match secs {
        Some(s) => {
            let signed: i64 = #[verifier::truncate]
            (s as i64);
            written_or_empty(unix_seconds_to_rfc3339(signed))
        },
        None => String::new(),
    }
}

/// Whether the file holds a note: its extension is `md`.
pub open spec fn is_note_file(file: NoteFileView) -> bool {
    file.extension == Some("md"@)
}

/// The description of the note that a file holds.
pub open spec fn listed(file: NoteFileView) -> NoteMetaView {
    described(
        file.stem,
        file.path,
        file.content,
        moment_text(file.created_secs),
        moment_text(file.modified_secs),
    )
}

/// Whether `a` comes before `b` in the order of strings: at the first place
/// where they differ `a` has the smaller character, or `a` ends there and `b`
/// goes on.
pub open spec fn text_before(a: Seq<char>, b: Seq<char>) -> bool
    decreases a.len(),
{
    if b.len() == 0 {
        false
    } else if a.len() == 0 {
        true
    } else if a[0] != b[0] {
        (a[0] as u32) < (b[0] as u32)
    } else {
        text_before(a.drop_first(), b.drop_first())
    }
}

/// Where a note goes into a list that has the most recently modified first:
/// before the first note that was modified earlier than it, and so after
/// every note that was modified at the same moment.
pub open spec fn place_by_recency(list: Seq<NoteMetaView>, note: NoteMetaView) -> int
    decreases list.len(),
{
    if list.len() == 0 || text_before(list[0].modified_at, note.modified_at) {
        0
    } else {
        1 + place_by_recency(list.drop_first(), note)
    }
}

/// The list of the notes that the files hold: the descriptions of the files
/// with the extension `md`, the most recently modified first, and where two
/// were modified at the same moment, in the order of the files.
pub open spec fn listing(files: Seq<NoteFileView>) -> Seq<NoteMetaView>
    decreases files.len(),
{
    if files.len() == 0 {
        Seq::empty()
    } else {
        let earlier = listing(files.drop_last());
        if is_note_file(files.last()) {
            earlier.insert(place_by_recency(earlier, listed(files.last())), listed(files.last()))
        } else {
            earlier
        }
    }
}

/// What a vector of descriptions holds, as plain values.
pub open spec fn meta_views(list: Seq<NoteMeta>) -> Seq<NoteMetaView> {
    Seq::new(list.len(), |i: int| list[i]@)
}

/// What a vector of files holds, as plain values.
pub open spec fn file_views(files: Seq<NoteFile>) -> Seq<NoteFileView> {
    Seq::new(files.len(), |i: int| files[i]@)
}

/// `place_by_recency` is the only index at which an earlier note stands, or
/// the list ends, while no earlier note stands before it.
pub proof fn lemma_place_by_recency(list: Seq<NoteMetaView>, note: NoteMetaView, k: int)
    requires
        0 <= k <= list.len(),
        forall|i: int| 0 <= i < k ==> !text_before(#[trigger] list[i].modified_at, note.modified_at),
        k < list.len() ==> text_before(list[k].modified_at, note.modified_at),
    ensures
        place_by_recency(list, note) == k,
    decreases list.len(),
{
    if k > 0 {
        assert(!text_before(list[0].modified_at, note.modified_at));
        let rest = list.drop_first();
        assert forall|i: int| 0 <= i < k - 1 implies !text_before(
            #[trigger] rest[i].modified_at,
            note.modified_at,
        ) by {
            assert(rest[i] == list[i + 1]);
        }
        if k - 1 < rest.len() {
            assert(rest[k - 1] == list[k]);
        }
        lemma_place_by_recency(rest, note, k - 1);
    }
}

/// Of two texts at most one comes before the other.
pub proof fn lemma_text_before_is_one_way(a: Seq<char>, b: Seq<char>)
    ensures
        !(text_before(a, b) && text_before(b, a)),
    decreases a.len(),
{
    if a.len() > 0 && b.len() > 0 && a[0] == b[0] {
        lemma_text_before_is_one_way(a.drop_first(), b.drop_first());
    }
}

/// What does not come after a text that comes before a third one comes
/// before that third one too.
pub proof fn lemma_text_before_chains(a: Seq<char>, b: Seq<char>, c: Seq<char>)
    requires
        !text_before(b, a),
        text_before(b, c),
    ensures
        text_before(a, c),
    decreases a.len(),
{
    if a.len() > 0 {
        assert(b.len() > 0 && c.len() > 0);
        vstd::utf8::char_u32_cast(a[0], a[0] as u32);
        vstd::utf8::char_u32_cast(b[0], b[0] as u32);
        vstd::utf8::char_u32_cast(c[0], c[0] as u32);
        if a[0] == b[0] && b[0] == c[0] {
            lemma_text_before_chains(a.drop_first(), b.drop_first(), c.drop_first());
        }
    }
}

/// Whether no note of the list was modified before one that follows it.
pub open spec fn is_by_recency(list: Seq<NoteMetaView>) -> bool {
    forall|i: int, j: int|
        #![trigger list[i], list[j]]
        0 <= i < j < list.len() ==> !text_before(list[i].modified_at, list[j].modified_at)
}

/// Where a note is placed, no note before it was modified earlier than it,
/// and the note at that place, if there is one, was.
pub proof fn lemma_place_by_recency_facts(list: Seq<NoteMetaView>, note: NoteMetaView)
    ensures
        0 <= place_by_recency(list, note) <= list.len(),
        forall|i: int|
            0 <= i < place_by_recency(list, note) ==> !text_before(
                #[trigger] list[i].modified_at,
                note.modified_at,
            ),
        place_by_recency(list, note) < list.len() ==> text_before(
            list[place_by_recency(list, note)].modified_at,
            note.modified_at,
        ),
    decreases list.len(),
{
    if list.len() == 0 || text_before(list[0].modified_at, note.modified_at) {
    } else {
        let rest = list.drop_first();
        lemma_place_by_recency_facts(rest, note);
        let k = place_by_recency(list, note);
        assert forall|i: int| 0 <= i < k implies !text_before(
            #[trigger] list[i].modified_at,
            note.modified_at,
        ) by {
            if i > 0 {
                assert(list[i] == rest[i - 1]);
            }
        }
        if k < list.len() {
            assert(list[k] == rest[k - 1]);
        }
    }
}

/// A list by recency stays one when a note is put at its place.
pub proof fn lemma_placing_keeps_recency(list: Seq<NoteMetaView>, note: NoteMetaView)
    requires
        is_by_recency(list),
    ensures
        is_by_recency(list.insert(place_by_recency(list, note), note)),
{
    let k = place_by_recency(list, note);
    let out = list.insert(k, note);
    lemma_place_by_recency_facts(list, note);
    assert forall|i: int, j: int| 0 <= i < j < out.len() implies !text_before(
        #[trigger] out[i].modified_at,
        #[trigger] out[j].modified_at,
    ) by {
        if j < k {
            assert(out[i] == list[i] && out[j] == list[j]);
        } else if j == k {
            assert(out[i] == list[i]);
        } else if i < k {
            assert(out[i] == list[i] && out[j] == list[j - 1]);
        } else if i == k {
            let later = list[j - 1];
            assert(out[j] == later);
            if k < j - 1 {
                assert(!text_before(list[k].modified_at, list[j - 1].modified_at));
                lemma_text_before_chains(
                    later.modified_at,
                    list[k].modified_at,
                    note.modified_at,
                );
            }
            lemma_text_before_is_one_way(later.modified_at, note.modified_at);
        } else {
            assert(out[i] == list[i - 1] && out[j] == list[j - 1]);
        }
    }
}

/// The list of notes has the most recently modified first: no note of it was
/// modified before one that follows it.
pub proof fn lemma_listing_is_by_recency(files: Seq<NoteFileView>)
    ensures
        is_by_recency(listing(files)),
    decreases files.len(),
{
    if files.len() > 0 {
        lemma_listing_is_by_recency(files.drop_last());
        if is_note_file(files.last()) {
            lemma_placing_keeps_recency(listing(files.drop_last()), listed(files.last()));
        }
    }
}

/// The descriptions of the files that hold notes, in the order of the files.
pub open spec fn notes_in_order(files: Seq<NoteFileView>) -> Seq<NoteMetaView>
    decreases files.len(),
{
    if files.len() == 0 {
        Seq::empty()
    } else if is_note_file(files.last()) {
        notes_in_order(files.drop_last()).push(listed(files.last()))
    } else {
        notes_in_order(files.drop_last())
    }
}

/// The list of notes holds the description of every file that holds a note,
/// each as often as it is given, and nothing else.
pub proof fn lemma_listing_holds_the_notes(files: Seq<NoteFileView>)
    ensures
        listing(files).to_multiset() == notes_in_order(files).to_multiset(),
    decreases files.len(),
{
    broadcast use vstd::seq_lib::group_to_multiset_ensures;

    if files.len() > 0 {
        lemma_listing_holds_the_notes(files.drop_last());
        if is_note_file(files.last()) {
            let earlier = listing(files.drop_last());
            let note = listed(files.last());
            lemma_place_by_recency_facts(earlier, note);
            let k = place_by_recency(earlier, note);
            let out = earlier.insert(k, note);
            assert(out.remove(k) =~= earlier);
            assert(out[k] == note);
            vstd::seq_lib::to_multiset_remove(out, k);
            assert(out.to_multiset().count(note) > 0);
            assert(out.to_multiset() =~= earlier.to_multiset().insert(note));
            assert(notes_in_order(files).to_multiset() =~= notes_in_order(
                files.drop_last(),
            ).to_multiset().insert(note));
        }
    }
}

/// Whether `a` comes before `b` in the order of strings.
pub fn comes_before(a: &[char], b: &[char]) -> (r: bool)
    ensures
        r == text_before(a@, b@),
{
    let mut i: usize = 0;
    assert(a@.skip(0) =~= a@ && b@.skip(0) =~= b@);
    while i < a.len() && i < b.len()
        invariant
            i <= a.len(),
            i <= b.len(),
            text_before(a@, b@) == text_before(a@.skip(i as int), b@.skip(i as int)),
        decreases a.len() - i,
    {
        let ghost ra = a@.skip(i as int);
        let ghost rb = b@.skip(i as int);
        assert(ra[0] == a@[i as int] && rb[0] == b@[i as int]);
        if a[i] != b[i] {
            return (a[i] as u32) < (b[i] as u32);
        }
        assert(ra.drop_first() =~= a@.skip(i + 1));
        assert(rb.drop_first() =~= b@.skip(i + 1));
        i += 1;
    }
    i < b.len()
}

/// Whether the file holds a note.
pub fn holds_note(file: &NoteFile) -> (b: bool)
    ensures
        b == is_note_file(file@),
{
    match &file.extension {
        Some(e) => is_text(e.as_str(), "md"),
        None => false,
    }
}

/// Lists the notes that the files hold.
///
/// Every file that holds a note is described, and the descriptions are put
/// in order, the most recently modified first.
pub fn list_notes(files: &Vec<NoteFile>) -> (notes: Vec<NoteMeta>)
    requires
        forall|i: int|
            0 <= i < files@.len() && is_note_file(#[trigger] files@[i]@) ==> is_describable(
                files@[i].content@,
            ),
    ensures
        meta_views(notes@) == listing(file_views(files@)),
        is_by_recency(meta_views(notes@)),
        meta_views(notes@).to_multiset() == notes_in_order(file_views(files@)).to_multiset(),
{
    proof {
        lemma_listing_is_by_recency(file_views(files@));
        lemma_listing_holds_the_notes(file_views(files@));
    }
    let mut notes: Vec<NoteMeta> = Vec::new();
    let mut i: usize = 0;
    assert(file_views(files@).take(0) =~= Seq::<NoteFileView>::empty());
    assert(meta_views(notes@) =~= Seq::<NoteMetaView>::empty());
    while i < files.len()
        invariant
            i <= files.len(),
            forall|j: int|
                0 <= j < files@.len() && is_note_file(#[trigger] files@[j]@) ==> is_describable(
                    files@[j].content@,
                ),
            meta_views(notes@) == listing(file_views(files@).take(i as int)),
        decreases files.len() - i,
    {
        let file = &files[i];
        let ghost seen = file_views(files@).take(i + 1);
        assert(seen.drop_last() =~= file_views(files@).take(i as int));
        assert(seen.last() == file@);
        if holds_note(file) {
            let note = describe(
                file.stem.clone(),
                file.path.clone(),
                file.content.as_str(),
                write_moment(file.created_secs),
                write_moment(file.modified_secs),
            );
            assert(note@ == listed(file@));
            let key = to_chars(note.modified_at.as_str());
            let mut k: usize = 0;
            let mut found = false;
            while k < notes.len() && !found
                invariant
                    k <= notes.len(),
                    key@ == note@.modified_at,
                    forall|j: int|
                        0 <= j < k ==> !text_before(
                            #[trigger] meta_views(notes@)[j].modified_at,
                            note@.modified_at,
                        ),
                    found ==> k < notes.len() && text_before(
                        meta_views(notes@)[k as int].modified_at,
                        note@.modified_at,
                    ),
                decreases notes.len() - k + if found { 0int } else { 1int },
            {
                let other = to_chars(notes[k].modified_at.as_str());
                assert(meta_views(notes@)[k as int] == notes@[k as int]@);
                if comes_before(other.as_slice(), key.as_slice()) {
                    found = true;
                } else {
                    k += 1;
                }
            }
            proof {
                lemma_place_by_recency(meta_views(notes@), note@, k as int);
            }
            let ghost before = meta_views(notes@);
            notes.insert(k, note);
            assert(meta_views(notes@) =~= before.insert(k as int, note@));
        }
        i += 1;
    }
    assert(file_views(files@).take(i as int) =~= file_views(files@));
    notes
}

// ---------------------------------------------------------------------------
// Cleaning up
// ---------------------------------------------------------------------------

/// Whether a file with this extension holds a note.
pub fn is_note_extension(extension: &str) -> (b: bool)
    ensures
        b == (extension@ == "md"@),
{
    is_text(extension, "md")
}

/// Whether a note that was last modified `age_secs` seconds ago is older
/// than `max_age_minutes` minutes.
pub fn is_older_than(age_secs: u64, max_age_minutes: u64) -> (b: bool)
    ensures
        b == (age_secs > max_age_minutes * 60),
{
    match max_age_minutes.checked_mul(60) {
        Some(limit) => age_secs > limit,
        None => false,
    }
}

/// Whether a file is to be cleaned up: it holds a note, the note is empty,
/// and it was last modified more than `max_age_minutes` minutes ago.
pub fn should_clean_up(
    extension: Option<&str>,
    content: &str,
    age_secs: u64,
    max_age_minutes: u64,
) -> (b: bool)
    ensures
        b == ((extension matches Some(e) && e@ == "md"@) && is_blank(content@) && age_secs
            > max_age_minutes * 60),
{
    match extension {
        Some(e) => is_note_extension(e) && is_note_empty(content) && is_older_than(
            age_secs,
            max_age_minutes,
        ),
        None => false,
    }
}

} // verus!
