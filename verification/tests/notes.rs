use gravity_notes::commands::{
    can_describe, comes_before, create_note, describe, holds_note, is_note_extension,
    is_older_than, list_notes, note_id, save_note, should_clean_up, write_moment, written_or_empty,
    NoteFile,
};
use gravity_notes::storage::{
    count_words, extract_preview, extract_title, generate_image_filename, generate_note_filename,
    is_note_empty, stamp_pattern, try_extract_preview, try_extract_title,
};

fn chars(text: &str) -> Vec<char> {
    text.chars().collect()
}

fn file(stem: &str, extension: Option<&str>, content: &str, modified: Option<u64>) -> NoteFile {
    NoteFile {
        path: format!("/notes/{}.{}", stem, extension.unwrap_or("")),
        stem: stem.to_string(),
        extension: extension.map(|e| e.to_string()),
        content: content.to_string(),
        modified_secs: modified,
        created_secs: Some(0),
    }
}

#[test]
fn title_is_the_first_line_that_is_not_blank() {
    assert_eq!(extract_title("# Hello\nbody"), "Hello");
    assert_eq!(extract_title("\n  \n\t\n  ## Second try ##  \nbody"), "Second try ##");
    assert_eq!(extract_title("plain first line\r\nnext"), "plain first line");
    assert_eq!(extract_title("###"), "");
    assert_eq!(extract_title("#   # spaced"), "# spaced");
}

#[test]
fn note_without_text_is_untitled() {
    assert_eq!(extract_title(""), "Untitled");
    assert_eq!(extract_title("  \n\t\n\u{3000}\n"), "Untitled");
}

#[test]
fn long_title_is_cut_after_47_bytes() {
    let fifty = "a".repeat(50);
    assert_eq!(extract_title(&fifty), fifty);
    let fifty_one = "b".repeat(51);
    assert_eq!(extract_title(&fifty_one), format!("{}...", "b".repeat(47)));
    let wide = format!("{}é{}", "c".repeat(45), "d".repeat(10));
    assert_eq!(extract_title(&wide), format!("{}é...", "c".repeat(45)));
}

#[test]
fn title_that_cannot_be_cut_between_characters_is_none() {
    let awkward = format!("{}é{}", "c".repeat(46), "d".repeat(10));
    assert_eq!(try_extract_title(&awkward), None);
    assert!(!can_describe(&awkward));
    let fine = format!("{}é{}", "c".repeat(46), "d".repeat(2));
    assert_eq!(fine.len(), 50);
    assert_eq!(try_extract_title(&fine), Some(fine.clone()));
    assert!(can_describe(&fine));
}

#[test]
fn preview_holds_the_first_fifteen_lines_that_are_not_blank() {
    assert_eq!(extract_preview("one\n\n  two  \n \nthree\n"), "one\n  two  \nthree");
    assert_eq!(extract_preview(""), "");
    assert_eq!(extract_preview("a\r\nb\r"), "a\nb\r");
    let twenty: String = (1..=20).map(|i| format!("line {}\n\n", i)).collect();
    let fifteen: Vec<String> = (1..=15).map(|i| format!("line {}", i)).collect();
    assert_eq!(extract_preview(&twenty), fifteen.join("\n"));
}

#[test]
fn long_preview_is_cut_after_797_bytes() {
    let line = "x".repeat(99);
    let eight: Vec<&str> = vec![&line; 8];
    let exactly_799 = eight.join("\n");
    assert_eq!(exactly_799.len(), 799);
    assert_eq!(extract_preview(&exactly_799), exactly_799);
    let nine: Vec<&str> = vec![&line; 9];
    let long = nine.join("\n");
    let preview = extract_preview(&long);
    assert_eq!(preview.len(), 800);
    assert_eq!(preview, format!("{}...", &long[..797]));
    let awkward = format!("{}é{}", "y".repeat(796), "z".repeat(10));
    assert_eq!(try_extract_preview(&awkward), None);
}

#[test]
fn words_are_runs_of_characters_that_are_not_whitespace() {
    assert_eq!(count_words(""), 0);
    assert_eq!(count_words("   \n\t "), 0);
    assert_eq!(count_words("one"), 1);
    assert_eq!(count_words("  one two\nthree\t\tfour  "), 4);
    assert_eq!(count_words("a\u{3000}b\u{a0}c"), 3);
    assert_eq!(count_words("# Title\n\n- item one\n"), 5);
}

#[test]
fn note_is_empty_when_it_holds_only_whitespace() {
    assert!(is_note_empty(""));
    assert!(is_note_empty(" \n\t\r\n\u{2003}"));
    assert!(!is_note_empty(" . "));
    assert!(!is_note_empty("\u{200b}"));
}

#[test]
fn note_file_name_is_a_stamp_with_the_note_extension() {
    assert_eq!(generate_note_filename("2024-01-02_03-04-05-678"), "2024-01-02_03-04-05-678.md");
    assert_eq!(generate_note_filename(""), ".md");
    assert_eq!(generate_note_filename("a.md"), "a.md.md");
    let name = generate_note_filename("2024-01-02_03-04-05-678");
    assert_eq!(note_id(&name), "2024-01-02_03-04-05-678");
}

#[test]
fn stamp_is_written_down_to_the_millisecond() {
    assert_eq!(stamp_pattern(), "%Y-%m-%d_%H-%M-%S-%3f");
    let moment = chrono::DateTime::from_timestamp(1_704_164_645, 678_000_000).unwrap();
    let stamp = moment.format(&stamp_pattern()).to_string();
    assert_eq!(stamp, "2024-01-02_03-04-05-678");
    assert_eq!(generate_note_filename(&stamp), "2024-01-02_03-04-05-678.md");
}

#[test]
fn image_file_name_ends_with_the_extension_given() {
    assert_eq!(
        generate_image_filename("2024-01-02_03-04-05-678", "png"),
        "2024-01-02_03-04-05-678.png"
    );
}

#[test]
fn note_id_is_the_file_name_without_its_extension() {
    assert_eq!(note_id("2024-01-02_03-04-05-678.md"), "2024-01-02_03-04-05-678");
    assert_eq!(note_id("plain"), "plain");
    assert_eq!(note_id("twice.md.md"), "twice");
    assert_eq!(note_id(".md"), "");
    assert_eq!(note_id("note.MD"), "note.MD");
    assert_eq!(note_id("note.mdx"), "note.mdx");
}

#[test]
fn new_note_is_untitled_and_empty() {
    let meta = create_note(
        "2024-01-02_03-04-05-678.md",
        "/notes/2024-01-02_03-04-05-678.md".to_string(),
        "2024-01-02T03:04:05.678+01:00".to_string(),
    );
    assert_eq!(meta.id, "2024-01-02_03-04-05-678");
    assert_eq!(meta.path, "/notes/2024-01-02_03-04-05-678.md");
    assert_eq!(meta.title, "Untitled");
    assert_eq!(meta.preview, "");
    assert_eq!(meta.word_count, 0);
    assert_eq!(meta.char_count, 0);
    assert_eq!(meta.created_at, "2024-01-02T03:04:05.678+01:00");
    assert_eq!(meta.modified_at, "2024-01-02T03:04:05.678+01:00");
}

#[test]
fn saved_note_is_described_by_its_content() {
    let meta = save_note(
        "n1".to_string(),
        "/notes/n1.md".to_string(),
        "# Héllo\n\nsome text here\n",
        "2024-01-02T03:04:05+00:00".to_string(),
    );
    assert_eq!(meta.id, "n1");
    assert_eq!(meta.path, "/notes/n1.md");
    assert_eq!(meta.title, "Héllo");
    assert_eq!(meta.preview, "# Héllo\nsome text here");
    assert_eq!(meta.word_count, 5);
    assert_eq!(meta.char_count, 24);
    assert_eq!(meta.created_at, "");
    assert_eq!(meta.modified_at, "2024-01-02T03:04:05+00:00");
}

#[test]
fn description_takes_the_moments_it_is_given() {
    let meta = describe(
        "id".to_string(),
        "p".to_string(),
        "one two",
        "then".to_string(),
        "now".to_string(),
    );
    assert_eq!(meta.title, "one two");
    assert_eq!(meta.created_at, "then");
    assert_eq!(meta.modified_at, "now");
    assert_eq!(meta.word_count, 2);
    assert_eq!(meta.char_count, 7);
}

#[test]
fn moments_are_written_in_universal_time() {
    assert_eq!(write_moment(Some(0)), "1970-01-01T00:00:00+00:00");
    assert_eq!(write_moment(Some(1_431_648_000)), "2015-05-15T00:00:00+00:00");
    assert_eq!(write_moment(Some(951_782_400 + 86_399)), "2000-02-29T23:59:59+00:00");
    assert_eq!(write_moment(None), "");
}

#[test]
fn moments_that_cannot_be_written_are_empty() {
    assert_eq!(write_moment(Some(i64::MAX as u64)), "");
    assert_eq!(write_moment(Some(u64::MAX)), "1969-12-31T23:59:59+00:00");
    assert_eq!(written_or_empty(None), "");
    assert_eq!(written_or_empty(Some("kept".to_string())), "kept");
}

#[test]
fn strings_are_ordered_character_by_character() {
    assert!(comes_before(&chars("a"), &chars("b")));
    assert!(comes_before(&chars(""), &chars("a")));
    assert!(comes_before(&chars("ab"), &chars("abc")));
    assert!(comes_before(&chars("2023-12-31T23:59:59"), &chars("2024-01-01T00:00:00")));
    assert!(comes_before(&chars("Z"), &chars("a")));
    assert!(comes_before(&chars("z"), &chars("é")));
    assert!(!comes_before(&chars("a"), &chars("a")));
    assert!(!comes_before(&chars(""), &chars("")));
    assert!(!comes_before(&chars("b"), &chars("a")));
    assert!(!comes_before(&chars("abc"), &chars("ab")));
}

#[test]
fn notes_are_listed_most_recent_first() {
    let files = vec![
        file("old", Some("md"), "# Old", Some(1_000)),
        file("ignored", Some("txt"), "not a note", Some(9_000)),
        file("new", Some("md"), "# New\nbody text", Some(3_000)),
        file("bare", None, "no extension", Some(8_000)),
        file("middle", Some("md"), "", Some(2_000)),
        file("unknown", Some("md"), "when?", None),
    ];
    let notes = list_notes(&files);
    let ids: Vec<&str> = notes.iter().map(|n| n.id.as_str()).collect();
    assert_eq!(ids, vec!["new", "middle", "old", "unknown"]);
    assert_eq!(notes[0].title, "New");
    assert_eq!(notes[0].preview, "# New\nbody text");
    assert_eq!(notes[0].path, "/notes/new.md");
    assert_eq!(notes[0].word_count, 4);
    assert_eq!(notes[0].char_count, 15);
    assert_eq!(notes[0].modified_at, "1970-01-01T00:50:00+00:00");
    assert_eq!(notes[0].created_at, "1970-01-01T00:00:00+00:00");
    assert_eq!(notes[1].title, "Untitled");
    assert_eq!(notes[3].modified_at, "");
}

#[test]
fn notes_modified_at_the_same_moment_keep_their_order() {
    let files = vec![
        file("a", Some("md"), "a", Some(5)),
        file("b", Some("md"), "b", Some(7)),
        file("c", Some("md"), "c", Some(5)),
        file("d", Some("md"), "d", Some(7)),
        file("e", Some("md"), "e", Some(5)),
    ];
    let notes = list_notes(&files);
    let ids: Vec<&str> = notes.iter().map(|n| n.id.as_str()).collect();
    assert_eq!(ids, vec!["b", "d", "a", "c", "e"]);
    assert!(list_notes(&Vec::new()).is_empty());
}

#[test]
fn only_files_with_the_note_extension_hold_notes() {
    assert!(is_note_extension("md"));
    assert!(!is_note_extension("MD"));
    assert!(!is_note_extension("mdx"));
    assert!(!is_note_extension(""));
    assert!(holds_note(&file("a", Some("md"), "", None)));
    assert!(!holds_note(&file("a", Some("markdown"), "", None)));
    assert!(!holds_note(&file("a", None, "", None)));
}

#[test]
fn age_is_compared_in_seconds() {
    assert!(!is_older_than(0, 0));
    assert!(is_older_than(1, 0));
    assert!(!is_older_than(300, 5));
    assert!(is_older_than(301, 5));
    assert!(!is_older_than(u64::MAX, u64::MAX / 60 + 1));
    assert!(!is_older_than(u64::MAX, u64::MAX));
    assert!(is_older_than(u64::MAX, u64::MAX / 60 - 1));
}

#[test]
fn image_extension_is_taken_as_it_stands() {
    assert_eq!(generate_image_filename("stamp", "100%"), "stamp.100%");
    assert_eq!(generate_image_filename("stamp", ""), "stamp.");
    assert_eq!(generate_image_filename("", "png"), ".png");
}

#[test]
fn only_old_empty_notes_are_cleaned_up() {
    assert!(should_clean_up(Some("md"), "", 301, 5));
    assert!(should_clean_up(Some("md"), " \n\t", 1, 0));
    assert!(!should_clean_up(Some("md"), "", 300, 5));
    assert!(!should_clean_up(Some("md"), "text", 301, 5));
    assert!(!should_clean_up(Some("txt"), "", 301, 5));
    assert!(!should_clean_up(None, "", 301, 5));
    assert!(!should_clean_up(Some("md"), "", u64::MAX, u64::MAX));
}
