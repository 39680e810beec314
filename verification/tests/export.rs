use gravity_notes::export::{
    export_extension, export_file_name, export_text, get_unique_path, unique_name_candidate,
    UniquePathStep,
};

#[test]
fn text_export_strips_heading_marks_and_whitespace() {
    let note = "# Title\n\n## Section  \n  body text  \n#tag\n- item\n";
    assert_eq!(export_text(note, "txt"), "Title\n\nSection\nbody text\ntag\n- item");
    assert_eq!(export_text("  # not at the start", "txt"), "# not at the start");
    assert_eq!(export_text("one\r\ntwo", "txt"), "one\ntwo");
    assert_eq!(export_text("", "txt"), "");
}

#[test]
fn other_formats_export_the_note_as_it_stands() {
    let note = "# Title\n\n  body  \n";
    assert_eq!(export_text(note, "md"), note);
    assert_eq!(export_text(note, "pdf"), note);
    assert_eq!(export_text(note, "TXT"), note);
    assert_eq!(export_text(note, ""), note);
}

#[test]
fn extension_follows_the_format() {
    assert_eq!(export_extension("txt"), "txt");
    assert_eq!(export_extension("pdf"), "pdf");
    assert_eq!(export_extension("md"), "md");
    assert_eq!(export_extension("html"), "md");
    assert_eq!(export_extension(""), "md");
}

#[test]
fn exported_file_is_named_after_the_note_and_the_format() {
    assert_eq!(export_file_name("My note", "txt"), "My note.txt");
    assert_eq!(export_file_name("My note", "pdf"), "My note.pdf");
    assert_eq!(export_file_name("My note", "docx"), "My note.md");
    assert_eq!(export_file_name("", "md"), ".md");
}

#[test]
fn taken_names_are_numbered() {
    assert_eq!(unique_name_candidate("note", Some("md"), 1), "note (1).md");
    assert_eq!(unique_name_candidate("note", Some("md"), 12), "note (12).md");
    assert_eq!(unique_name_candidate("note", None, 3), "note (3)");
    assert_eq!(unique_name_candidate("a.b", Some(""), 0), "a.b (0).");
    assert_eq!(
        unique_name_candidate("n", Some("txt"), u64::MAX),
        "n (18446744073709551615).txt"
    );
    assert_eq!(unique_name_candidate("n", None, 1000), "n (1000)");
}

#[test]
fn search_for_a_free_name_counts_up_until_one_is_free() {
    assert_eq!(get_unique_path(0, false), UniquePathStep::Take);
    assert_eq!(get_unique_path(0, true), UniquePathStep::Try(1));
    assert_eq!(get_unique_path(41, true), UniquePathStep::Try(42));
    assert_eq!(get_unique_path(41, false), UniquePathStep::Take);
    let taken = ["note.md", "note (1).md", "note (2).md"];
    let mut name = "note.md".to_string();
    let mut counter = 0;
    loop {
        match get_unique_path(counter, taken.contains(&name.as_str())) {
            UniquePathStep::Take => break,
            UniquePathStep::Try(next) => {
                counter = next;
                name = unique_name_candidate("note", Some("md"), counter);
            }
        }
    }
    assert_eq!(name, "note (3).md");
}
