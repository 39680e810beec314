use gravity_notes::normalize::{
    clean_markdown, collapse_newline_runs, line_is_structural, normalize_chars, tidy_line_chars,
};

fn chars(text: &str) -> Vec<char> {
    text.chars().collect()
}

fn tidy(line: &str) -> String {
    tidy_line_chars(&chars(line)).iter().collect()
}

fn collapse(text: &str) -> String {
    collapse_newline_runs(&chars(text)).iter().collect()
}

#[test]
fn runs_of_three_or_more_newlines_collapse_to_two() {
    assert_eq!(collapse("a\n\n\nb"), "a\n\nb");
    assert_eq!(collapse("a\n\n\n\nb"), "a\n\nb");
    assert_eq!(collapse("a\n\n\n\n\n\n\n\nb"), "a\n\nb");
    assert_eq!(collapse("\n\n\n\n"), "\n\n");
    assert_eq!(collapse("a\n\n\nb\n\n\n\n\nc\n\n\n"), "a\n\nb\n\nc\n\n");
}

#[test]
fn shorter_runs_of_newlines_stay() {
    assert_eq!(collapse(""), "");
    assert_eq!(collapse("a\nb\n\nc"), "a\nb\n\nc");
    assert_eq!(collapse("a\n\r\n\r\nb"), "a\n\r\n\r\nb");
}

#[test]
fn any_number_of_newlines_between_two_words_normalizes_to_two() {
    for n in 3..12 {
        let text = format!("first{}second", "\n".repeat(n));
        assert_eq!(clean_markdown(&text), "first\n\nsecond", "n = {}", n);
    }
}

#[test]
fn structural_line_keeps_leading_whitespace() {
    assert_eq!(tidy("    code here   "), "    code here");
    assert_eq!(tidy("\tindented\t "), "\tindented");
    assert_eq!(tidy("- item  "), "- item");
    assert_eq!(tidy("* item \t"), "* item");
    assert_eq!(tidy("> quote "), "> quote");
}

#[test]
fn other_line_loses_whitespace_on_both_sides() {
    assert_eq!(tidy("  plain text  "), "plain text");
    assert_eq!(tidy("   - three spaces then a list  "), "- three spaces then a list");
    assert_eq!(tidy("-no space"), "-no space");
    assert_eq!(tidy(" \u{3000}\u{a0}wide\u{2003}"), "wide");
    assert_eq!(tidy("   "), "");
    assert_eq!(tidy(""), "");
}

#[test]
fn structural_markers_are_recognized() {
    for line in ["    x", "     ", "\t", "\tx", "- ", "- x", "* x", "> x"] {
        assert!(line_is_structural(&chars(line)), "{:?}", line);
    }
    for line in ["", "   x", "x    ", "-", "-x", "*x", ">x", "+ x", " - x", "#"] {
        assert!(!line_is_structural(&chars(line)), "{:?}", line);
    }
}

#[test]
fn structural_lines_inside_a_document_are_preserved() {
    let raw = "Title  \n\n    code here   \n  plain text  \n- one \n\t* nested\n> said  ";
    assert_eq!(
        clean_markdown(raw),
        "Title\n\n    code here\nplain text\n- one\n\t* nested\n> said"
    );
}

#[test]
fn document_is_trimmed_as_a_whole() {
    assert_eq!(clean_markdown("\n\n  hello  \n\n"), "hello");
    assert_eq!(clean_markdown("    code here   "), "code here");
    assert_eq!(clean_markdown("\t- item\nnext"), "- item\nnext");
    assert_eq!(clean_markdown(""), "");
    assert_eq!(clean_markdown(" \n\t\n "), "");
}

#[test]
fn carriage_returns_before_newlines_belong_to_the_line_ending() {
    assert_eq!(clean_markdown("one\r\ntwo\r\n"), "one\ntwo");
    assert_eq!(clean_markdown("one \r\n    two \r"), "one\n    two");
}

#[test]
fn normalizing_a_normalized_document_changes_nothing() {
    let samples = [
        "Hello **World**",
        "# Title\n\n\n\nbody  \n   more\n\n- a\n- b\n\n\n    code  \n",
        "  leading\n\n\n\n\n\ntrailing  ",
        "> quote\n>\n> more",
        "a\r\nb\r\n\r\nc",
    ];
    for raw in samples {
        let once = clean_markdown(raw);
        assert!(!once.contains("\n\n\n"), "{:?}", raw);
        assert_eq!(clean_markdown(&once), once, "{:?}", raw);
    }
}

#[test]
fn whitespace_only_lines_can_leave_a_long_run_behind() {
    let once = clean_markdown("a\n \n \n \nb");
    assert_eq!(once, "a\n\n\n\nb");
    assert_eq!(clean_markdown(&once), "a\n\nb");
    let with_returns = clean_markdown("a\r\n\r\n\r\nb");
    assert_eq!(with_returns, "a\n\n\nb");
    assert_eq!(clean_markdown(&with_returns), "a\n\nb");
}

#[test]
fn normalized_document_has_no_trailing_whitespace_on_any_line() {
    let once = clean_markdown("  a \t\n    b   \n\n\n\n> c  \n\u{a0}d\u{a0}\n");
    assert_eq!(once, "a\n    b\n\n> c\nd");
    for line in once.split('\n') {
        assert_eq!(line.trim_end(), line);
    }
}

#[test]
fn normalizing_characters_agrees_with_normalizing_a_string() {
    let raw = "x\n\n\n\n  y  \n";
    let out: String = normalize_chars(&chars(raw)).iter().collect();
    assert_eq!(out, clean_markdown(raw));
    assert_eq!(out, "x\n\ny");
}

/// A small deterministic generator of awkward documents.
struct Documents(u64);

impl Documents {
    fn next_number(&mut self) -> u64 {
        self.0 = self.0.wrapping_mul(6364136223846793005).wrapping_add(1442695040888963407);
        self.0 >> 33
    }

    fn next_document(&mut self) -> String {
        let pieces = [
            " ", " ", "\n", "\n", "\n", "\r", "\t", "a", "b", "#", "- ", "* ", "> ", "    ", "é",
            "\u{3000}", "\u{a0}",
        ];
        let len = self.next_number() % 40;
        let mut doc = String::new();
        for _ in 0..len {
            doc.push_str(pieces[(self.next_number() % 17) as usize]);
        }
        doc
    }
}

#[test]
fn normalizing_twice_changes_nothing_unless_a_long_run_is_left() {
    let mut documents = Documents(2024);
    let mut with_run = 0;
    for _ in 0..2000 {
        let doc = documents.next_document();
        let once = clean_markdown(&doc);
        let twice = clean_markdown(&once);
        if once.contains("\n\n\n") {
            with_run += 1;
            assert_ne!(twice, once, "{:?}", doc);
        } else {
            assert_eq!(twice, once, "{:?}", doc);
        }
        assert!(!twice.contains("\n\n\n") || clean_markdown(&twice) != twice, "{:?}", doc);
    }
    assert!(with_run > 0);
}

#[test]
fn normalized_documents_are_tidy_and_trimmed() {
    let mut documents = Documents(7);
    for _ in 0..2000 {
        let doc = documents.next_document();
        let once = clean_markdown(&doc);
        assert_eq!(once.trim(), once, "{:?}", doc);
        for line in once.split('\n') {
            assert_eq!(line.trim_end(), line, "{:?}", doc);
            let structural = line_is_structural(&chars(line));
            assert!(structural || line.trim_start() == line, "{:?}", doc);
        }
        assert!(!collapse(&doc).contains("\n\n\n"), "{:?}", doc);
    }
}
