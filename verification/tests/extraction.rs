use gravity_notes::clipper::extract_html_from_cf_html;

/// A container whose header brackets `fragment` between `before` and `after`.
fn container(before: &str, fragment: &str, after: &str) -> String {
    let header_len = "Version:0.9\r\nStartHTML:0000000000\r\nEndHTML:0000000000\r\nStartFragment:0000000000\r\nEndFragment:0000000000\r\n".len();
    let start = header_len + before.len();
    let end = start + fragment.len();
    format!(
        "Version:0.9\r\nStartHTML:{:010}\r\nEndHTML:{:010}\r\nStartFragment:{:010}\r\nEndFragment:{:010}\r\n{}{}{}",
        header_len,
        end + after.len(),
        start,
        end,
        before,
        fragment,
        after
    )
}

fn extracted(payload: &str) -> Option<String> {
    extract_html_from_cf_html(payload)
}

fn some(text: &str) -> Option<String> {
    Some(text.to_string())
}

#[test]
fn fragment_offsets_take_precedence_over_surrounding_markup() {
    let payload = container(
        "<html><body><!--StartFragment-->",
        "<p>Hello <b>World</b></p>",
        "<!--EndFragment--></body></html>",
    );
    assert_eq!(extracted(&payload), some("<p>Hello <b>World</b></p>"));
}

#[test]
fn fragment_is_taken_even_without_any_markup_around_it() {
    assert_eq!(extracted("StartFragment:0\nEndFragment:5\nhello"), some("Start"));
}

#[test]
fn fragment_offsets_may_be_zero_padded() {
    let payload = "StartFragment:0000000054\nEndFragment:0000000062\n<html><b>x</b></html>";
    assert_eq!(extracted(payload), some("<b>x</b>"));
}

#[test]
fn fragment_offsets_are_read_as_written_in_the_header() {
    let payload = "Version:0.9\nStartHTML:0\nEndHTML:50\nStartFragment:20\nEndFragment:45\n<html><body><p>Hello <b>World</b></p></body></html>";
    assert_eq!(extracted(payload), some("L:0\nEndHTML:50\nStartFragm"));
}

#[test]
fn fragment_offsets_count_bytes_not_characters() {
    let payload = container("<html><body>é", "<i>ü</i>", "ö</body></html>");
    assert_eq!(extracted(&payload), some("<i>ü</i>"));
}

#[test]
fn fragment_may_end_at_the_end_of_the_payload() {
    let payload = "StartFragment:36\nEndFragment:39\nhdr <p>";
    assert_eq!(payload.len(), 39);
    assert_eq!(extracted(payload), some("<p>"));
}

#[test]
fn offset_is_the_first_token_on_the_rest_of_its_line() {
    let payload = "StartFragment: \t 42 bytes\r\nEndFragment:49\n<html><body>";
    assert_eq!(&payload[42..49], "<html><");
    assert_eq!(extracted(payload), some("<html><"));
}

#[test]
fn offset_may_carry_a_plus_sign() {
    let payload = "StartFragment:+34\nEndFragment:+37\n<p>";
    assert_eq!(extracted(payload), some("<p>"));
}

#[test]
fn end_not_after_start_falls_through_to_the_document_root() {
    let equal = "StartFragment:40\nEndFragment:40\nintro <html><body>x</body></html>";
    assert_eq!(extracted(equal), some("<html><body>x</body></html>"));
    let reversed = "StartFragment:45\nEndFragment:40\nintro <html><body>x</body></html>";
    assert_eq!(extracted(reversed), some("<html><body>x</body></html>"));
}

#[test]
fn end_beyond_the_payload_falls_through_to_the_document_root() {
    let payload = "StartFragment:10\nEndFragment:9999\n<html><p>x</p></html>";
    assert_eq!(extracted(payload), some("<html><p>x</p></html>"));
    let just_beyond = "StartFragment:0\nEndFragment:35\n<p>";
    assert_eq!(just_beyond.len(), 34);
    assert_eq!(extracted(just_beyond), some("<p>"));
}

#[test]
fn unparseable_offset_falls_through_to_the_document_root() {
    for start in ["abc", "", "-3", "1x", "0x10", "+", "１２"] {
        let payload = format!("StartFragment:{}\nEndFragment:30\n<html>doc</html>", start);
        assert_eq!(extracted(&payload), some("<html>doc</html>"), "start {:?}", start);
    }
    let no_end = "StartFragment:0\n<html>doc</html>";
    assert_eq!(extracted(no_end), some("<html>doc</html>"));
}

#[test]
fn offset_on_the_next_line_does_not_count() {
    let payload = "StartFragment:\n0\nEndFragment:5\n<html>";
    assert_eq!(extracted(payload), some("<html>"));
}

#[test]
fn offset_too_large_for_the_machine_falls_through() {
    let payload = "StartFragment:0\nEndFragment:99999999999999999999999999\n<html>";
    assert_eq!(extracted(payload), some("<html>"));
}

#[test]
fn offset_inside_a_character_falls_through_to_the_document_root() {
    let payload = "StartFragment:33\nEndFragment:40\né<html>x</html>";
    assert_eq!(payload.len(), 48);
    assert!(!payload.is_char_boundary(33));
    assert_eq!(extracted(payload), some("<html>x</html>"));
}

#[test]
fn document_root_is_found_case_sensitively() {
    assert_eq!(
        extracted("junk <HTML><body><html lang=\"en\">x"),
        some("<html lang=\"en\">x")
    );
}

#[test]
fn first_angle_bracket_is_the_last_resort() {
    assert_eq!(extracted("junk <p>para</p> tail"), some("<p>para</p> tail"));
    assert_eq!(extracted("a < b"), some("< b"));
}

#[test]
fn payload_without_markup_holds_no_html() {
    assert_eq!(extracted("just some words"), None);
    assert_eq!(extracted(""), None);
    assert_eq!(extracted("   \n\t "), None);
    assert_eq!(extracted("StartFragment:5\nEndFragment:2\nno markup"), None);
}
