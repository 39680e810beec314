use gravity_notes::clipper::{
    clip_to_markdown, get_clipboard_html, read, render_converted, ClipError, ClipStep,
    ClipboardSnapshot, MarkdownSource,
};

fn snapshot(rich: Option<&[u8]>, text: Option<&str>) -> ClipboardSnapshot {
    ClipboardSnapshot {
        raw_rich_payload: rich.map(|r| r.to_vec()),
        plain_text: text.map(|t| t.to_string()),
    }
}

fn container(before: &str, fragment: &str, after: &str) -> String {
    let header_len =
        "Version:0.9\nStartHTML:00000000\nEndHTML:00000000\nStartFragment:00000000\nEndFragment:00000000\n"
            .len();
    let start = header_len + before.len();
    let end = start + fragment.len();
    format!(
        "Version:0.9\nStartHTML:{:08}\nEndHTML:{:08}\nStartFragment:{:08}\nEndFragment:{:08}\n{}{}{}",
        header_len,
        end + after.len(),
        start,
        end,
        before,
        fragment,
        after
    )
}

/// Carries a snapshot through the whole pipeline, with the converter called
/// where the library asks for it.
fn run(snapshot: &ClipboardSnapshot) -> Result<String, ClipError> {
    match clip_to_markdown(snapshot)? {
        ClipStep::Convert { html } => render_converted(Ok(html2md::parse_html(&html))),
        ClipStep::WriteBack { markdown } => Ok(markdown),
    }
}

fn convert(html: &str) -> ClipStep {
    ClipStep::Convert { html: html.to_string() }
}

fn write_back(markdown: &str) -> ClipStep {
    ClipStep::WriteBack { markdown: markdown.to_string() }
}

#[test]
fn rich_payload_with_fragment_becomes_normalized_markdown() {
    let payload = container("<html><body>", "<p>Hello <b>World</b></p>", "</body></html>");
    let snap = snapshot(Some(payload.as_bytes()), Some("Hello World"));
    assert_eq!(
        get_clipboard_html(&snap),
        Some("<p>Hello <b>World</b></p>".to_string())
    );
    assert_eq!(
        read(&snap),
        Ok(MarkdownSource::Html { html: "<p>Hello <b>World</b></p>".to_string() })
    );
    assert_eq!(clip_to_markdown(&snap), Ok(convert("<p>Hello <b>World</b></p>")));
    assert_eq!(run(&snap), Ok("Hello **World**".to_string()));
}

#[test]
fn rich_payload_without_header_is_converted_from_the_document_root() {
    let snap = snapshot(
        Some(b"noise <html><body><h1>Title</h1><ul><li>one</li><li>two</li></ul></body></html>"),
        None,
    );
    assert_eq!(
        clip_to_markdown(&snap),
        Ok(convert("<html><body><h1>Title</h1><ul><li>one</li><li>two</li></ul></body></html>"))
    );
    let md = run(&snap).unwrap();
    assert!(md.contains("Title"), "{:?}", md);
    assert!(md.contains("* one"), "{:?}", md);
    assert!(md.contains("* two"), "{:?}", md);
    assert!(!md.contains("noise"), "{:?}", md);
    assert_eq!(md.trim(), md);
}

#[test]
fn plain_text_is_passed_on_verbatim() {
    let snap = snapshot(None, Some("  raw text  \n\n\n"));
    assert_eq!(
        read(&snap),
        Ok(MarkdownSource::Text { text: "  raw text  \n\n\n".to_string() })
    );
    assert_eq!(clip_to_markdown(&snap), Ok(write_back("  raw text  \n\n\n")));
    assert_eq!(run(&snap), Ok("  raw text  \n\n\n".to_string()));
}

#[test]
fn whitespace_only_plain_text_is_still_text() {
    let snap = snapshot(None, Some(" \n"));
    assert_eq!(clip_to_markdown(&snap), Ok(write_back(" \n")));
}

#[test]
fn empty_clipboard_is_an_error() {
    assert_eq!(clip_to_markdown(&snapshot(None, None)), Err(ClipError::ClipboardEmpty));
    assert_eq!(read(&snapshot(None, None)), Err(ClipError::ClipboardEmpty));
    assert_eq!(clip_to_markdown(&snapshot(Some(b""), None)), Err(ClipError::ClipboardEmpty));
    assert_eq!(clip_to_markdown(&snapshot(None, Some(""))), Err(ClipError::ClipboardEmpty));
    assert_eq!(
        clip_to_markdown(&snapshot(Some(b"  \r\n "), Some(""))),
        Err(ClipError::ClipboardEmpty)
    );
    assert_eq!(run(&snapshot(None, None)), Err(ClipError::ClipboardEmpty));
}

#[test]
fn whitespace_only_rich_payload_counts_as_absent() {
    let snap = snapshot(Some(b"   \r\n\t  "), Some("fallback"));
    assert_eq!(get_clipboard_html(&snap), None);
    assert_eq!(clip_to_markdown(&snap), Ok(write_back("fallback")));
}

#[test]
fn rich_payload_without_markup_falls_back_to_plain_text() {
    let snap = snapshot(Some(b"Version:0.9\nno markup here"), Some("the text"));
    assert_eq!(get_clipboard_html(&snap), None);
    assert_eq!(read(&snap), Ok(MarkdownSource::Text { text: "the text".to_string() }));
    assert_eq!(clip_to_markdown(&snap), Ok(write_back("the text")));
    let alone = snapshot(Some(b"Version:0.9\nno markup here"), None);
    assert_eq!(clip_to_markdown(&alone), Err(ClipError::ClipboardEmpty));
}

#[test]
fn blank_fragment_falls_back_to_plain_text() {
    let payload = container("<html><body>", "   ", "</body></html>");
    let snap = snapshot(Some(payload.as_bytes()), Some("the text"));
    assert_eq!(get_clipboard_html(&snap), Some("   ".to_string()));
    assert_eq!(clip_to_markdown(&snap), Ok(write_back("the text")));
    let alone = snapshot(Some(payload.as_bytes()), None);
    assert_eq!(clip_to_markdown(&alone), Err(ClipError::ClipboardEmpty));
}

#[test]
fn payload_that_is_not_valid_utf8_is_still_read() {
    let mut payload: Vec<u8> = vec![0xff, 0xfe, b' '];
    payload.extend_from_slice(b"<p>caf\xc3\xa9</p>");
    let snap = snapshot(Some(&payload), None);
    assert_eq!(get_clipboard_html(&snap), Some("<p>café</p>".to_string()));
    assert_eq!(run(&snap), Ok("café".to_string()));
    let broken = snapshot(Some(b"<p>a\xffb</p>"), None);
    assert_eq!(get_clipboard_html(&broken), Some("<p>a\u{fffd}b</p>".to_string()));
}

#[test]
fn converted_markdown_is_normalized() {
    assert_eq!(
        render_converted(Ok("\n\n  one  \n\n\n\n    two  \n- three \n\n".to_string())),
        Ok("one\n\n    two\n- three".to_string())
    );
    assert_eq!(render_converted(Ok(String::new())), Ok(String::new()));
    assert_eq!(
        render_converted(Ok(html2md::parse_html("<p>  one  </p><p>two <i>three</i></p>"))),
        Ok("one\n\ntwo *three*".to_string())
    );
}

#[test]
fn failed_conversion_is_an_error_with_the_converter_s_reason() {
    assert_eq!(
        render_converted(Err("the converter gave up".to_string())),
        Err(ClipError::ConversionFailed("the converter gave up".to_string()))
    );
    assert_eq!(render_converted(Err(String::new())), Err(ClipError::ConversionFailed(String::new())));
}

#[test]
fn every_error_has_a_message() {
    assert_eq!(ClipError::ClipboardEmpty.message(), "Clipboard is empty");
    assert_eq!(
        ClipError::ClipboardUnavailable("clipboard is occupied".to_string()).message(),
        "clipboard is occupied"
    );
    assert_eq!(
        ClipError::ConversionFailed("the converter gave up".to_string()).message(),
        "the converter gave up"
    );
    assert_eq!(
        ClipError::WriteBackFailed("could not write".to_string()).message(),
        "could not write"
    );
}
