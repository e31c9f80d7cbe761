use pagesum::errors::FetchError;
use pagesum::pipeline::process_fetched;

#[test]
fn non_success_status_maps_to_http_status_error() {
    for status in [199u16, 300, 301, 404, 500] {
        match process_fetched(status, "<html><body>ignored</body></html>") {
            Err(FetchError::HttpStatus(code)) => assert_eq!(code, status),
            _ => panic!("expected HttpStatus for {}", status),
        }
    }
}

#[test]
fn status_404_yields_message_containing_404() {
    let e = process_fetched(404, "<html></html>").unwrap_err();
    assert!(e.to_user_message().contains("404"));
}

#[test]
fn success_statuses_reach_extraction() {
    for status in [200u16, 204, 299] {
        let r = process_fetched(
            status,
            "<html><body><p>A reasonably long paragraph of page text.</p></body></html>",
        );
        assert!(r.is_ok(), "status {} should extract", status);
    }
}

#[test]
fn empty_page_is_extraction_failure() {
    match process_fetched(200, "<html><body></body></html>") {
        Err(FetchError::ExtractionFailed) => {},
        _ => panic!("expected ExtractionFailed"),
    }
}

#[test]
fn short_page_is_content_too_short() {
    match process_fetched(200, "<html><body><p>short</p></body></html>") {
        Err(FetchError::ContentTooShort) => {},
        _ => panic!("expected ContentTooShort"),
    }
}

#[test]
fn rendering_preserves_line_structure() {
    // A plain tag-stripping pass would run the two fragments together as
    // "alphabeta ..."; the HTML renderer must break the line at <br>.
    let out = process_fetched(200, "<p>alpha<br>beta gamma delta epsilon</p>").unwrap();
    assert_eq!(out, "alpha\nbeta gamma delta epsilon");
}

#[test]
fn fetched_citation_page_loses_marked_lines() {
    let html = "<html><body><p>The first finding is interesting. [3]</p>\
                <p>The second finding stands on its own merits.</p></body></html>";
    let out = process_fetched(200, html).unwrap();
    assert!(!out.contains("first finding"));
    assert!(out.contains("second finding"));
}

#[test]
fn fetched_page_with_inline_citation_marker() {
    // After rendering, the only text line still holds `[1]`, so the
    // citation rule drops the whole line and extraction reports no
    // usable content.
    let html = "<html><body><p>Hello [1] world</p></body></html>";
    match process_fetched(200, html) {
        Err(FetchError::ExtractionFailed) => {},
        Ok(out) => panic!("expected ExtractionFailed, got {:?}", out),
        Err(_) => panic!("expected ExtractionFailed"),
    }
}

#[test]
fn zero_colspan_table_is_handled_not_fatal() {
    let html = "<table><tr><td colspan=\"0\">cell text long enough to keep</td></tr></table>";
    let out = process_fetched(200, html).unwrap();
    assert!(out.contains("cell text long enough to keep"));
}

#[test]
fn large_colspan_table_still_renders() {
    let html = "<table><tr><td colspan=\"2\">first cell of the row</td><td>second cell here</td></tr></table>";
    let out = process_fetched(200, html).unwrap();
    assert!(out.contains("first cell of the row"));
    assert!(out.contains("second cell here"));
}

#[test]
fn deeply_nested_page_is_rejected_as_unparsable() {
    let mut html = String::new();
    for _ in 0..300 {
        html.push_str("<div>");
    }
    html.push_str("some text deep inside the nesting");
    match process_fetched(200, &html) {
        Err(FetchError::HtmlParse(_)) => {},
        other => panic!("expected HtmlParse, got ok={}", other.is_ok()),
    }
}

#[test]
fn moderately_nested_page_is_fine() {
    let mut html = String::new();
    for _ in 0..30 {
        html.push_str("<div>");
    }
    html.push_str("some text nested a realistic number of levels down");
    for _ in 0..30 {
        html.push_str("</div>");
    }
    let out = process_fetched(200, &html).unwrap();
    assert!(out.contains("some text nested"));
}

#[test]
fn bare_paragraph_tags_do_not_count_as_nesting() {
    // Old-style pages open a new <p> without closing the last; the
    // parser closes the sibling, so the page is shallow and accepted.
    let mut html = String::new();
    for _ in 0..400 {
        html.push_str("<p>a paragraph of text");
    }
    let out = process_fetched(200, &html).unwrap();
    assert!(out.contains("a paragraph of text"));
}

#[test]
fn huge_ordered_list_start_is_handled_not_fatal() {
    let html = "<ol start=9223372036854775807><li>first item text here\
                <li>second item text here</ol>";
    let out = process_fetched(200, html).unwrap();
    assert!(out.contains("first item text here"));
    assert!(out.contains("second item text here"));
}

#[test]
fn spaced_zero_colspan_is_handled_not_fatal() {
    let html = "<table><tr><td colspan = \"0\">cell text long enough to keep</td></tr></table>";
    let out = process_fetched(200, html).unwrap();
    assert!(out.contains("cell text long enough to keep"));
}

#[test]
fn nested_blockquotes_render_within_the_width_floor() {
    let mut html = String::new();
    for _ in 0..45 {
        html.push_str("<blockquote>");
    }
    html.push_str("a sentence quoted from deep inside the thread");
    for _ in 0..45 {
        html.push_str("</blockquote>");
    }
    let out = process_fetched(200, &html).unwrap();
    assert!(out.contains("a sentence quoted from deep inside the thread"));
}

#[test]
fn prose_mentioning_the_attributes_survives() {
    // Only a valued attribute name (followed by `=`) is defused; the
    // words in running text stay as written.
    let html = "<p>The colspan attribute and the start attribute are described here.</p>";
    let out = process_fetched(200, html).unwrap();
    assert!(out.contains("colspan attribute"));
    assert!(out.contains("start attribute"));
}
