use pagesum::cleaner::clean_content;

#[test]
fn strips_simple_tags() {
    assert_eq!(clean_content("a<b>c".to_string()), "ac");
    assert_eq!(clean_content("x<a>y<b>z".to_string()), "xyz");
}

#[test]
fn tag_spans_whitespace_and_attributes() {
    assert_eq!(
        clean_content("<p class=\"x\">hello</p> world".to_string()),
        "hello world"
    );
}

#[test]
fn lone_angle_brackets_survive() {
    assert_eq!(clean_content("a <> b".to_string()), "a <> b");
    assert_eq!(clean_content("5 < 6 and nothing else".to_string()), "5 < 6 and nothing else");
}

#[test]
fn output_has_no_tag_patterns() {
    let inputs = [
        "<html><body>deep <i>nesting</i></body></html>",
        "text <broken",
        "<<double>> trouble",
        "a < b > c",
    ];
    for input in inputs {
        let out = clean_content(input.to_string());
        // no '<' followed (at distance >= 2) by a '>' with no '>' between
        let chars: Vec<char> = out.chars().collect();
        for i in 0..chars.len() {
            if chars[i] == '<' {
                let mut j = i + 1;
                while j < chars.len() && chars[j] != '>' {
                    j += 1;
                }
                assert!(!(j < chars.len() && j >= i + 2), "tag pattern in {:?}", out);
            }
        }
    }
}

#[test]
fn citation_lines_are_dropped() {
    assert_eq!(
        clean_content("keep [abc] line\nrefs [12]\nlast".to_string()),
        "keep [abc] line\nlast"
    );
}

#[test]
fn non_numeric_brackets_are_kept() {
    assert_eq!(clean_content("see [note] here".to_string()), "see [note] here");
    assert_eq!(clean_content("mixed [a1] stays".to_string()), "mixed [a1] stays");
}

#[test]
fn blank_runs_collapse_and_ends_trim() {
    assert_eq!(clean_content("  hi  \n\n\n  there  ".to_string()), "hi\nthere");
    assert_eq!(clean_content("\n\n\n".to_string()), "");
    assert_eq!(clean_content("".to_string()), "");
    let out = clean_content(" one \n\n two \n\n\n three ".to_string());
    assert_eq!(out, "one\ntwo\nthree");
    assert!(!out.contains("\n\n"));
    assert_eq!(out, out.trim());
}

#[test]
fn clean_is_idempotent_on_samples() {
    let inputs = [
        "<p>Hello</p>\n[3]\n  spaced  ",
        "a <> b\nplain",
        "x<a>y\n\n\nz",
        "",
        "刚好 一些 中文 <b>文本</b>",
    ];
    for input in inputs {
        let once = clean_content(input.to_string());
        let twice = clean_content(once.clone());
        assert_eq!(twice, once, "not idempotent on {:?}", input);
    }
}

#[test]
fn tagged_citation_page_cleans_to_nothing() {
    // The single line still holds `[1]` after tag stripping, so the whole
    // line is dropped and nothing remains.
    let html = "<html><body><p>Hello [1] world</p></body></html>";
    assert_eq!(clean_content(html.to_string()), "");
}

#[test]
fn tag_removal_can_expose_kept_text() {
    assert_eq!(
        clean_content("<div>first line</div>\n<div>second line</div>".to_string()),
        "first line\nsecond line"
    );
}
