use cosense_core::inline::{
    file_name_of_url, find_gyazo, gyazo_permalink, inline_formulas, is_scrapbox_file_url, line_images,
    looks_like_image_url, matching_bracket, standalone_image,
};
use cosense_core::render::{
    bullet_indent_width, code_line_flags, code_span_at, indent_info, math_lang, mermaid_lang, strip_leading_ws,
    table_span_at, text_column, title_lc, ArtifactKind, CodeSpan, LinkTruth, WebKind,
};

#[test]
fn gyazo_canonical_permalink() {
    let id = "319b11dda7ce73cb3c1505774cfa0931";
    let mut v = Vec::new();
    find_gyazo(&format!("[https://acme-inc.gyazo.com/{id}]"), &mut v);
    assert_eq!(v, vec![format!("https://acme-inc.gyazo.com/{id}")]);
    let mut v2 = Vec::new();
    find_gyazo(&format!("https://gyazo.com/{id}"), &mut v2);
    find_gyazo(&format!("https://i.gyazo.com/{id}.png"), &mut v2);
    assert_eq!(v2, vec![format!("https://gyazo.com/{id}")]);
}

#[test]
fn non_gyazo_image_urls_are_detected() {
    assert_eq!(standalone_image("https://example.com/a.png"), None);
    assert_eq!(standalone_image("[https://example.com/photo.JPG]"), Some("https://example.com/photo.JPG".into()));
    assert_eq!(
        standalone_image("[https://example.com/page https://cdn.example.com/x.webp]"),
        Some("https://cdn.example.com/x.webp".into())
    );
    assert_eq!(standalone_image("[https://example.com/a.png?w=800]"), Some("https://example.com/a.png?w=800".into()));
    assert_eq!(standalone_image("[https://example.com/page.html]"), None);
    assert_eq!(standalone_image("ただの本文"), None);
    assert_eq!(standalone_image("[https://example.com/a.png] こんな感じ"), None);
    assert_eq!(line_images("[https://example.com/a.png] こんな感じ"), vec!["https://example.com/a.png".to_string()],);
}

#[test]
fn mermaid_is_recognised_by_language_and_by_filename() {
    for yes in ["mmd", "mermaid", "MMD", " Mermaid ", "flow.mmd", "図.mermaid", "a.b.mmd"] {
        assert!(mermaid_lang(yes), "{yes} should be a mermaid block");
    }
    for no in ["", "js", "python", "mmdx", "mermaidjs", "readme.md", "mmd.txt", "diagram"] {
        assert!(!mermaid_lang(no), "{no} should stay a plain code block");
    }
    assert!(math_lang("tex") && math_lang("eq.TEX") && math_lang(" latex"));
    assert!(!math_lang("texinfo"));
    assert_eq!(ArtifactKind::Mermaid.web(), Some(WebKind::Mermaid));
    assert_eq!(ArtifactKind::Math.web(), None);
}

#[test]
fn code_span_agrees_with_what_the_renderer_collected() {
    let src = [
        "title",
        " before",
        "code:x.py",
        " a = 1",
        "",
        " b = 2",
        "",
        "after",
        " nested",
        "  code:y.txt",
        "   deep",
        "plain",
    ];
    let refs: Vec<&str> = src.to_vec();
    let inside: Vec<usize> = (0..src.len()).filter(|&i| code_span_at(&refs, i).is_some()).collect();
    assert_eq!(inside, vec![2, 3, 9, 10], "a truly blank line ends the block");

    let top = code_span_at(&refs, 3).unwrap();
    assert_eq!(top.header, 2);
    assert_eq!(top.body_indent(), " ", "one step deeper than a flush header");

    let nested = code_span_at(&refs, 10).unwrap();
    assert_eq!(nested.header, 9);
    assert_eq!(nested.body_indent(), "   ", "deeper header, deeper body");
}

#[test]
fn link_truth_matches_titles_the_way_cosense_does() {
    assert_eq!(title_lc("AI supported coding"), "ai_supported_coding");
    assert_eq!(title_lc("選択した文字 URL"), "選択した文字_url");
    let m = LinkTruth::seed(&["Scrapbox Golf"], &["scrapbox_golf"]);
    assert!(!m.missing("Scrapbox Golf"), "the same page under another spelling");
    let m = LinkTruth::seed(&["Scrapbox Golf"], &["別のページ"]);
    assert!(m.missing("scrapbox_golf"), "and the link is found under either spelling");
}

#[test]
fn inline_formula_scan_tests() {
    assert_eq!(
        inline_formulas(r"積分[$ \int_0^1 x^2 dx ]と和[$ \sum_{i=1}^{n} i ]"),
        vec![r"\int_0^1 x^2 dx", r"\sum_{i=1}^{n} i"]
    );
    assert_eq!(inline_formulas(r"[$ [x-3]+a^2 ] と `[$ これは読まない ]`"), vec![r"[x-3]+a^2"]);
    assert!(inline_formulas("数式のない行").is_empty());
    assert!(inline_formulas(r"[リンクだけ] の行").is_empty());
}

#[test]
fn link_truth_learns_forgets_and_absorbs() {
    let mut m = LinkTruth::seed(&["A", "B"], &["a"]);
    assert_eq!(m.page_exists("a"), Some(true));
    assert_eq!(m.page_exists("b"), Some(false));
    assert_eq!(m.page_exists("c"), None, "nobody has looked");
    m.learn("C", true);
    m.learn("B", true);
    assert_eq!(m.page_exists("b"), Some(true), "a later answer wins");
    let mut other = LinkTruth::seed(&["c"], &[]);
    other.learn("d", false);
    m.absorb(other);
    assert_eq!(m.page_exists("c"), Some(false), "the fresher reading wins");
    m.forget_dead();
    assert_eq!(m.page_exists("c"), None);
    assert_eq!(m.page_exists("d"), None);
    assert_eq!(m.page_exists("a"), Some(true), "live travels");
    assert!(!m.is_empty());
    assert!(LinkTruth::seed(&[], &[]).is_empty());
}

#[test]
fn indentation_counts_characters_and_strips_only_what_is_asked() {
    assert_eq!(indent_info(" \t\u{3000}body"), (3, 3, "body"));
    assert_eq!(indent_info("body"), (0, 0, "body"));
    assert_eq!(strip_leading_ws("   code", 2), " code");
    assert_eq!(strip_leading_ws("  x", 5), "x");
    assert_eq!(bullet_indent_width(0), 0);
    assert_eq!(bullet_indent_width(3), 4);
    assert_eq!(text_column(0), 0);
    assert_eq!(text_column(1), 2);
    assert_eq!(text_column(3), 6);
    let span = CodeSpan { header: 0, header_indent: 2, mermaid_header: true };
    assert_eq!(span.strip_chars(), 3);
    assert!(span.outline_header());
    assert_eq!(span.gutter_cols(), 4);
}

#[test]
fn brackets_close_at_their_own_level() {
    assert_eq!(matching_bracket("[* [改善案]] x", 0), Some(14));
    assert_eq!(matching_bracket("a [b", 2), None);
    assert_eq!(matching_bracket("[x]", 0), Some(2));
}

#[test]
fn code_and_table_blocks_are_found_line_by_line() {
    let src = ["code:a.mmd", " graph", "table:t", " a\tb", " c\td", "x", "   code:eq.tex", "    x"];
    let refs: Vec<&str> = src.to_vec();
    assert!(code_span_at(&refs, 0).unwrap().mermaid_header);
    assert!(!code_span_at(&refs, 1).unwrap().mermaid_header);
    assert_eq!(code_span_at(&refs, 6), None, "a formula stops at the left margin");
    assert_eq!(table_span_at(&refs, 4).map(|s| s.header), Some(2));
    assert_eq!(table_span_at(&refs, 5), None);
    assert_eq!(code_line_flags(&refs), vec![false, true, false, false, false, false, false, false]);
}

#[test]
fn uploads_and_image_urls_are_told_apart() {
    let pdf = "https://scrapbox.io/files/6a8e7e5d714feb3f195319dd.pdf";
    assert!(is_scrapbox_file_url(pdf));
    assert!(!looks_like_image_url(pdf));
    assert!(looks_like_image_url("https://scrapbox.io/files/6a8e7e5d714feb3f195319dd"));
    assert!(!looks_like_image_url("ftp://x/a.png"));
    assert_eq!(file_name_of_url(pdf), "6a8e7e5d714feb3f195319dd.pdf");
    assert_eq!(file_name_of_url("https://x/a/b.png?w=1#f"), "b.png");
    let id = "319b11dda7ce73cb3c1505774cfa0931";
    assert_eq!(gyazo_permalink(&format!("https://i.gyazo.com/{id}.png")), Some(format!("https://gyazo.com/{id}")));
    assert_eq!(gyazo_permalink("https://example.com/a.png"), None);
}

#[test]
fn the_checked_permalink_answers_every_url() {
    let id = "0123456789abcdef0123456789abcdef";
    assert_eq!(
        cosense_core::inline::gyazo_permalink_checked(&format!("https://i.gyazo.com/{id}.png")),
        Some(Some(format!("https://gyazo.com/{id}")))
    );
    assert_eq!(cosense_core::inline::gyazo_permalink_checked("https://example.com/a.png"), Some(None));
}
