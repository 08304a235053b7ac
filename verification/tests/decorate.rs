use cosense_core::decorate::{decorate_inline, decorate_inline_checked, parse_heading, Layer, Piece};
use cosense_core::render::{Hit, HitTarget, LinkTruth};

fn text(t: &str, layers: &[Layer]) -> Piece {
    Piece::Text { text: t.to_string(), layers: layers.to_vec() }
}

fn page(span: usize, p: &str) -> Hit {
    Hit { span, target: HitTarget::Page(p.to_string()) }
}

fn url(span: usize, label: &str, u: &str) -> Hit {
    Hit { span, target: HitTarget::Url { label: label.to_string(), url: u.to_string() } }
}

fn known() -> LinkTruth {
    LinkTruth::seed(&["Page", "Gone"], &["Page"])
}

#[test]
fn links_and_tags_are_followable_pieces() {
    let d = decorate_inline("see [Page] and #tag", &known(), Vec::new(), Vec::new());
    assert_eq!(
        d.pieces,
        vec![
            text("see ", &[]),
            text("Page", &[Layer::Link]),
            text(" and ", &[]),
            text("#tag", &[Layer::Link]),
        ]
    );
    assert_eq!(d.links, vec!["Page", "tag"]);
    assert_eq!(d.hits, vec![page(1, "Page"), page(3, "tag")]);
    assert!(d.images.is_empty());
}

#[test]
fn a_page_known_to_be_missing_wears_its_own_look() {
    let d = decorate_inline("[Gone]", &known(), vec!["before".to_string()], Vec::new());
    assert_eq!(d.pieces, vec![text("Gone", &[Layer::LinkMissing])]);
    assert_eq!(d.links, vec!["before", "Gone"], "links are added to the page's");
}

#[test]
fn code_spans_hide_notation_and_bare_urls_are_followable() {
    let d = decorate_inline("a `[b]` https://x.y/z c", &known(), Vec::new(), Vec::new());
    assert_eq!(
        d.pieces,
        vec![
            text("a ", &[]),
            text(" [b] ", &[Layer::Code]),
            text(" ", &[]),
            text("https://x.y/z", &[Layer::Url]),
            text(" c", &[]),
        ]
    );
    assert_eq!(d.hits, vec![url(3, "https://x.y/z", "https://x.y/z")]);
    assert!(d.links.is_empty());
}

#[test]
fn star_decorations_are_heading_levels() {
    let d = decorate_inline("[** big] [*/- s] [[bold]]", &known(), Vec::new(), Vec::new());
    assert_eq!(
        d.pieces,
        vec![
            text("big", &[Layer::Stars(2)]),
            text(" ", &[]),
            text("s", &[Layer::Stars(1), Layer::Italic, Layer::Strike]),
            text(" ", &[]),
            text("bold", &[Layer::Stars(1)]),
        ]
    );
    let d = decorate_inline("[****** six]", &known(), Vec::new(), Vec::new());
    assert_eq!(d.pieces, vec![text("six", &[Layer::Stars(6)]), text(" *6", &[Layer::Marker(6)])]);
    let d = decorate_inline("[************ many]", &known(), Vec::new(), Vec::new());
    assert_eq!(d.pieces[1], text(" *10", &[Layer::Marker(12)]), "the count shown stops at ten");
}

#[test]
fn a_decorated_link_stays_a_link() {
    let d = decorate_inline("[* [Page]]", &known(), Vec::new(), Vec::new());
    assert_eq!(d.pieces, vec![text("Page", &[Layer::Stars(1), Layer::Link])]);
    assert_eq!(d.hits, vec![page(0, "Page")]);
    let d = decorate_inline("[[[Page]]]", &known(), Vec::new(), Vec::new());
    assert_eq!(d.pieces, vec![text("Page", &[Layer::Stars(1), Layer::Link])]);
}

#[test]
fn formulas_icons_and_empty_brackets() {
    let d = decorate_inline("[$ x^2 ][me.icon][][[ ]]", &known(), Vec::new(), Vec::new());
    assert_eq!(
        d.pieces,
        vec![
            Piece::Formula { latex: " x^2 ".to_string(), source: "x^2".to_string(), layers: vec![] },
            text("@me", &[Layer::Icon]),
            text("[]", &[]),
            text("[[ ]]", &[]),
        ]
    );
    assert!(d.links.is_empty() && d.hits.is_empty());
}

#[test]
fn bracketed_urls_are_labelled() {
    let d = decorate_inline(
        "[Google https://google.com] [https://example.com/a.png] [https://x.y]",
        &known(),
        Vec::new(),
        Vec::new(),
    );
    assert_eq!(
        d.pieces,
        vec![
            text("Google", &[Layer::Url]),
            text(" ", &[]),
            text("a.png", &[Layer::Url]),
            text(" ", &[]),
            text("https://x.y", &[Layer::Url]),
        ]
    );
    assert_eq!(
        d.hits,
        vec![
            url(0, "Google", "https://google.com"),
            url(2, "a.png", "https://example.com/a.png"),
            url(4, "https://x.y", "https://x.y"),
        ]
    );
}

#[test]
fn gyazo_links_are_pictures_of_the_line() {
    let g = "https://gyazo.com/0123456789abcdef0123456789abcdef";
    let d = decorate_inline(&format!("[{g}]"), &known(), Vec::new(), Vec::new());
    assert_eq!(d.pieces, vec![text("[gyazo]", &[Layer::Gyazo])]);
    assert_eq!(d.images, vec![g.to_string()], "collected once");
    assert_eq!(d.hits, vec![url(0, "[gyazo]", g)]);
}

#[test]
fn a_hash_that_starts_no_tag_ends_the_reading() {
    let d = decorate_inline("a#b #c", &known(), Vec::new(), Vec::new());
    assert_eq!(d.pieces, vec![text("a#b #c", &[])]);
    assert!(d.links.is_empty());
}

#[test]
fn a_subdomain_after_a_wide_space_cannot_be_cut() {
    let line = "\u{3000}x.gyazo.com/0123456789abcdef0123456789abcdef";
    assert!(decorate_inline_checked(line, &known(), Vec::new(), Vec::new()).is_none());
    let fine = "x.gyazo.com/0123456789abcdef0123456789abcdef";
    let d = decorate_inline_checked(fine, &known(), Vec::new(), Vec::new()).unwrap();
    assert_eq!(d.images, vec!["https://x.gyazo.com/0123456789abcdef0123456789abcdef".to_string()]);
}

#[test]
fn a_line_of_one_star_bracket_is_a_heading() {
    let d = parse_heading("[** Title]", &known(), Vec::new(), Vec::new()).unwrap();
    assert_eq!(d.pieces, vec![text("Title", &[Layer::Stars(2)])]);
    let d = parse_heading("[* see [Page]]  ", &known(), Vec::new(), Vec::new()).unwrap();
    assert_eq!(d.pieces, vec![text("see ", &[Layer::Stars(1)]), text("Page", &[Layer::Stars(1), Layer::Link])]);
    assert_eq!(d.hits, vec![page(1, "Page")]);
    assert!(parse_heading("[* a] b", &known(), Vec::new(), Vec::new()).is_none(), "text after the bracket");
    assert!(parse_heading("[a]", &known(), Vec::new(), Vec::new()).is_none(), "no stars");
    assert!(parse_heading("[**]", &known(), Vec::new(), Vec::new()).is_none(), "only stars");
    assert!(parse_heading("plain", &known(), Vec::new(), Vec::new()).is_none());
}
