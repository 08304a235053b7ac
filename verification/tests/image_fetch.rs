use cosense_core::image_fetch::{
    attr_value, cache_key, download_plan, gyazo_api_endpoint, gyazo_oembed_endpoint, needs_sid, og_image_from_html,
    parse_gyazo, Source,
};

#[test]
fn og_image_reads_the_tag_whose_content_comes_first() {
    let html = r#"<head>
<meta content="https://gyazo.com/1d507226c261ce8cc513e8736ee5070c" property="og:url" />
<meta content="https://i.gyazo.com/thumb/1200/1d507226c261ce8cc513e8736ee5070c-jpg.jpg" property="og:image" />
<meta content="72" property="og:image:width" />
</head>"#;
    assert_eq!(
        og_image_from_html(html).as_deref(),
        Some("https://i.gyazo.com/thumb/1200/1d507226c261ce8cc513e8736ee5070c-jpg.jpg")
    );
    let html2 = "<meta property='og:image' content='https://x/y.png'>";
    assert_eq!(og_image_from_html(html2).as_deref(), Some("https://x/y.png"));
    assert_eq!(og_image_from_html("<meta property=\"og:title\" content=\"t\">"), None);
}

#[test]
fn gyazo_permalink_forms_parse() {
    let id = "1d507226c261ce8cc513e8736ee5070c";
    assert_eq!(parse_gyazo(&format!("https://gyazo.com/{id}")), Some((None, id.to_string())));
    assert_eq!(parse_gyazo(&format!("https://acme.gyazo.com/{id}")), Some((Some("acme".to_string()), id.to_string())));
    assert_eq!(parse_gyazo("https://example.com/x"), None);
    assert_eq!(parse_gyazo(&format!("https://i.gyazo.com/{id}")), Some((None, id.to_string())));
    assert_eq!(parse_gyazo(&format!("https://gyazo.com/{id}0")), None, "33 digits is not an id");
}

#[test]
fn attributes_are_read_in_either_quote_and_cache_keys_are_stable() {
    assert_eq!(attr_value("<a href=\"x\" title='y'>", "title").as_deref(), Some("y"));
    assert_eq!(attr_value("<a href=\"x", "href"), None, "an unclosed value is none");
    assert_eq!(attr_value("<a>", "href"), None);
    assert_eq!(og_image_from_html("<meta property=\"og:image\" content=\"u\""), None, "an unclosed tag");
    assert_eq!(cache_key(""), "cbf29ce484222325.img");
    assert_eq!(cache_key("a"), "af63dc4c8601ec8c.img");
}

#[test]
fn a_picture_is_fetched_by_the_first_source_that_answers() {
    let id = "319b11dda7ce73cb3c1505774cfa0931";
    let teams = format!("https://acme-inc.gyazo.com/{id}");
    let page = format!("https://acme-inc.gyazo.com/{id}");
    assert_eq!(
        download_plan(&teams, true),
        vec![
            Source::GyazoApi { id: id.to_string() },
            Source::GyazoOembed { page: page.clone() },
            Source::GyazoOg { page: page.clone() },
        ]
    );
    let personal = format!("https://gyazo.com/{id}");
    assert_eq!(
        download_plan(&personal, false),
        vec![Source::GyazoOembed { page: personal.clone() }, Source::GyazoOg { page: personal.clone() }]
    );
    let upload = "https://scrapbox.io/files/6a8e7e5d714feb3f195319dd.png";
    assert_eq!(download_plan(upload, true), vec![Source::Direct { url: upload.to_string(), with_sid: true }]);
    let other = "https://example.com/a.png";
    assert_eq!(download_plan(other, true), vec![Source::Direct { url: other.to_string(), with_sid: false }]);
    assert_eq!(gyazo_api_endpoint(id), format!("https://api.gyazo.com/api/images/{id}"));
    assert_eq!(gyazo_oembed_endpoint(&personal), format!("https://api.gyazo.com/api/oembed?url={personal}"));
    assert!(needs_sid("https://scrapbox.io/files/x.pdf"));
    assert!(!needs_sid("https://example.com/x.pdf"));
}
