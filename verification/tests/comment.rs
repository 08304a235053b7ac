use cosense_core::comment::{encode_title_for_url, format_all, format_comment, Comment, Revision, Selection};

fn comment(start: usize, end: usize, texts: &[&str], ids: &[&str], body: &str) -> Comment {
    Comment {
        project: "acme".into(),
        title: "Team Tips".into(),
        page_id: "5803c53900000000000000a1".into(),
        revision: None,
        start,
        end,
        line_texts: texts.iter().map(|s| s.to_string()).collect(),
        line_ids: ids.iter().map(|s| s.to_string()).collect(),
        text: body.into(),
    }
}

#[test]
fn selection_normalizes_and_contains() {
    let s = Selection { anchor: 5, cursor: 2 };
    assert_eq!(s.range(), (2, 5));
    assert!(s.contains(3));
    assert!(!s.contains(6));
}

#[test]
fn range_label_is_1_based() {
    assert_eq!(comment(11, 13, &[], &[], "").range_label(), "12-14");
    assert_eq!(comment(30, 30, &[], &[], "").range_label(), "31");
}

#[test]
fn edit_url_deep_links_first_line_id() {
    let c = comment(0, 0, &["x"], &["6a7973f30000000000966115"], "note");
    assert_eq!(c.edit_url(), "https://scrapbox.io/acme/Team_Tips#6a7973f30000000000966115");
    let c2 = comment(0, 0, &["x"], &[], "note");
    assert_eq!(c2.edit_url(), "https://scrapbox.io/acme/Team_Tips");
}

#[test]
fn titles_are_written_as_cosense_readable_links() {
    assert_eq!(encode_title_for_url("Team Tips"), "Team_Tips");
    assert_eq!(encode_title_for_url("改善案 #4 / 50%?"), "改善案_%234_%2F_50%25%3F");
}

#[test]
fn format_is_location_then_quote_then_blank_then_comment() {
    let c = comment(
        11,
        12,
        &["元の行テキスト1", "元の行テキスト2"],
        &["6a7973f30000000000966115", "6a7973f30000000000966116"],
        "この行の誤字を直して\n\n  ",
    );
    assert_eq!(
        format_comment(&c, 0),
        "https://scrapbox.io/acme/Team_Tips#6a7973f30000000000966115 L12-13\n\
         > 元の行テキスト1  # 6a7973f30000000000966115\n\
         > 元の行テキスト2  # 6a7973f30000000000966116\n\
         \n\
         この行の誤字を直して"
    );
    let bare = comment(0, 0, &["x"], &[], "n");
    assert!(format_comment(&bare, 0).starts_with("https://scrapbox.io/acme/Team_Tips L1\n> x\n\nn"));
}

#[test]
fn format_all_numbers_multiple_and_sorts() {
    let a = comment(5, 5, &["b"], &["i2"], "two");
    let b = comment(1, 1, &["a"], &["i1"], "one\nmore");
    let out = format_all(&[a, b], 0);
    assert_eq!(
        out,
        "1. https://scrapbox.io/acme/Team_Tips#i1 L2\n\
         \x20  > a  # i1\n\
         \n\
         \x20   one\n\
         \x20   more\n\
         \n\
         2. https://scrapbox.io/acme/Team_Tips#i2 L6\n\
         \x20  > b  # i2\n\
         \n\
         \x20   two"
    );
}

#[test]
fn a_comment_on_a_past_revision_names_the_snapshot_and_how_to_read_it() {
    let mut c = comment(0, 0, &["古い行"], &["i1"], "この版に戻して");
    c.revision = Some(Revision { snapshot_id: "6a98c8230000000000fed958".into(), created: 0 });
    let out = format_comment(&c, 0);
    let lines: Vec<&str> = out.lines().collect();
    assert!(lines[0].starts_with("https://scrapbox.io/acme/Team_Tips#i1 L1"), "{out}");
    assert!(lines[1].starts_with("Snapshot: 6a98c8230000000000fed958 ("), "{out}");
    assert!(lines[1].ends_with(") — cosense readPageSnapshot https://scrapbox.io/acme 5803c53900000000000000a1 6a98c8230000000000fed958"), "{out}");
    assert_eq!(lines[2], "> 古い行  # i1");
    let all = format_all(&[c.clone(), comment(3, 3, &["x"], &["i9"], "n")], 0);
    assert!(all.contains("\n   Snapshot: 6a98c823"), "{all}");
}

#[test]
fn single_comment_is_not_numbered() {
    let c = comment(0, 0, &["x"], &["i"], "note");
    let out = format_all(&[c], 0);
    assert!(out.starts_with("https://scrapbox.io/acme/Team_Tips"));
}

#[test]
fn a_revision_is_labelled_with_its_local_time() {
    let mut c = comment(0, 0, &["x"], &["i"], "n");
    assert_eq!(c.revision_label(0), None);
    assert_eq!(c.snapshot_id(), None);
    c.revision = Some(Revision { snapshot_id: "s1".into(), created: 1_700_000_000 });
    assert_eq!(c.revision_label(0).as_deref(), Some("2023-11-14 22:13"));
    assert_eq!(c.revision_label(9 * 3600).as_deref(), Some("2023-11-15 07:13"));
    assert_eq!(c.snapshot_id(), Some("s1"));
    assert!(c.covers(0));
    assert!(!c.covers(1));
}

#[test]
fn comments_on_different_pages_sort_by_project_then_title() {
    let mut a = comment(0, 0, &["x"], &["i1"], "a");
    a.project = "zeta".into();
    let mut b = comment(9, 9, &["y"], &["i2"], "b");
    b.title = "Alpha".into();
    let c = comment(2, 2, &["z"], &["i3"], "c");
    let out = format_all(&[a, c, b], 0);
    let firsts: Vec<&str> = out.lines().filter(|l| !l.starts_with(' ') && !l.is_empty()).collect();
    assert_eq!(
        firsts,
        vec![
            "1. https://scrapbox.io/acme/Alpha#i2 L10",
            "2. https://scrapbox.io/acme/Team_Tips#i3 L3",
            "3. https://scrapbox.io/zeta/Team_Tips#i1 L1",
        ]
    );
}
