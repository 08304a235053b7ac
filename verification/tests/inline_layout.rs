use cosense_core::inline_layout::{layout_inline, layout_inline_checked, InlineItem};
use cosense_core::table::Run;

fn text(s: &str) -> InlineItem {
    InlineItem::Text(vec![Run { text: s.to_string(), layers: vec![] }])
}

fn joined(line: &[Run]) -> String {
    line.iter().map(|r| r.text.as_str()).collect()
}

#[test]
fn a_picture_sits_on_the_text_row_between_words() {
    let items = vec![text("ab"), InlineItem::Image { url: "u".into(), w: 3, h: 2 }, text("cd")];
    let (images, texts, rows) = layout_inline(&items, 1, 10);
    assert_eq!(rows, 2);
    assert_eq!(images.len(), 1);
    assert_eq!((images[0].row, images[0].col, images[0].what.as_str()), (0, 3, "u"));
    let t: Vec<(u16, u16, usize, usize, String)> =
        texts.iter().map(|p| (p.row, p.col, p.what.part, p.what.start, joined(&p.what.line))).collect();
    assert_eq!(t, vec![(1, 1, 0, 0, "ab".to_string()), (1, 6, 2, 0, "cd".to_string())]);
}

#[test]
fn text_past_the_edge_goes_on_in_the_next_box_dropping_nothing() {
    let (images, texts, rows) = layout_inline(&[text("abcdef")], 0, 4);
    assert!(images.is_empty());
    assert_eq!(rows, 2);
    let t: Vec<(u16, u16, usize, String)> =
        texts.iter().map(|p| (p.row, p.col, p.what.start, joined(&p.what.line))).collect();
    assert_eq!(t, vec![(0, 0, 0, "abcd".to_string()), (1, 0, 4, "ef".to_string())]);
}

#[test]
fn a_formula_straddles_the_text_row() {
    let items = vec![
        text("x"),
        InlineItem::Formula { rows: vec!["a".into(), "-".into(), "b".into()], baseline: 1, w: 1 },
    ];
    let (_, texts, rows) = layout_inline(&items, 0, 10);
    assert_eq!(rows, 3);
    let t: Vec<(u16, u16, usize, String)> =
        texts.iter().map(|p| (p.row, p.col, p.what.part, joined(&p.what.line))).collect();
    assert_eq!(
        t,
        vec![
            (1, 0, 0, "x".to_string()),
            (0, 1, 1, "a".to_string()),
            (1, 1, 1, "-".to_string()),
            (2, 1, 1, "b".to_string()),
        ]
    );
}

#[test]
fn a_picture_that_does_not_fit_starts_the_next_box() {
    let items = vec![text("abc"), InlineItem::Image { url: "p".into(), w: 4, h: 3 }];
    let (images, texts, rows) = layout_inline(&items, 0, 5);
    assert_eq!((texts[0].row, texts[0].col), (0, 0));
    assert_eq!((images[0].row, images[0].col), (1, 0));
    assert_eq!(rows, 4);
}

#[test]
fn the_checked_form_refuses_an_empty_formula_and_an_oversized_line() {
    let empty = vec![InlineItem::Formula { rows: vec![], baseline: 0, w: 1 }];
    assert!(layout_inline_checked(&empty, 0, 10).is_none());
    let tall = vec![InlineItem::Image { url: "t".into(), w: 1, h: 65535 }];
    assert!(layout_inline_checked(&tall, 0, 10).is_none());
    assert!(layout_inline_checked(&[text("hi")], 2, 10).is_some());
}
