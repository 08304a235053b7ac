use cosense_core::content::{content_rows, BlockFacts, ContentRow, PictureState, TextDrawing};
use cosense_core::page::{Block, RenderOutput};
use cosense_core::render::{ArtifactKind, Extracted};
use cosense_core::table::{Run, PageTable};

fn run(s: &str) -> Vec<Run> {
    vec![Run { text: s.to_string(), layers: vec![] }]
}

fn page(blocks: Vec<Block>, srcs: Vec<usize>) -> RenderOutput {
    let hits = blocks.iter().map(|_| vec![]).collect();
    RenderOutput { blocks, srcs, extracted: Extracted { links: vec![], images: vec![] }, hits }
}

fn facts() -> BlockFacts {
    BlockFacts {
        text_tier: false,
        drawing: TextDrawing::Declined,
        has_picture: false,
        live_preview: false,
        picture: PictureState::Loading,
    }
}

#[test]
fn blocks_become_rows_tagged_with_their_source_lines() {
    let out = page(
        vec![
            Block::Text(run("title")),
            Block::Blank,
            Block::Image { url: "u".into(), indent: 30, item: true },
        ],
        vec![0, 1, 2],
    );
    let f = vec![facts(), facts(), BlockFacts { picture: PictureState::Ready, ..facts() }];
    assert_eq!(
        content_rows(&out, &f, 20, None, false),
        vec![
            ContentRow::Text { block: 0, src: 0 },
            ContentRow::Blank { src: 1 },
            ContentRow::Image { block: 2, src: 2, indent: 16, item: true, state: PictureState::Ready },
        ]
    );
}

#[test]
fn the_caret_line_is_raw_source_with_its_formula_preview_outside_code() {
    let out = page(vec![Block::Text(run("a")), Block::Text(run("b"))], vec![0, 1]);
    let f = vec![facts(), facts()];
    assert_eq!(
        content_rows(&out, &f, 20, Some((1, false)), true),
        vec![ContentRow::Text { block: 0, src: 0 }, ContentRow::Raw { src: 1 }, ContentRow::FormulaPreview { src: 1 }]
    );
    assert_eq!(
        content_rows(&out, &f, 20, Some((1, true)), true),
        vec![ContentRow::Text { block: 0, src: 0 }, ContentRow::Raw { src: 1 }]
    );
}

#[test]
fn an_artifact_is_drawn_pictured_or_shown_as_source() {
    let art = || Block::Artifact {
        kind: ArtifactKind::Math,
        code: "x".into(),
        rows: vec![(3, run("code:tex")), (4, run(" x"))],
        last_src: 4,
        indent: 2,
    };
    let out = page(vec![art()], vec![3]);
    let drawn = BlockFacts { text_tier: true, drawing: TextDrawing::Drawn, ..facts() };
    assert_eq!(content_rows(&out, &[drawn], 20, None, false), vec![ContentRow::Drawn { block: 0, src: 4 }]);
    let pic = BlockFacts { has_picture: true, ..facts() };
    assert_eq!(content_rows(&out, &[pic], 20, None, false), vec![ContentRow::Picture { block: 0, src: 4, indent: 2 }]);
    let narrow = BlockFacts { text_tier: true, drawing: TextDrawing::TooNarrow(30), ..facts() };
    assert_eq!(
        content_rows(&out, &[narrow], 20, None, false),
        vec![
            ContentRow::TooNarrow { block: 0, needed: 30, have: 18 },
            ContentRow::Code { block: 0, row: 0, src: 3 },
            ContentRow::Code { block: 0, row: 1, src: 4 },
        ]
    );
    // Editing inside: the picture steps aside, the caret row is raw, and
    // the live preview follows the source.
    let editing = BlockFacts { has_picture: true, live_preview: true, ..facts() };
    assert_eq!(
        content_rows(&out, &[editing], 20, Some((4, true)), false),
        vec![ContentRow::Code { block: 0, row: 0, src: 3 }, ContentRow::Raw { src: 4 }, ContentRow::LivePreview { block: 0 }]
    );
}

#[test]
fn a_table_swaps_its_caret_row_for_raw_source_once() {
    let t = PageTable { name: "t".into(), name_src: 5, rows: vec![(6, vec![run("a"), run("b")])] };
    let out = page(vec![Block::Table(t)], vec![5]);
    let rows = content_rows(&out, &[facts()], 30, Some((6, false)), false);
    assert_eq!(rows.iter().filter(|r| **r == ContentRow::Raw { src: 6 }).count(), 1);
    assert!(!rows.iter().any(|r| matches!(r, ContentRow::TableRow { src: 6, .. })));
    assert!(rows.iter().any(|r| matches!(r, ContentRow::TableRow { src: 5, .. })));
}
