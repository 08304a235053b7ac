use cosense_core::decorate::Layer;
use cosense_core::table::{proportional, wrap_cell, Run, PageTable};
use unicode_width::UnicodeWidthStr;

fn cell(s: &str) -> Vec<Run> {
    vec![Run { text: s.to_string(), layers: vec![] }]
}

fn line_str(l: &(Vec<Run>, usize)) -> String {
    l.0.iter().map(|r| r.text.as_str()).collect()
}

fn runs_str(l: &[Run]) -> String {
    l.iter().map(|r| r.text.as_str()).collect()
}

#[test]
fn natural_width_when_fits() {
    let t = PageTable {
        name: String::new(),
        name_src: 0,
        rows: vec![
            (1, vec![cell("abc"), cell("def")]),
            (2, vec![cell("12345"), cell("6789")]),
        ],
    };
    let lines: Vec<String> = t.layout(200).iter().map(line_str).collect();
    assert_eq!(lines[0], "┌───────┬──────┐");
    assert_eq!(lines[1], "│ abc   │ def  │");
}

#[test]
fn rows_carry_their_source_lines() {
    let t = PageTable {
        name: "t".into(),
        name_src: 5,
        rows: vec![
            (6, vec![cell("h1"), cell("h2")]),
            (7, vec![cell("a"), cell("b")]),
            (8, vec![cell("c"), cell("d")]),
        ],
    };
    let out = t.layout(200);
    // name line + top border → opener; each row (and its separator
    // above) → that row's line; bottom border → last row
    let srcs: Vec<usize> = out.iter().map(|(_, s)| *s).collect();
    assert_eq!(srcs, vec![5, 5, 6, 7, 7, 8, 8]);
}

#[test]
fn cjk_columns_align() {
    let t = PageTable {
        name: String::new(),
        name_src: 0,
        rows: vec![(1, vec![cell("長い長い文字列"), cell("短い文字列")])],
    };
    let lines: Vec<String> = t.layout(200).iter().map(line_str).collect();
    // every rendered line has equal display width
    let w0 = UnicodeWidthStr::width(lines[0].as_str());
    assert!(lines.iter().all(|l| UnicodeWidthStr::width(l.as_str()) == w0));
}

#[test]
fn shrinks_and_wraps_when_narrow() {
    let t = PageTable {
        name: String::new(),
        name_src: 0,
        rows: vec![
            (1, vec![cell("col"), cell("value")]),
            (2, vec![cell("これはとても長い日本語のセルです"), cell("x")]),
        ],
    };
    let lines: Vec<String> = t.layout(20).iter().map(line_str).collect();
    // no rendered line exceeds the available width
    assert!(lines.iter().all(|l| UnicodeWidthStr::width(l.as_str()) <= 20));
    // content is preserved somewhere in the output
    let joined: String = lines.join("");
    assert!(joined.contains("日本語"));
}

#[test]
fn name_line_header_and_frame_wear_their_looks() {
    let t = PageTable {
        name: "prices".into(),
        name_src: 3,
        rows: vec![(4, vec![cell("item"), cell("cost")]), (5, vec![cell("tea"), cell("2")])],
    };
    let out = t.layout(200);
    assert_eq!(line_str(&out[0]), "table:prices");
    assert_eq!(out[0].0[0].layers, vec![Layer::BlockLabel]);
    assert_eq!(out[1].0[0].layers, vec![Layer::Frame]);
    // header row: rule, space, bold cell, padding, rule, ...
    let header = &out[2].0;
    assert_eq!(header[0].layers, vec![Layer::Frame]);
    assert_eq!(header[2].text, "item");
    assert_eq!(header[2].layers, vec![Layer::Bold]);
    // the body row is not bold
    let body = &out[4].0;
    assert_eq!(body[2].text, "tea");
    assert!(body[2].layers.is_empty());
    let lines: Vec<String> = out.iter().map(line_str).collect();
    assert_eq!(
        lines,
        vec![
            "table:prices",
            "┌──────┬──────┐",
            "│ item │ cost │",
            "├──────┼──────┤",
            "│ tea  │ 2    │",
            "└──────┴──────┘",
        ]
    );
}

#[test]
fn a_table_without_cells_is_only_its_name() {
    let t = PageTable { name: "empty".into(), name_src: 9, rows: vec![(10, vec![])] };
    let out = t.layout(80);
    assert_eq!(out.len(), 1);
    assert_eq!(line_str(&out[0]), "table:empty");
    assert_eq!(out[0].1, 9);
    let nameless = PageTable { name: String::new(), name_src: 0, rows: vec![] };
    assert!(nameless.layout(80).is_empty());
}

#[test]
fn short_rows_get_blank_cells() {
    let t = PageTable {
        name: String::new(),
        name_src: 0,
        rows: vec![(1, vec![cell("a"), cell("b")]), (2, vec![cell("c")])],
    };
    assert_eq!(t.column_count(), 2);
    let lines: Vec<String> = t.layout(80).iter().map(line_str).collect();
    assert_eq!(lines[3], "│ c │   │");
}

#[test]
fn narrow_tables_separate_every_row() {
    let t = PageTable {
        name: String::new(),
        name_src: 0,
        rows: vec![
            (1, vec![cell("aa bb")]),
            (2, vec![cell("cc dd")]),
            (3, vec![cell("ee")]),
        ],
    };
    // natural width 5 does not fit in 8 (5 + 4 of frame); budget 4
    let (widths, constrained) = t.column_widths(1, 8);
    assert_eq!(widths, vec![4]);
    assert!(constrained);
    let lines: Vec<String> = t.layout(8).iter().map(line_str).collect();
    assert_eq!(
        lines,
        vec![
            "┌──────┐",
            "│ aa   │",
            "│ bb   │",
            "├──────┤",
            "│ cc   │",
            "│ dd   │",
            "├──────┤",
            "│ ee   │",
            "└──────┘",
        ]
    );
}

#[test]
fn wide_tokens_are_split_between_characters() {
    let lines = wrap_cell(&cell("abcdefg"), 3, false);
    let texts: Vec<String> = lines.iter().map(|l| runs_str(l)).collect();
    assert_eq!(texts, vec!["abc", "def", "g"]);
    let cjk = wrap_cell(&cell("日本語"), 4, false);
    let texts: Vec<String> = cjk.iter().map(|l| runs_str(l)).collect();
    assert_eq!(texts, vec!["日本", "語"]);
}

#[test]
fn wrapping_keeps_the_runs_apart() {
    let c = vec![
        Run { text: "ab ".to_string(), layers: vec![Layer::Italic] },
        Run { text: "cd".to_string(), layers: vec![] },
    ];
    let lines = wrap_cell(&c, 10, false);
    assert_eq!(lines.len(), 1);
    assert_eq!(lines[0].len(), 2);
    assert_eq!(lines[0][0].text, "ab ");
    assert_eq!(lines[0][0].layers, vec![Layer::Italic]);
    assert_eq!(lines[0][1].text, "cd");
    let header = wrap_cell(&c, 10, true);
    assert_eq!(header[0][0].layers, vec![Layer::Italic, Layer::Bold]);
    assert_eq!(header[0][1].layers, vec![Layer::Bold]);
    let empty = wrap_cell(&[], 5, false);
    assert_eq!(empty.len(), 1);
    assert!(empty[0].is_empty());
}

#[test]
fn shares_follow_the_natural_widths() {
    // each column keeps its floor; the 9 left over go 3 and 6 by gap
    assert_eq!(proportional(&[10, 20], &[2, 4], 15), vec![5, 10]);
    // rounding leaves one over: it goes to the first of the equal gaps
    assert_eq!(proportional(&[5, 5, 5], &[1, 1, 1], 7), vec![3, 2, 2]);
    // enough room: the natural widths
    assert_eq!(proportional(&[4, 6], &[1, 1], 10), vec![4, 6]);
    // not even the floors: the floors
    assert_eq!(proportional(&[4, 6], &[3, 3], 5), vec![3, 3]);
}

#[test]
fn shares_stay_between_floor_and_natural() {
    let natural = [9, 1, 30, 4];
    let floors = [2, 1, 5, 4];
    for budget in 0..50 {
        let w = proportional(&natural, &floors, budget);
        for i in 0..4 {
            assert!(floors[i] <= w[i] && w[i] <= natural[i]);
        }
    }
}

#[test]
fn shares_add_up_to_the_budget() {
    let natural = [9, 1, 30, 4, 12];
    let floors = [2, 1, 5, 4, 3];
    let (sf, sn): (usize, usize) = (floors.iter().sum(), natural.iter().sum());
    for budget in sf..=sn {
        let w = proportional(&natural, &floors, budget);
        assert_eq!(w.iter().sum::<usize>(), budget, "budget {budget}: {w:?}");
    }
}
