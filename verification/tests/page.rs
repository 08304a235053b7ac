use cosense_core::decorate::Layer;
use cosense_core::inline::{file_name_of_url, is_scrapbox_file_url, looks_like_image_url};
use cosense_core::math::{prepare_latex, rows_from_drawing, Rendered};
use cosense_core::page::{
    drawn_line, formula_sources, is_diagram_rule, render_lines, render_lines_checked, render_lines_with, Block,
    Drawing, InlinePart, RenderOutput,
};
use cosense_core::render::ArtifactKind;
use cosense_core::render::{code_line_flags, code_span_at, Hit, HitTarget, LinkTruth};
use cosense_core::table::Run;

fn runs_text(runs: &[Run]) -> String {
    runs.iter().map(|r| r.text.as_str()).collect()
}

fn plain(b: &Block) -> String {
    match b {
        Block::Blank => "[BLANK]".into(),
        Block::Image { url, .. } => format!("[IMAGE {url}]"),
        Block::Inline { parts, .. } => parts
            .iter()
            .map(|p| match p {
                InlinePart::Image(u) => format!("[IMAGE {u}]"),
                InlinePart::Formula { rows, .. } => rows.join("\n"),
                InlinePart::Text(l) => runs_text(l),
            })
            .collect::<Vec<_>>()
            .join(""),
        Block::Text(l) => runs_text(l),
        Block::Table(_) => "[TABLE]".into(),
        Block::Artifact { rows, .. } => rows.iter().map(|(_, l)| runs_text(l)).collect::<Vec<_>>().join("\n"),
    }
}

fn lines_of(src: &[&str]) -> Vec<String> {
    src.iter().map(|s| s.to_string()).collect()
}

/// An inline formula drawn as the viewer draws it.
fn draw(latex: &str) -> Option<Rendered> {
    if latex.trim().is_empty() {
        return None;
    }
    let src = prepare_latex(latex);
    let b = term_maths::render(&src);
    rows_from_drawing(&b.to_string(), b.baseline(), b.width())
}

/// Every formula of the page, drawn.
fn drawings_for(lines: &[String]) -> Vec<Drawing> {
    let mut out = Vec::new();
    for line in lines {
        for latex in formula_sources(line) {
            if let Some(rendered) = draw(&latex) {
                out.push(Drawing { latex, rendered });
            }
        }
    }
    out
}

fn render_drawn(lines: &[String]) -> RenderOutput {
    render_lines_with(lines, &LinkTruth::new(), &drawings_for(lines))
}

/// The looks of the second block's runs.
fn looks(src: &str, known: &LinkTruth) -> Vec<(String, Vec<Layer>)> {
    let out = render_lines_with(&["t".to_string(), src.to_string()], known, &[]);
    match &out.blocks[1] {
        Block::Text(l) => l.iter().map(|r| (r.text.clone(), r.layers.clone())).collect(),
        _ => Vec::new(),
    }
}

fn layers_of(src: &str) -> Vec<Vec<Layer>> {
    looks(src, &LinkTruth::new()).into_iter().map(|(_, l)| l).collect()
}

#[test]
fn standalone_gyazo_becomes_image_block() {
    let id = "319b11dda7ce73cb3c1505774cfa0931";
    let lines = vec!["タイトル".to_string(), format!("[https://acme-inc.gyazo.com/{id}]")];
    let out = render_lines(&lines);
    match &out.blocks[1] {
        Block::Image { url, .. } => assert_eq!(url, &format!("https://acme-inc.gyazo.com/{id}")),
        other => panic!("expected image block, got {other:?}"),
    }
}

#[test]
fn headings_take_the_palettes_level_style_by_star_count() {
    let lines = lines_of(&["title", "[* one]", "[** two]", "[*** three]", "[**** four]", "[***** five]"]);
    let out = render_lines(&lines);
    let got: Vec<String> = out.blocks.iter().map(plain).collect();
    assert_eq!(&got[1..], ["one", "two", "three", "four", "five"], "no lead-in marks");
    let look_of = |b: &Block| match b {
        Block::Text(l) => l[0].layers.clone(),
        _ => unreachable!(),
    };
    assert_eq!(look_of(&out.blocks[0]), vec![Layer::Title], "title = top level");
    // The star forms carry their level; the theme's style for each level
    // (bold, never italic) is the drawing's.
    for (k, stars) in [(1, 1), (2, 2), (3, 3), (4, 4), (5, 5)] {
        assert_eq!(look_of(&out.blocks[k]), vec![Layer::Stars(stars)]);
    }
    assert_ne!(look_of(&out.blocks[1]), look_of(&out.blocks[4]));
}

#[test]
fn indented_headings_keep_both_bullet_and_theme_heading_styles() {
    let out = render_lines_with(&lines_of(&["title", " [* one]", "   [*** three]"]), &LinkTruth::new(), &[]);
    assert_eq!(plain(&out.blocks[1]), "• one");
    assert_eq!(plain(&out.blocks[2]), "    • three");
    for (block, stars) in [(&out.blocks[1], 1), (&out.blocks[2], 3)] {
        let Block::Text(line) = block else { panic!("expected text") };
        assert_eq!(line[1].text, "• ");
        assert_eq!(line[1].layers, vec![Layer::Bullet]);
        assert_eq!(line[2].layers, vec![Layer::Stars(stars)]);
    }
}

#[test]
fn uploaded_files_are_links_not_images() {
    let pdf = "https://scrapbox.io/files/6a8e7e5d714feb3f195319dd.pdf";
    assert!(!looks_like_image_url(pdf));
    assert!(is_scrapbox_file_url(pdf));
    assert_eq!(file_name_of_url(pdf), "6a8e7e5d714feb3f195319dd.pdf");
    assert!(looks_like_image_url("https://scrapbox.io/files/6a8e7e5d714feb3f195319dd"));
    assert!(looks_like_image_url("https://scrapbox.io/files/6a8e7e5d714feb3f195319dd.png"));
    assert!(!is_scrapbox_file_url("https://scrapbox.io/files/6a8e7e5d714feb3f195319dd.png"));
    // a titled file link renders as a label, never an image block
    let out = render_lines(&["t".into(), format!("[260826ニセコ.pdf {pdf}]")]);
    assert_eq!(plain(&out.blocks[1]), "260826ニセコ.pdf");
    assert!(out.extracted.images.is_empty());
    // an untitled one shows the file name
    let out = render_lines(&["t".into(), format!("[{pdf}]")]);
    assert_eq!(plain(&out.blocks[1]), "6a8e7e5d714feb3f195319dd.pdf");
}

#[test]
fn a_mermaid_block_becomes_one_web_render_keyed_on_its_last_line() {
    let lines = lines_of(&["title", "code:mmd", " flowchart LR", "   A-->B", "", "after"]);
    let out = render_lines(&lines);
    let web: Vec<_> = out
        .blocks
        .iter()
        .filter_map(|b| match b {
            Block::Artifact { code, rows, last_src, .. } => Some((code, rows, *last_src)),
            _ => None,
        })
        .collect();
    assert_eq!(web.len(), 1);
    let (code, rows, last_src) = web[0];
    assert_eq!(last_src, 3);
    assert_eq!(code, "flowchart LR\n  A-->B");
    assert_eq!(rows.len(), 3);
    assert_eq!(rows[0].0, 1);
    assert!(plain(&Block::Text(rows[0].1.clone())).contains("code:mmd"));
    assert_eq!(rows.iter().map(|(s, _)| *s).collect::<Vec<_>>(), vec![1, 2, 3]);
    assert!(matches!(out.blocks.last(), Some(Block::Text(_))));
}

#[test]
fn several_mermaid_blocks_stay_separate_and_other_languages_are_untouched() {
    let lines = lines_of(&["title", "code:one.mmd", " graph TD", "code:js", " let a = 1", "code:mermaid", " pie"]);
    let out = render_lines(&lines);
    let last_srcs: Vec<usize> = out
        .blocks
        .iter()
        .filter_map(|b| match b {
            Block::Artifact { last_src, .. } => Some(*last_src),
            _ => None,
        })
        .collect();
    assert_eq!(last_srcs, vec![2, 6], "one web block per mermaid block");
    assert!(out.blocks.iter().any(|b| matches!(b, Block::Text(_)) && plain(b).contains("let a = 1")));
}

#[test]
fn mermaid_nests_twice_without_bullets_then_becomes_plain_list_rows() {
    let lines = lines_of(&[
        "title",
        "code::test.mmd",
        "   flowchart LR",
        "     TUI-- CDP -->Chrome",
        "     Chrome-- PNG -->TUI",
        "",
        "",
        " code:test.mmd",
        "   flowchart LR",
        "     TUI-- CDP -->Chrome",
        "     Chrome-- PNG -->TUI",
        "",
        "",
        "\u{3000}\u{3000}code::test.mmd",
        "   flowchart LR",
        "     TUI-- CDP -->Chrome",
        "     Chrome-- PNG -->TUI",
        "",
        "",
        "",
        "  code::test.mmd",
        "   flowchart LR",
        "     TUI-- CDP -->Chrome",
        "     Chrome-- PNG -->TUI",
        "",
        "   code::test.mmd",
        "   flowchart LR",
        "     TUI-- CDP -->Chrome",
        "     Chrome-- PNG -->TUI",
        "     Chrome-- PNG -->TUI",
    ]);
    let out = render_lines(&lines);
    let indents: Vec<usize> = out
        .blocks
        .iter()
        .filter_map(|b| match b {
            Block::Artifact { indent, .. } => Some(*indent),
            _ => None,
        })
        .collect();
    assert_eq!(indents, vec![0, 2, 4, 4], "blank-separated levels 0, 1 and 2 draw independently");
    let plain_rows: Vec<String> = out.blocks.iter().map(plain).collect();
    assert!(plain_rows.iter().any(|s| s.contains("• code::test.mmd")));
    assert!(plain_rows.iter().any(|s| s.contains("• flowchart LR")));
    assert!(plain_rows.iter().any(|s| s.contains("• TUI-- CDP -->Chrome")));
    assert!(plain_rows.iter().any(|s| s.contains("• Chrome-- PNG -->TUI")));
    let refs: Vec<&str> = lines.iter().map(String::as_str).collect();
    assert!((25..=29).all(|i| code_span_at(&refs, i).is_none()));
    let flags = code_line_flags(&refs);
    assert!((25..=29).all(|i| !flags[i]));
}

#[test]
fn an_inline_formula_is_set_in_the_line() {
    let lines = lines_of(&[
        "title",
        r"[$ E = mc^2 ]",
        r"1行に複数も書ける: [$ 3 \times 2 ]は[$ 2 \times 3 ]と同じ",
        r"数式内に]を含む場合: [$ [x-3]+a^2 ]",
    ]);
    let got: Vec<String> = render_drawn(&lines).blocks.iter().map(plain).collect();
    assert_eq!(
        got,
        vec!["title", "E = mc²", "1行に複数も書ける: 3 × 2は2 × 3と同じ", "数式内に]を含む場合: [x - 3] + a²",]
    );
}

#[test]
fn a_drawn_formula_takes_the_body_ink_and_bare_latex_the_code_ink() {
    let lines = vec!["title".to_string(), r"[$ E = mc^2 ]と[$ \begin{align} x &= 1 \end{align} ]".to_string()];
    let out = render_drawn(&lines);
    let Block::Text(line) = &out.blocks[1] else { panic!("{:?}", out.blocks[1]) };
    let ink = |needle: &str| {
        line.iter()
            .find(|r| r.text.contains(needle))
            .unwrap_or_else(|| panic!("{needle} missing: {line:?}"))
            .layers
            .clone()
    };
    assert_eq!(ink("mc²"), Vec::<Layer>::new(), "drawn: the sentence's own ink");
    assert_eq!(ink(r"\begin{align}"), vec![Layer::Notation], "undrawn: notation, so the notation colour");
}

#[test]
fn an_inline_formula_is_not_a_page_link() {
    let lines = lines_of(&["title", r"[$ E = mc^2 ]", "[普通のリンク]"]);
    let out = render_lines(&lines);
    assert_eq!(out.extracted.links, vec!["普通のリンク"], "{:?}", out.extracted.links);
    assert!(
        out.hits.iter().flatten().all(|h| !matches!(&h.target, HitTarget::Page(p) if p.contains('$'))),
        "no followable target on a formula"
    );
}

#[test]
fn a_tall_inline_formula_becomes_a_part_of_its_own() {
    let lines = vec!["title".to_string(), r"解は[$ \frac{-b}{2a} ]だ".to_string()];
    let out = render_drawn(&lines);
    let Block::Inline { parts, .. } = &out.blocks[1] else {
        panic!("expected an inline block, got {:?}", out.blocks[1])
    };
    let shape: Vec<String> = parts
        .iter()
        .map(|p| match p {
            InlinePart::Text(l) => runs_text(l),
            InlinePart::Formula { source, rows, baseline } => {
                format!("math({}) rows={} baseline={baseline}", source.text, rows.len())
            }
            InlinePart::Image(u) => format!("img({u})"),
        })
        .collect();
    assert_eq!(shape, vec!["解は", r"math(\frac{-b}{2a}) rows=3 baseline=1", "だ"], "one sentence, three parts");
    let InlinePart::Formula { rows, .. } = &parts[1] else { unreachable!() };
    let w = unicode_width::UnicodeWidthStr::width(rows[0].as_str());
    for r in rows {
        assert_eq!(unicode_width::UnicodeWidthStr::width(r.as_str()), w, "{rows:?}");
    }
}

#[test]
fn a_formula_only_survives_at_the_left_margin() {
    let lines = lines_of(&["title", "code:tex", " \\frac{a}{b}", "", " code:tex", "  \\frac{c}{d}"]);
    let out = render_lines(&lines);
    let indents: Vec<usize> = out
        .blocks
        .iter()
        .filter_map(|b| match b {
            Block::Artifact { indent, .. } => Some(*indent),
            _ => None,
        })
        .collect();
    assert_eq!(indents, vec![0], "only the flush block is a formula");
    let plain_rows: Vec<String> = out.blocks.iter().map(plain).collect();
    assert!(plain_rows.iter().any(|s| s.contains("• code:tex")), "{plain_rows:?}");
    assert!(plain_rows.iter().any(|s| s.contains(r"• \frac{c}{d}")), "{plain_rows:?}");
    let refs: Vec<&str> = lines.iter().map(String::as_str).collect();
    assert!((4..=5).all(|i| code_span_at(&refs, i).is_none()));
    let flags = code_line_flags(&refs);
    assert!((4..=5).all(|i| !flags[i]));
}

#[test]
fn an_empty_mermaid_block_stays_a_plain_code_header() {
    let out = render_lines(&lines_of(&["title", "code:mmd"]));
    assert!(!out.blocks.iter().any(|b| matches!(b, Block::Artifact { .. })));
    assert!(out.blocks.iter().any(|b| plain(b).contains("code:mmd")));
}

#[test]
fn a_nested_plain_code_header_wears_the_lists_bullet_but_its_body_does_not() {
    let lines = lines_of(&[
        "t",
        "code:top",
        " top()",
        "区切り",
        " 箇条",
        " code:go",
        "  func()",
        "区切り2",
        "  箇条2",
        "  code:rs",
        "   main()",
    ]);
    let out = render_lines(&lines);
    let got: Vec<String> = out.blocks.iter().map(plain).collect();
    assert!(got.iter().any(|s| s == "code:top"), "level 0 is bare: {got:?}");
    assert!(got.iter().any(|s| s == "• code:go"), "level 1 wears it: {got:?}");
    assert!(got.iter().any(|s| s == "  • code:rs"), "level 2 wears it: {got:?}");
    assert!(
        got.iter().filter(|s| s.contains("func()") || s.contains("main()")).all(|s| !s.contains('•')),
        "body rows stay bare: {got:?}"
    );
    let refs: Vec<&str> = lines.iter().map(String::as_str).collect();
    let flags = code_line_flags(&refs);
    assert_eq!(flags, vec![false, false, true, false, false, false, true, false, false, false, true], "{flags:?}");
}

#[test]
fn a_blank_code_line_keeps_its_block_instead_of_becoming_a_bullet() {
    let lines = lines_of(&[
        "[* mindmap]",
        "code:mindmap.mmd",
        " mindmap",
        "  root((mindmap))",
        "    Origins",
        "    Research",
        "    ",
        "    ",
        "    ",
        "",
        "[* timeline]",
    ]);
    let out = render_lines(&lines);
    let got: Vec<String> = out.blocks.iter().map(plain).collect();
    assert!(!got.iter().any(|s| s.contains('•')), "no dots below the drawing: {got:?}");
    let Block::Artifact { last_src, .. } = &out.blocks[1] else { panic!("{:?}", out.blocks[1]) };
    assert_eq!(*last_src, 8, "the blanks are the block's tail");
    assert_eq!(got[2], "[BLANK]");
}

#[test]
fn blank_lines_after_a_code_block_are_all_kept() {
    let lines = lines_of(&["t", "code:x.py", " print(1)", "", "", "", "after"]);
    let out = render_lines_with(&lines, &LinkTruth::new(), &[]);
    let got: Vec<String> = out.blocks.iter().map(plain).collect();
    assert_eq!(got, vec!["t", "code:x.py", "  print(1)", "[BLANK]", "[BLANK]", "[BLANK]", "after"]);
    // every source line owns exactly one block, in order
    assert_eq!(out.srcs, vec![0, 1, 2, 3, 4, 5, 6]);
    // a truly blank line ends the block: the blank is a page blank, and
    // the indented line after it is a bullet again.
    let lines = lines_of(&["t", "code:x.py", " a = 1", "", " b = 2", "end"]);
    let out = render_lines(&lines);
    let got: Vec<String> = out.blocks.iter().map(plain).collect();
    assert_eq!(got, vec!["t", "code:x.py", "  a = 1", "[BLANK]", "• b = 2", "end"]);
    assert_eq!(out.srcs, vec![0, 1, 2, 3, 4, 5]);
}

#[test]
fn blank_preserved_and_flush_left_bullet() {
    let lines = lines_of(&["お問い合わせメール対応", " お問い合わせメールのフォーマット", "", "次のセクション"]);
    let out = render_lines(&lines);
    let got: Vec<String> = out.blocks.iter().map(plain).collect();
    assert_eq!(got[0], "お問い合わせメール対応");
    assert_eq!(got[1], "• お問い合わせメールのフォーマット");
    assert_eq!(got[2], "[BLANK]");
    assert_eq!(got[3], "次のセクション");
}

#[test]
fn fullwidth_space_nesting() {
    let lines = lines_of(&[
        "ページタイトル",
        "\t\t\t\t本文",
        "\t\t\t\t\u{3000}見出し",
        "\t\t\t\t\u{3000}    基本は見出しH2で作成",
    ]);
    let out = render_lines(&lines);
    let got: Vec<String> = out.blocks.iter().map(plain).collect();
    assert_eq!(got[1], "      • 本文");
    assert_eq!(got[2], "        • 見出し");
    assert_eq!(got[3], "                • 基本は見出しH2で作成");
}

#[test]
fn every_followable_thing_says_which_span_it_is() {
    let render = |src: &str| {
        let out = render_lines_with(&["t".to_string(), src.to_string()], &LinkTruth::new(), &[]);
        let line = match &out.blocks[1] {
            Block::Text(l) => l.clone(),
            b => panic!("not a text block: {b:?}"),
        };
        out.hits[1].iter().map(|h| (line[h.span].text.clone(), h.target.clone())).collect::<Vec<(String, HitTarget)>>()
    };
    assert_eq!(
        render("see [Target] and [Docs https://example.com] #tag"),
        vec![
            ("Target".into(), HitTarget::Page("Target".into())),
            ("Docs".into(), HitTarget::Url { label: "Docs".into(), url: "https://example.com".into() }),
            ("#tag".into(), HitTarget::Page("tag".into())),
        ]
    );
    assert_eq!(
        render("[Docs] then [Docs https://example.com]"),
        vec![
            ("Docs".into(), HitTarget::Page("Docs".into())),
            ("Docs".into(), HitTarget::Url { label: "Docs".into(), url: "https://example.com".into() }),
        ]
    );
    assert_eq!(
        render("a [* [ページ]] b [[[太字リンク]]]"),
        vec![
            ("ページ".into(), HitTarget::Page("ページ".into())),
            ("太字リンク".into(), HitTarget::Page("太字リンク".into())),
        ]
    );
    assert_eq!(render(" ここに [リンク]"), vec![("リンク".into(), HitTarget::Page("リンク".into()))]);
    assert_eq!(render("> 引用の中の [リンク]"), vec![("リンク".into(), HitTarget::Page("リンク".into()))]);
    assert_eq!(render(" code:hello.py"), vec![("code:hello.py".into(), HitTarget::BlockLabel)]);
    assert_eq!(render("[* ただの太字] and [] text"), vec![]);
}

#[test]
fn only_links_the_page_vouched_for_can_be_marked_missing() {
    let known = LinkTruth::seed(&["あるページ", "ないページ", "tag"], &["あるページ"]);
    let look_of = |src: &str, text: &str, m: &LinkTruth| {
        looks(src, m)
            .into_iter()
            .find(|(c, _)| c == text)
            .unwrap_or_else(|| panic!("{text:?} not rendered from {src:?}"))
            .1
    };
    assert_eq!(look_of("[あるページ]", "あるページ", &known), vec![Layer::Link]);
    assert_eq!(look_of("[ないページ]", "ないページ", &known), vec![Layer::LinkMissing]);
    // A hashtag is a link too.
    assert_eq!(look_of("#tag", "#tag", &known), vec![Layer::LinkMissing]);
    // A decorated link keeps the marking.
    assert!(look_of("[* [ないページ]]", "ないページ", &known).contains(&Layer::LinkMissing));
    // No evidence either way: the ordinary look.
    assert_eq!(look_of("[新しく打った]", "新しく打った", &known), vec![Layer::Link]);
    // And with nothing known at all, nothing is marked.
    assert_eq!(look_of("[ないページ]", "ないページ", &LinkTruth::new()), vec![Layer::Link]);
}

#[test]
fn empty_brackets_are_text_and_double_brackets_are_bold() {
    let text = |src: &str| -> String {
        let out = render_lines_with(&["t".to_string(), src.to_string()], &LinkTruth::new(), &[]);
        match &out.blocks[1] {
            Block::Text(l) => runs_text(l),
            _ => String::new(),
        }
    };
    assert_eq!(text("[]"), "[]");
    assert_eq!(text("a[]b"), "a[]b");
    assert_eq!(text("空の [] を書く"), "空の [] を書く");
    assert_eq!(text("[ ]"), "[ ]", "whitespace is not a page name either");
    assert_eq!(text("[foo"), "[foo", "an unclosed bracket is text");
    assert_eq!(text("[リンク]"), "リンク");
    assert_eq!(text("[[太字]]"), "太字");
    assert_eq!(text("[[]]"), "[[]]", "empty double brackets are text too");
    assert_eq!(layers_of("[[太字]]"), layers_of("[* 太字]"));
    assert_ne!(layers_of("[[太字]]"), layers_of("太字"), "and it is not plain text");
}

#[test]
fn a_line_keeps_its_text_and_every_picture_on_it() {
    let shape = |src: &str| -> Vec<String> {
        let out = render_lines_with(&["t".to_string(), src.to_string()], &LinkTruth::new(), &[]);
        out.blocks
            .iter()
            .skip(1)
            .map(|b| match b {
                Block::Image { url, indent, item } => format!("image:{indent}{}:{url}", if *item { "*" } else { "" }),
                Block::Inline { indent, item, parts } => {
                    let shape: Vec<String> = parts
                        .iter()
                        .map(|p| match p {
                            InlinePart::Image(u) => format!("img({u})"),
                            InlinePart::Formula { source, .. } => format!("math({})", source.text),
                            InlinePart::Text(l) => format!("txt({})", runs_text(l)),
                        })
                        .collect();
                    format!("inline:{indent}{}:{}", if *item { "*" } else { "" }, shape.join("|"))
                }
                Block::Text(l) => format!("text:{}", runs_text(l)),
                _ => "other".into(),
            })
            .collect()
    };
    assert_eq!(shape("[https://example.com/a.png]"), vec!["image:0:https://example.com/a.png".to_string()]);
    let bare = shape("https://example.com/a.png こんな感じ");
    assert_eq!(bare.len(), 1, "{bare:?}");
    assert!(bare[0].starts_with("text:"), "{bare:?}");
    assert!(bare[0].contains("こんな感じ"));
    let after = shape("[https://example.com/a.png]こんな感じに後ろのテキストも表示される");
    assert_eq!(after, vec!["inline:0:img(https://example.com/a.png)|txt(こんな感じに後ろのテキストも表示される)"]);
    let before = shape("先に本文 [https://example.com/a.png]");
    assert_eq!(before, vec!["inline:0:txt(先に本文 )|img(https://example.com/a.png)"]);
    assert_eq!(
        shape(" [https://example.com/a.png]"),
        vec!["image:2*:https://example.com/a.png".to_string()],
        "one level in = the column after `• `, and the picture IS the item",
    );
    let indented = shape("  [https://example.com/a.png] と本文");
    assert_eq!(indented.len(), 1, "{indented:?}");
    assert!(indented[0].starts_with("inline:4*:img("), "{indented:?}");
    assert!(indented[0].contains("txt( と本文)"), "{indented:?}");
    assert!(shape("[https://example.com/a.png] と本文")[0].starts_with("inline:0:"));
    let quoted = shape("`[https://example.com/a.png]` → 画像になる");
    assert_eq!(quoted.len(), 1, "{quoted:?}");
    assert!(quoted[0].starts_with("text:"), "{quoted:?}");
    assert_eq!(shape("`[https://example.com/a.png]`").len(), 1);
    let two = shape("[https://example.com/a.png] と [https://example.com/b.png]");
    assert_eq!(two, vec!["inline:0:img(https://example.com/a.png)|txt( と )|img(https://example.com/b.png)"]);
}

#[test]
fn inline_decorations_carry_the_heading_level_and_keep_links() {
    let last = |src: &str| -> Vec<Layer> { layers_of(src).last().cloned().unwrap_or_default() };
    let one = layers_of("→ [* 見出し]");
    let two = layers_of("→ [** 見出し]");
    let three = layers_of("→ [*** 見出し]");
    assert_ne!(one, two);
    assert_ne!(two, three);
    assert_eq!(last("→ [* 見出し]"), vec![Layer::Stars(1)], "one star = the level of a one-star heading line");
    assert_eq!(last("→ [** 見出し]"), vec![Layer::Stars(2)]);
    assert_eq!(last("→ [*** 見出し]"), vec![Layer::Stars(3)]);
    // Italic comes from the `/` flag and nowhere else.
    for l in [last("→ [* 見出し]"), last("→ [** 見出し]"), last("→ [*** 見出し]")] {
        assert!(!l.contains(&Layer::Italic), "{l:?}");
    }
    let slash = last("→ [*/ 斜体]");
    assert!(slash.contains(&Layer::Italic));
    assert!(slash.contains(&Layer::Stars(1)), "and keeps its level");
    // A decorated link: still a link, and not italic.
    let deco = last("[[[改善案]]]");
    assert!(deco.contains(&Layer::Stars(1)));
    assert!(deco.contains(&Layer::Link), "still reads as a link");
    assert!(!deco.contains(&Layer::Italic));
    let out = render_lines(&["t".to_string(), "[[[改善案]]]".to_string()]);
    assert_eq!(out.extracted.links, vec!["改善案".to_string()], "followable");
    let out = render_lines(&["t".to_string(), "[* [改善案]]".to_string()]);
    assert_eq!(out.extracted.links, vec!["改善案".to_string()]);
}

#[test]
fn a_mixed_text_and_picture_line_keeps_its_hits_across_its_text_parts() {
    let out = render_lines(&[
        "title".into(),
        "本文 [Target] [https://example.com/a.png] 後 [Docs https://example.com]".into(),
    ]);
    let Block::Inline { parts, .. } = &out.blocks[1] else { panic!("expected an inline block") };
    let spans: Vec<String> = parts
        .iter()
        .flat_map(|p| match p {
            InlinePart::Text(l) => l.iter().map(|r| r.text.clone()).collect(),
            InlinePart::Image(_) | InlinePart::Formula { .. } => Vec::new(),
        })
        .collect();
    let hits = &out.hits[1];
    assert_eq!(hits.len(), 2, "{hits:?}");
    assert_eq!(spans[hits[0].span], "Target");
    assert_eq!(hits[0].target, HitTarget::Page("Target".into()));
    assert_eq!(spans[hits[1].span], "Docs", "the second part's hit is shifted past the first part's spans");
    assert_eq!(hits[1].target, HitTarget::Url { label: "Docs".into(), url: "https://example.com".into() });
}

#[test]
fn a_link_before_inline_code_on_the_same_line_is_still_a_link() {
    let out = render_lines(&["title".into(), "a [crowdin] b `#3117` / c `[not a link]`".into()]);
    let Block::Text(l) = &out.blocks[1] else { panic!() };
    let texts: Vec<&str> = l.iter().map(|r| r.text.as_str()).collect();
    assert_eq!(texts, vec!["a ", "crowdin", " b ", " #3117 ", " / c ", " [not a link] "]);
    assert_eq!(out.hits[1], vec![Hit { span: 1, target: HitTarget::Page("crowdin".into()) }]);
    assert_eq!(out.extracted.links, vec!["crowdin"]);
}

#[test]
fn a_truly_blank_line_ends_the_code_block_like_web() {
    let lines = lines_of(&["t", "code:テスト.txt", " これは", "", " だからそれは楽しい話なのかもしれません。", " やったね"]);
    let out = render_lines(&lines);
    let got: Vec<String> = out.blocks.iter().map(plain).collect();
    assert_eq!(
        got,
        vec![
            "t",
            "code:テスト.txt",
            "  これは",
            "[BLANK]",
            "• だからそれは楽しい話なのかもしれません。",
            "• やったね",
        ]
    );
    let strs: Vec<&str> = lines.iter().map(|s| s.as_str()).collect();
    let flags = code_line_flags(&strs);
    assert_eq!(flags, [false, false, true, false, false, false]);
}

#[test]
fn tables_commands_quotes_and_empty_bullets_are_drawn() {
    let lines = lines_of(&[
        "title",
        "table:prices",
        " item\tcost ",
        " [tea]\t2",
        "$ make all",
        "> said [here]",
        "  ",
    ]);
    let out = render_lines(&lines);
    let Block::Table(t) = &out.blocks[1] else { panic!("{:?}", out.blocks[1]) };
    assert_eq!(t.name, "prices");
    assert_eq!(t.name_src, 1);
    assert_eq!(t.rows.len(), 2);
    assert_eq!(t.rows[0].0, 2);
    assert_eq!(runs_text(&t.rows[0].1[1]), "cost");
    assert_eq!(t.rows[1].1[0][0].layers, vec![Layer::Link]);
    assert_eq!(out.srcs, vec![0, 1, 4, 5, 6]);
    let Block::Text(cmd) = &out.blocks[2] else { panic!() };
    assert_eq!(cmd[1].text, "$ ");
    assert_eq!(cmd[1].layers, vec![Layer::Sigil]);
    assert_eq!(cmd[2].text, "make all");
    assert_eq!(cmd[2].layers, vec![Layer::Command]);
    let Block::Text(q) = &out.blocks[3] else { panic!() };
    assert_eq!(runs_text(q), "┃ said here");
    assert_eq!(q[1].layers, vec![Layer::QuoteBar]);
    assert_eq!(q[3].layers, vec![Layer::Link, Layer::Italic]);
    assert_eq!(out.hits[3], vec![Hit { span: 3, target: HitTarget::Page("here".into()) }]);
    assert_eq!(plain(&out.blocks[4]), "  •");
    assert_eq!(out.extracted.links, vec!["tea", "here"]);
}

#[test]
fn a_code_header_is_followable_and_its_rows_are_code() {
    let out = render_lines(&lines_of(&["t", " code:a.rs", "  fn main() {}"]));
    assert_eq!(out.hits[1], vec![Hit { span: 2, target: HitTarget::BlockLabel }]);
    let Block::Text(row) = &out.blocks[2] else { panic!() };
    assert_eq!(row[1].layers, vec![Layer::CodeBody]);
    assert_eq!(row[1].text, "fn main() {}");
    // a code row has nothing on it to follow, and the hits stay one list per block
    assert_eq!(out.hits.len(), out.blocks.len());
    assert!(out.hits[2].is_empty());
}

#[test]
fn a_picture_whose_permalink_cannot_be_cut_fails_the_page() {
    // A wide space right before a gyazo subdomain.
    let bad = lines_of(&["t", "see \u{3000}x.gyazo.com/0123456789abcdef0123456789abcdef"]);
    assert!(render_lines_checked(&bad, &LinkTruth::new(), &[]).is_none());
    let fine = lines_of(&["t", "see x.gyazo.com/0123456789abcdef0123456789abcdef"]);
    let out = render_lines_checked(&fine, &LinkTruth::new(), &[]).unwrap();
    assert_eq!(out.extracted.images, vec!["https://x.gyazo.com/0123456789abcdef0123456789abcdef".to_string()]);
}

#[test]
fn formulas_are_listed_as_written() {
    assert_eq!(formula_sources(r"a [$ x^2 ] b [$ [y] ]"), vec![" x^2 ", " [y] "]);
    assert!(formula_sources("[x] $ y").is_empty());
    assert_eq!(formula_sources("[$]"), vec![""]);
}

#[test]
fn a_diagram_row_dims_its_rules_and_a_formula_row_is_one_ink() {
    let runs = drawn_line("┌─┐ ab →x", 2, ArtifactKind::Mermaid);
    let shape: Vec<(String, Vec<Layer>)> = runs.iter().map(|r| (r.text.clone(), r.layers.clone())).collect();
    assert_eq!(
        shape,
        vec![
            ("  ".to_string(), vec![]),
            ("┌─┐".to_string(), vec![Layer::Rule]),
            (" ab ".to_string(), vec![]),
            ("→".to_string(), vec![Layer::Rule]),
            ("x".to_string(), vec![]),
        ]
    );
    let math = drawn_line("x─y", 1, ArtifactKind::Math);
    assert_eq!(math.len(), 1);
    assert_eq!(math[0].text, " x─y");
    assert!(math[0].layers.is_empty());
    assert!(is_diagram_rule('│') && is_diagram_rule('▶') && is_diagram_rule('←'));
    assert!(!is_diagram_rule('-') && !is_diagram_rule('a') && !is_diagram_rule('図'));
}

#[test]
fn hits_stay_with_their_blocks_after_a_code_block() {
    let out = render_lines(&lines_of(&["t", "code:a.py", " x = 1", " y = 2", "see [Page]"]));
    assert_eq!(out.hits.len(), out.blocks.len());
    assert_eq!(out.srcs, vec![0, 1, 2, 3, 4]);
    let Block::Text(line) = &out.blocks[4] else { panic!() };
    assert_eq!(out.hits[4], vec![Hit { span: 1, target: HitTarget::Page("Page".into()) }]);
    assert_eq!(line[1].text, "Page");
}
