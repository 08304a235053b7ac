use cosense_core::math::{
    inline_from_rows, is_blank, join_beside, lines_from_drawing, lines_of, looks_unparsed, prepare_latex,
    rows_from_drawing, Rendered,
};

fn str_width(s: &str) -> usize {
    unicode_width::UnicodeWidthStr::width(s)
}

/// A block formula drawn as the viewer draws it: readied, drawn by
/// term-maths, and read back.
fn render_text(code: &str, width: usize) -> Option<Vec<String>> {
    if is_blank(code) {
        return None;
    }
    let src = prepare_latex(code);
    let drawn = term_maths::render(&src).to_string();
    lines_from_drawing(&drawn, width)
}

/// An inline formula drawn as the viewer draws it.
fn render_rows(latex: &str) -> Option<Rendered> {
    if latex.trim().is_empty() {
        return None;
    }
    let src = prepare_latex(latex);
    let b = term_maths::render(&src);
    rows_from_drawing(&b.to_string(), b.baseline(), b.width())
}

fn block(rows: &[&str], baseline: usize, width: usize) -> Rendered {
    Rendered { rows: rows.iter().map(|r| r.to_string()).collect(), baseline, width }
}

#[test]
fn formulas_are_set_side_by_side_on_one_baseline() {
    let one = block(&["x"], 0, 1);
    let frac = block(&["a", "─", "b"], 1, 1);
    let r = join_beside(&[one, frac]).unwrap();
    assert_eq!(r.rows, vec![" a", "x─", " b"]);
    assert_eq!(r.baseline, 1);
    assert_eq!(r.width, 2);
    assert!(join_beside(&[]).is_none());
    let r = join_beside(&[block(&["a", "─", "b"], 1, 1), block(&["y"], 0, 1)]).unwrap();
    assert_eq!(r.rows, vec!["a", "─y", "b"], "trailing blanks are trimmed");
}

#[test]
fn unparsed_output_and_blank_formulas_are_recognised() {
    assert!(looks_unparsed(r"\begin{align}"));
    assert!(!looks_unparsed("x² + 1"));
    assert!(!looks_unparsed("\\"));
    assert!(!looks_unparsed(r"\1"));
    assert!(is_blank("  \n\t\n"));
    assert!(is_blank(""));
    assert!(!is_blank(" x "));
}

#[test]
fn formulas_join_beside_on_a_shared_baseline() {
    let frac = render_rows(r"\frac{a}{b}").expect("draws");
    let plain = render_rows(r"x = 1").expect("draws");
    let joined = join_beside(&[frac, plain]).expect("draws");
    assert_eq!(joined.rows.len(), 3, "{joined:?}");
    assert_eq!(joined.baseline, 1);
    assert!(joined.rows[1].contains("x = 1"), "{joined:?}");
    assert!(joined.rows[0].contains('a') && joined.rows[2].contains('b'), "{joined:?}");
    for r in &joined.rows {
        assert_eq!(r.trim_end(), r, "{joined:?}");
    }
}

#[test]
fn help_page_formulas_all_draw() {
    for code in [
        r"E = mc^2",
        r"\sqrt{3 \times 4}",
        r"\frac{-b \pm \sqrt{b^2-4ac}}{2a}",
        r"\sum_{i=1}^{n} i = \frac{n(n+1)}{2}",
        r"\lim_{x \to 0} \frac{\sin x}{x} = 1",
        r"\alpha + \beta \le \gamma",
        "L = \\int_{b}^{a} \\sqrt{ \\left( \\frac{dx}{dt} \\right)^{2} } dt",
    ] {
        let lines = render_text(code, 80).unwrap_or_else(|| panic!("{code}"));
        for l in &lines {
            assert!(str_width(l) <= 80, "too wide: {l}");
        }
    }
}

#[test]
fn a_fraction_is_drawn_over_three_rows() {
    let out = render_text(r"\frac{a}{b}", 40).expect("draws");
    assert_eq!(out.len(), 3, "{out:?}");
    assert!(out[0].contains('a') && out[2].contains('b'), "{out:?}");
    assert!(out[1].chars().all(|c| c == '─'), "{out:?}");
}

#[test]
fn a_matrix_does_not_grow_an_empty_last_row() {
    let src = "\\begin{pmatrix}\na & b \\\\\nc & d \\\\\n\\end{pmatrix}";
    let out = render_text(src, 40).expect("draws");
    assert_eq!(out.len(), 2, "phantom row: {out:?}");
    assert!(out[0].contains('a') && out[1].contains('d'), "{out:?}");
}

#[test]
fn blank_lines_the_writer_typed_do_not_reach_the_lib() {
    let with = render_text("\\frac{a}{b}\n\n ", 40).expect("draws");
    assert_eq!(with, render_text("\\frac{a}{b}", 40).expect("draws"));
}

#[test]
fn japanese_labels_keep_every_row_the_same_width() {
    let out = render_text(r"\frac{速度}{時間} + x^2", 40).expect("draws");
    let w = str_width(&out[0]);
    for l in &out {
        assert_eq!(str_width(l), w, "rows must align: {out:?}");
    }
}

#[test]
fn unsupported_latex_declines_instead_of_printing_commands() {
    assert_eq!(render_text("\\begin{align}\nx &= 1\n\\end{align}", 80), None);
    assert_eq!(render_text(r"\qquad", 80), None);
    assert_eq!(render_text("", 80), None);
    assert_eq!(render_text("\n \n", 80), None);
}

#[test]
fn a_formula_wider_than_the_pane_declines() {
    assert_eq!(render_text(r"\frac{-b \pm \sqrt{b^2-4ac}}{2a}", 8), None);
}

#[test]
fn a_formula_is_readied_without_blank_lines_or_idle_row_breaks() {
    let src = "\\begin{pmatrix}\na & b \\\\\nc & d \\\\\n\\end{pmatrix}";
    assert_eq!(prepare_latex(src), "\\begin{pmatrix}\na & b \\\\\nc & d\n\\end{pmatrix}");
    assert_eq!(prepare_latex("x = 1 \\\\  "), "x = 1");
    assert_eq!(prepare_latex("a\n\n  \nb"), "a\nb");
    assert_eq!(prepare_latex(""), "");
}

#[test]
fn lines_are_read_as_str_lines_reads_them() {
    assert_eq!(lines_of("a\r\nb\n"), vec!["a", "b"]);
    assert_eq!(lines_of(""), Vec::<String>::new());
    assert_eq!(lines_of("\n"), vec![""]);
    assert_eq!(lines_of("x\r"), vec!["x\r"]);
}

#[test]
fn a_drawing_is_read_back_or_declined() {
    let r = rows_from_drawing(" a \n───\n b ", 7, 3).unwrap();
    assert_eq!(r.rows, vec![" a ", "───", " b "]);
    assert_eq!(r.baseline, 2, "the baseline stays on a row");
    assert_eq!(r.width, 3);
    assert!(rows_from_drawing("  \n ", 0, 1).is_none());
    assert!(rows_from_drawing(r"\qquad", 0, 1).is_none());
    assert_eq!(lines_from_drawing("ab\ncd", 2), Some(vec!["ab".to_string(), "cd".to_string()]));
    assert_eq!(lines_from_drawing("abc", 2), None);
    assert_eq!(lines_from_drawing("x", 0), Some(vec!["x".to_string()]), "a pane is at least one column");
    assert_eq!(inline_from_rows(&block(&[" x² "], 0, 4)), Some("x²".to_string()));
    assert_eq!(inline_from_rows(&block(&["a", "b"], 0, 1)), None);
    assert_eq!(inline_from_rows(&block(&["   "], 0, 3)), None);
}
