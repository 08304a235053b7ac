use cosense_core::api::{EditOp, PageLine};
use cosense_core::editops::{apply_ops, diff_to_ops, edit_script, invert_ops, Step};

#[test]
fn undo_blank_insert_deletes_only_the_inserted_identity() {
    let lines: Vec<PageLine> = vec![pl("title", "title"), pl("old", "")];
    let ops = vec![EditOp::Insert {
        anchor: "old".into(),
        lines: vec![("new".into(), "".into())],
    }];
    assert_eq!(
        invert_ops(&lines, &ops),
        vec![EditOp::Delete { id: "new".into() }]
    );
}

fn old_page(lines: &[&str]) -> Vec<(String, String)> {
    lines
        .iter()
        .enumerate()
        .map(|(i, t)| (format!("id{i}"), t.to_string()))
        .collect()
}
fn new(lines: &[&str]) -> Vec<String> {
    lines.iter().map(|s| s.to_string()).collect()
}

/// Comparable shape of an op: inserted line ids are random, so tests
/// compare (kind, target/anchor, texts) instead of raw equality.
fn shape(op: &EditOp) -> (String, String, String) {
    match op {
        EditOp::Replace { id, text } => ("replace".into(), id.clone(), text.clone()),
        EditOp::Delete { id } => ("delete".into(), id.clone(), String::new()),
        EditOp::Insert { anchor, lines } => (
            "insert".into(),
            anchor.clone(),
            lines
                .iter()
                .map(|(_, t)| t.as_str())
                .collect::<Vec<_>>()
                .join("\n"),
        ),
    }
}
fn shapes(ops: &[EditOp]) -> Vec<(String, String, String)> {
    ops.iter().map(shape).collect()
}
fn s(k: &str, a: &str, t: &str) -> (String, String, String) {
    (k.into(), a.into(), t.into())
}

#[test]
fn unchanged_page_needs_no_ops() {
    let o = old_page(&["title", "a", "b"]);
    assert!(diff_to_ops(&o, &new(&["title", "a", "b"])).is_empty());
}

#[test]
fn changed_line_becomes_replace_preserving_its_id() {
    let o = old_page(&["title", "a", "b"]);
    let ops = diff_to_ops(&o, &new(&["title", "A!", "b"]));
    assert_eq!(
        ops,
        vec![EditOp::Replace {
            id: "id1".into(),
            text: "A!".into()
        }]
    );
}

#[test]
fn title_rename_is_a_replace_of_line_zero() {
    let o = old_page(&["title", "a"]);
    let ops = diff_to_ops(&o, &new(&["new title", "a"]));
    assert_eq!(
        ops,
        vec![EditOp::Replace {
            id: "id0".into(),
            text: "new title".into()
        }]
    );
}

#[test]
fn added_lines_become_one_insert_before_the_next_kept_line() {
    let o = old_page(&["title", "a", "b"]);
    let ops = diff_to_ops(&o, &new(&["title", "a", "x", "y", "b"]));
    assert_eq!(shapes(&ops), vec![s("insert", "id2", "x\ny")]);
    // inserted lines carry fresh 24-hex ids
    if let EditOp::Insert { lines, .. } = &ops[0] {
        assert!(lines.iter().all(|(id, _)| id.len() == 24));
    }
}

#[test]
fn appended_lines_anchor_at_end() {
    let o = old_page(&["title", "a"]);
    let ops = diff_to_ops(&o, &new(&["title", "a", "x"]));
    assert_eq!(shapes(&ops), vec![s("insert", "_end", "x")]);
}

#[test]
fn removed_lines_become_deletes() {
    let o = old_page(&["title", "a", "b", "c"]);
    let ops = diff_to_ops(&o, &new(&["title", "c"]));
    assert_eq!(
        ops,
        vec![
            EditOp::Delete { id: "id1".into() },
            EditOp::Delete { id: "id2".into() },
        ]
    );
}

#[test]
fn mixed_hunk_pairs_replaces_then_extras() {
    // a,b → X (1 replace + 1 delete); then d gains lines after it
    let o = old_page(&["t", "a", "b", "keep", "d"]);
    let ops = diff_to_ops(&o, &new(&["t", "X", "keep", "d", "tail1", "tail2"]));
    assert_eq!(
        shapes(&ops),
        vec![
            s("replace", "id1", "X"),
            s("delete", "id2", ""),
            s("insert", "_end", "tail1\ntail2"),
        ]
    );
}

#[test]
fn emptied_page_is_refused() {
    let o = old_page(&["title", "a"]);
    assert!(diff_to_ops(&o, &[]).is_empty());
}

fn pl(id: &str, text: &str) -> PageLine {
    PageLine {
        id: id.into(),
        text: text.into(),
        user_id: String::new(),
        created: 0,
        updated: 0,
    }
}
fn texts(lines: &[PageLine]) -> Vec<String> {
    lines.iter().map(|l| l.text.clone()).collect()
}

#[test]
fn apply_ops_mirrors_the_server_transition() {
    let mut lines = vec![pl("a", "title"), pl("b", "one"), pl("c", "two")];
    apply_ops(
        &mut lines,
        &[
            EditOp::Replace {
                id: "b".into(),
                text: "ONE".into(),
            },
            EditOp::Insert {
                anchor: "c".into(),
                lines: vec![("x".into(), "mid".into())],
            },
            EditOp::Delete { id: "c".into() },
            EditOp::Insert {
                anchor: "_end".into(),
                lines: vec![("y".into(), "tail".into())],
            },
        ],
    );
    assert_eq!(texts(&lines), vec!["title", "ONE", "mid", "tail"]);
    assert_eq!(lines[2].id, "x");
}

#[test]
fn invert_roundtrips_textually() {
    let orig = vec![
        pl("a", "title"),
        pl("b", "one"),
        pl("c", "two"),
        pl("d", "three"),
    ];
    let ops = vec![
        EditOp::Replace {
            id: "b".into(),
            text: "ONE".into(),
        },
        EditOp::Insert {
            anchor: "c".into(),
            lines: vec![("x".into(), "mid".into())],
        },
        EditOp::Delete { id: "d".into() },
    ];
    let inv = invert_ops(&orig, &ops);
    let mut lines = orig.clone();
    apply_ops(&mut lines, &ops);
    assert_eq!(texts(&lines), vec!["title", "ONE", "mid", "two"]);
    apply_ops(&mut lines, &inv);
    assert_eq!(texts(&lines), texts(&orig), "undo restores the text");
    // replace undo kept the line id (permalinks survive)
    assert_eq!(lines[1].id, "b");
}

#[test]
fn multi_line_delete_undoes_in_order_regardless_of_delete_order() {
    let orig = vec![
        pl("t", "title"),
        pl("a", "1"),
        pl("b", "2"),
        pl("c", "3"),
        pl("z", "end"),
    ];
    for ops in [
        // top-down and bottom-up delete of the a..c range
        vec![
            EditOp::Delete { id: "a".into() },
            EditOp::Delete { id: "b".into() },
            EditOp::Delete { id: "c".into() },
        ],
        vec![
            EditOp::Delete { id: "c".into() },
            EditOp::Delete { id: "b".into() },
            EditOp::Delete { id: "a".into() },
        ],
    ] {
        let inv = invert_ops(&orig, &ops);
        let mut lines = orig.clone();
        apply_ops(&mut lines, &ops);
        assert_eq!(texts(&lines), vec!["title", "end"]);
        apply_ops(&mut lines, &inv);
        assert_eq!(texts(&lines), texts(&orig), "ops={ops:?}");
    }
}

#[test]
fn deleting_the_tail_undoes_via_end_anchor() {
    let orig = vec![pl("t", "title"), pl("a", "1"), pl("b", "2")];
    let ops = vec![
        EditOp::Delete { id: "a".into() },
        EditOp::Delete { id: "b".into() },
    ];
    let inv = invert_ops(&orig, &ops);
    let mut lines = orig.clone();
    apply_ops(&mut lines, &ops);
    apply_ops(&mut lines, &inv);
    assert_eq!(texts(&lines), texts(&orig));
}

#[test]
fn redo_is_the_inverse_of_the_inverse() {
    let orig = vec![pl("t", "title"), pl("a", "1")];
    let ops = vec![
        EditOp::Replace {
            id: "a".into(),
            text: "ONE".into(),
        },
        EditOp::Insert {
            anchor: "_end".into(),
            lines: vec![("n".into(), "new".into())],
        },
    ];
    let mut lines = orig.clone();
    apply_ops(&mut lines, &ops);
    let after = texts(&lines);
    let undo = invert_ops(&orig, &ops);
    let redo = invert_ops(&lines, &undo);
    apply_ops(&mut lines, &undo);
    assert_eq!(texts(&lines), texts(&orig));
    apply_ops(&mut lines, &redo);
    assert_eq!(texts(&lines), after);
}

#[test]
fn move_undo_and_redo_recreate_only_the_moved_source() {
    let orig = vec![
        pl("t", "title"),
        pl("a", "neighbor"),
        pl("b", "root"),
        pl("c", " child"),
        pl("z", "after"),
    ];
    let moved = vec![("n1".into(), "root".into()), ("n2".into(), " child".into())];
    let ops = vec![
        EditOp::Delete { id: "b".into() },
        EditOp::Delete { id: "c".into() },
        EditOp::Insert {
            anchor: "a".into(),
            lines: moved,
        },
    ];

    let undo = invert_ops(&orig, &ops);
    assert!(matches!(&undo[0], EditOp::Delete { id } if id == "n1"));
    assert!(matches!(&undo[1], EditOp::Delete { id } if id == "n2"));
    assert!(matches!(&undo[2], EditOp::Insert { anchor, .. } if anchor == "z"));

    let mut after = orig.clone();
    apply_ops(&mut after, &ops);
    let redo = invert_ops(&after, &undo);
    apply_ops(&mut after, &undo);
    assert_eq!(texts(&after), texts(&orig));
    assert_eq!(after[1].id, "a", "the smaller neighbor kept its ID");
    assert_eq!(after[4].id, "z", "the following line kept its ID");

    apply_ops(&mut after, &redo);
    assert_eq!(
        texts(&after),
        vec!["title", "root", " child", "neighbor", "after"]
    );
    assert_eq!(after[3].id, "a", "redo still moves the user's target");
    assert_eq!(after[4].id, "z");
}

/// Every old line must be consumed and every new line produced once,
/// whatever route the script took.
fn assert_script_shape(old: &[&str], new: &[&str]) -> Vec<Step> {
    let steps = edit_script(old, new);
    let dels = steps.iter().filter(|s| **s != Step::Ins).count();
    let inss = steps.iter().filter(|s| **s != Step::Del).count();
    assert_eq!(dels, old.len(), "old lines consumed");
    assert_eq!(inss, new.len(), "new lines produced");
    // Replaying the script reproduces `new`.
    let (mut i, mut j) = (0, 0);
    for s in &steps {
        match s {
            Step::Match => {
                assert_eq!(old[i], new[j], "a Match pairs equal lines");
                i += 1;
                j += 1;
            }
            Step::Del => i += 1,
            Step::Ins => j += 1,
        }
    }
    steps
}

#[test]
fn shared_head_and_tail_are_matched_without_a_table() {
    // 3 shared on top, 2 below, one changed line in the middle: the
    // script is exactly what a full LCS would say.
    let old = ["t", "a", "b", "x", "y", "z"];
    let new = ["t", "a", "b", "X", "y", "z"];
    let steps = assert_script_shape(&old, &new);
    assert_eq!(
        steps,
        vec![
            Step::Match,
            Step::Match,
            Step::Match,
            Step::Del,
            Step::Ins,
            Step::Match,
            Step::Match
        ]
    );
    // An identical page: all matches, an empty middle.
    assert!(assert_script_shape(&old, &old)
        .iter()
        .all(|s| *s == Step::Match));
    // Everything shared on top, extra lines only below.
    assert_eq!(
        assert_script_shape(&["t", "a"], &["t", "a", "b"]),
        vec![Step::Match, Step::Match, Step::Ins]
    );
    assert_eq!(
        assert_script_shape(&["t", "a", "b"], &["t"]),
        vec![Step::Match, Step::Del, Step::Del]
    );
    // A repeated line at the edge: the head takes as many as match,
    // and the middle still comes out consistent.
    assert_script_shape(&["a", "a", "a"], &["a", "a"]);
    assert_script_shape(&["a", "b", "a"], &["a", "a"]);
}

#[test]
fn an_oversized_middle_pairs_positionally_and_still_replaces() {
    // Two pages with no line in common and a product above the cap.
    // Each side is 2001+ lines so the middle is 2001*2001 > 4M cells.
    let n = 2_001;
    let olds: Vec<String> = (0..n).map(|i| format!("old {i}")).collect();
    let news: Vec<String> = (0..n + 2).map(|i| format!("new {i}")).collect();
    let old: Vec<&str> = olds.iter().map(String::as_str).collect();
    let new: Vec<&str> = news.iter().map(String::as_str).collect();
    let steps = assert_script_shape(&old, &new);
    assert_eq!(steps.iter().filter(|s| **s == Step::Del).count(), n);
    assert_eq!(steps.iter().filter(|s| **s == Step::Ins).count(), n + 2);
    // Through `diff_to_ops`, the lines pair into replaces (ids kept)
    // and the two extra lines become one insert at the end.
    let page: Vec<(String, String)> = olds
        .iter()
        .enumerate()
        .map(|(i, t)| (format!("id{i}"), t.clone()))
        .collect();
    let ops = diff_to_ops(&page, &news);
    assert_eq!(ops.len(), n + 1);
    assert!(matches!(&ops[0], EditOp::Replace { id, text } if id == "id0" && text == "new 0"));
    assert!(
        matches!(&ops[n], EditOp::Insert { anchor, lines } if anchor == "_end" && lines.len() == 2)
    );
}

#[test]
fn duplicate_lines_do_not_confuse_the_pairing() {
    // Scrapbox pages are full of empty lines; the LCS must keep them
    // stable and only move the actual change.
    let o = old_page(&["t", "", "a", "", "b", ""]);
    let ops = diff_to_ops(&o, &new(&["t", "", "a", "", "B", ""]));
    assert_eq!(
        ops,
        vec![EditOp::Replace {
            id: "id4".into(),
            text: "B".into()
        }]
    );
}

#[test]
fn lines_the_diff_does_not_delete_keep_their_ids_through_apply_and_undo() {
    let o = old_page(&["title", "a", "b", "c", "d"]);
    let edited = new(&["title", "A", "b", "x", "d"]);
    let ops = diff_to_ops(&o, &edited);
    let page: Vec<PageLine> = o.iter().map(|(id, t)| pl(id, t)).collect();
    let mut lines = page.clone();
    apply_ops(&mut lines, &ops);
    let texts: Vec<String> = lines.iter().map(|l| l.text.clone()).collect();
    assert_eq!(texts, edited);
    let deleted: Vec<&str> = ops
        .iter()
        .filter_map(|op| match op {
            EditOp::Delete { id } => Some(id.as_str()),
            _ => None,
        })
        .collect();
    for (id, _) in &o {
        if !deleted.contains(&id.as_str()) {
            assert!(lines.iter().any(|l| &l.id == id), "{id} kept");
        }
    }
    let inv = invert_ops(&page, &ops);
    apply_ops(&mut lines, &inv);
    let back: Vec<String> = lines.iter().map(|l| l.text.clone()).collect();
    assert_eq!(back, o.iter().map(|(_, t)| t.clone()).collect::<Vec<_>>());
    for (id, _) in &o {
        if !deleted.contains(&id.as_str()) {
            assert!(lines.iter().any(|l| &l.id == id), "{id} back");
        }
    }
}
