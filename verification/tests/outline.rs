use cosense_core::outline::{depth, grab, plan, subtree, Destination, Direction, LineRange, Plan, PlanError, Scope};

fn lines(source: &[&str]) -> Vec<String> {
    source.iter().map(|line| line.to_string()).collect()
}

#[test]
fn depth_counts_only_the_three_supported_characters_one_by_one() {
    assert_eq!(depth(" \t\u{3000}body"), 3);
    assert_eq!(depth("\u{00a0} body"), 0);
    assert_eq!(depth(""), 0);
}

#[test]
fn indent_adds_ascii_and_outdent_removes_exactly_one_supported_character() {
    let source = lines(&["title", "\tbody", "\u{3000}child", "  leaf"]);
    assert_eq!(
        plan(
            &source,
            Scope::Lines(LineRange::new(1, 3)),
            Direction::Right
        ),
        Ok(Plan::Replace {
            range: LineRange::new(1, 3),
            texts: lines(&[" \tbody", " \u{3000}child", "   leaf"]),
        })
    );
    assert_eq!(
        plan(&source, Scope::Lines(LineRange::new(1, 3)), Direction::Left),
        Ok(Plan::Replace {
            range: LineRange::new(1, 3),
            texts: lines(&["body", "child", " leaf"]),
        })
    );
}

#[test]
fn title_and_partial_outdent_are_rejected_all_or_nothing() {
    let source = lines(&[" title", " child", "", "\tleaf"]);
    assert_eq!(
        plan(
            &source,
            Scope::Lines(LineRange::new(0, 1)),
            Direction::Right
        ),
        Err(PlanError::TitleProtected)
    );
    assert_eq!(
        plan(&source, Scope::Lines(LineRange::new(1, 3)), Direction::Left),
        Err(PlanError::CannotOutdent)
    );
}

#[test]
fn block_is_the_maximal_following_run_of_greater_depth() {
    let source = lines(&[
        "title",
        " root",
        "\t\u{3000}skipped",
        "   leaf",
        " peer",
        "tail",
    ]);
    assert_eq!(
        plan(&source, Scope::Block(1), Direction::Right),
        Ok(Plan::Replace {
            range: LineRange::new(1, 3),
            texts: lines(&["  root", " \t\u{3000}skipped", "    leaf"]),
        })
    );
}

#[test]
fn line_range_moves_across_exactly_one_adjacent_source_line() {
    let source = lines(&["title", "a", "b", "c", "d"]);
    assert_eq!(
        plan(&source, Scope::Lines(LineRange::new(2, 3)), Direction::Up),
        Ok(Plan::Move {
            range: LineRange::new(2, 3),
            destination: Destination::Before(1),
            destination_start: 1,
        })
    );
    assert_eq!(
        plan(&source, Scope::Lines(LineRange::new(1, 2)), Direction::Down),
        Ok(Plan::Move {
            range: LineRange::new(1, 2),
            destination: Destination::Before(4),
            destination_start: 2,
        })
    );
    assert_eq!(
        plan(&source, Scope::Lines(LineRange::new(1, 1)), Direction::Up),
        Err(PlanError::Boundary)
    );
}

#[test]
fn block_moves_only_against_a_sibling_subtree_with_the_same_parent() {
    let source = lines(&[
        "title",
        " parent",
        "  first",
        "   child",
        "  second",
        "    skipped",
        " next-parent",
        "  outsider",
    ]);
    assert_eq!(
        plan(&source, Scope::Block(2), Direction::Down),
        Ok(Plan::Move {
            range: LineRange::new(2, 3),
            destination: Destination::Before(6),
            destination_start: 4,
        })
    );
    assert_eq!(
        plan(&source, Scope::Block(4), Direction::Down),
        Err(PlanError::NotSibling),
        "the next subtree belongs to another parent"
    );
    assert_eq!(
        plan(&source, Scope::Block(2), Direction::Up),
        Err(PlanError::NotSibling),
        "an ancestor is not a sibling"
    );
}

#[test]
fn grab_freezes_the_subtree_and_refuses_the_title() {
    let source = lines(&["title", " root", "  child", " peer"]);
    assert_eq!(grab(&source, 1), Ok(LineRange::new(1, 2)));
    assert_eq!(grab(&source, 0), Err(PlanError::TitleProtected));
    assert_eq!(grab(&source, 9), Err(PlanError::InvalidTarget));
}

/// Apply a plan the way the mode does: pull the range out and splice it
/// back at `destination_start`. Used by the sweeps below.
fn apply(source: &[String], plan: &Plan) -> Vec<String> {
    let mut out = source.to_vec();
    match plan {
        Plan::Replace { range, texts } => {
            for (line, text) in (range.start..=range.end).zip(texts) {
                out[line] = text.clone();
            }
        }
        Plan::Move {
            range,
            destination_start,
            ..
        } => {
            let block: Vec<String> = out.drain(range.start..=range.end).collect();
            let at = (*destination_start).min(out.len());
            out.splice(at..at, block);
        }
    }
    out
}

/// A grab that still matches its indentation is not a special case: it
/// must move exactly as a recomputed block does. This is what keeps the
/// one-line escape step from ever splicing a block into the sibling
/// above or below it.
#[test]
fn a_fresh_grab_moves_exactly_like_a_recomputed_block() {
    let mut checked = 0usize;
    for pattern in 0..3usize.pow(5) {
        let mut source = vec!["title".to_string()];
        let mut rest = pattern;
        for k in 0..5 {
            source.push(format!("{}line{k}", " ".repeat(rest % 3)));
            rest /= 3;
        }
        for root in 1..source.len() {
            let Ok(range) = subtree(&source, root) else {
                continue;
            };
            for direction in [Direction::Up, Direction::Down] {
                let block = plan(&source, Scope::Block(root), direction);
                let grabbed = plan(&source, Scope::Grabbed(range), direction);
                assert_eq!(
                    block, grabbed,
                    "root {root} of {source:?} moving {direction:?}"
                );
                checked += 1;
            }
        }
    }
    assert!(checked > 1000, "the sweep actually ran: {checked} pairs");
}

/// A grabbed step must never lose a line, never touch the title, and
/// never break the block apart. Swept over every arrangement of five
/// body lines across three depths and every grabbed range.
#[test]
fn a_grabbed_step_keeps_the_page_and_the_block_whole() {
    let mut checked = 0usize;
    for pattern in 0..3usize.pow(5) {
        let mut source = vec!["title".to_string()];
        let mut rest = pattern;
        for k in 0..5 {
            source.push(format!("{}line{k}", " ".repeat(rest % 3)));
            rest /= 3;
        }
        for start in 1..source.len() {
            for end in start..source.len() {
                let grabbed = LineRange::new(start, end);
                for direction in [Direction::Up, Direction::Down] {
                    let Ok(plan) = plan(&source, Scope::Grabbed(grabbed), direction) else {
                        continue;
                    };
                    let moved = apply(&source, &plan);
                    assert_eq!(moved.len(), source.len(), "no line is lost: {plan:?}");
                    assert_eq!(moved[0], source[0], "the title stays put");
                    let mut sorted = moved.clone();
                    sorted.sort();
                    let mut want = source.clone();
                    want.sort();
                    assert_eq!(sorted, want, "the same lines, rearranged: {plan:?}");
                    let block = &source[start..=end];
                    let at = moved
                        .windows(block.len())
                        .position(|w| w == block)
                        .expect("the block is still contiguous");
                    assert!(at >= 1, "and never above the title");
                    checked += 1;
                }
            }
        }
    }
    assert!(checked > 1000, "the sweep actually ran: {checked} steps");
}

/// The route out of a list: `Left` to leave the parent, `Down` for each
/// line that now reads as a child, `Right` to land under the next one.
/// The middle step is the one that used to have nowhere to go, and one
/// line per press is what lets `Up` take it straight back.
#[test]
fn a_grabbed_block_steps_over_the_children_it_appears_to_have() {
    let source = lines(&["title", "root", "a", " b", " c", "next"]);
    let first = plan(
        &source,
        Scope::Grabbed(LineRange::new(2, 2)),
        Direction::Down,
    );
    assert_eq!(
        first,
        Ok(Plan::Move {
            range: LineRange::new(2, 2),
            destination: Destination::Before(4),
            destination_start: 3,
        }),
        "one press, one apparent child"
    );
    let moved = apply(&source, first.as_ref().unwrap());
    assert_eq!(moved, lines(&["title", "root", " b", "a", " c", "next"]));
    assert_eq!(
        plan(
            &moved,
            Scope::Grabbed(LineRange::new(3, 3)),
            Direction::Down
        )
        .as_ref()
        .map(|plan| apply(&moved, plan)),
        Ok(lines(&["title", "root", " b", " c", "a", "next"])),
        "a second press clears the other one"
    );
    // `Up` from here does NOT retrace that press: `root` is a real
    // previous sibling now, so it swaps with its whole subtree. The
    // documented asymmetry — correct structure beats a tidy inverse.
    assert_eq!(
        plan(&moved, Scope::Grabbed(LineRange::new(3, 3)), Direction::Up)
            .as_ref()
            .map(|plan| apply(&moved, plan)),
        Ok(lines(&["title", "a", "root", " b", " c", "next"]))
    );
    // A block whose parent simply ends below it still has no sibling
    // that way: `Left` is the way out, exactly as cosense has it.
    let flat = lines(&["title", "p", " last", "q"]);
    assert_eq!(
        plan(&flat, Scope::Grabbed(LineRange::new(2, 2)), Direction::Down),
        Err(PlanError::NotSibling)
    );
}

#[test]
fn a_grabbed_block_keeps_its_extent_after_an_outdent() {
    let source = lines(&["title", " parent", " first", "  child", "  second"]);
    assert_eq!(
        subtree(&source, 2),
        Ok(LineRange::new(2, 4)),
        "indentation alone would now hand over three lines"
    );
    // Down does not refuse: the lines below now READ as this block's
    // children, so it steps over the whole run of them at once.
    assert_eq!(
        plan(
            &source,
            Scope::Grabbed(LineRange::new(2, 3)),
            Direction::Down
        ),
        Ok(Plan::Move {
            range: LineRange::new(2, 3),
            destination: Destination::End,
            destination_start: 3,
        })
    );
    assert_eq!(
        plan(
            &source,
            Scope::Grabbed(LineRange::new(2, 3)),
            Direction::Right
        ),
        Ok(Plan::Replace {
            range: LineRange::new(2, 3),
            texts: lines(&["  first", "   child"]),
        })
    );
}

#[test]
fn empty_lines_end_indented_subtrees_naturally() {
    let source = lines(&["title", " root", "  child", "", " peer"]);
    assert_eq!(
        plan(&source, Scope::Block(1), Direction::Right),
        Ok(Plan::Replace {
            range: LineRange::new(1, 2),
            texts: lines(&["  root", "   child"]),
        })
    );
}
