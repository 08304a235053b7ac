use cosense_core::weave::{card_anchor, card_anchors, weave, Slot};

#[test]
fn a_card_sits_under_the_last_row_of_its_range() {
    // rows: line 0, line 1 (wrapped into two rows), a row with no source, line 2
    let srcs = [Some(0), Some(1), Some(1), None, Some(2)];
    assert_eq!(card_anchor(&srcs, (1, 1)), 2);
    assert_eq!(card_anchor(&srcs, (0, 2)), 4);
    assert_eq!(card_anchor(&srcs, (0, 0)), 0);
    assert_eq!(card_anchors(&srcs, &[(1, 1), (0, 0), (2, 5)]), vec![2, 0, 4]);
}

#[test]
fn a_card_whose_lines_are_gone_sits_under_the_last_row() {
    let srcs = [Some(0), Some(1), None];
    assert_eq!(card_anchor(&srcs, (7, 9)), 2);
    assert_eq!(card_anchor(&[], (0, 0)), 0);
}

#[test]
fn cards_and_the_composer_weave_in_after_their_rows() {
    // comment 0 under row 1, comment 1 (not shown) under row 1, comment 2
    // under row 0, comment 3 under row 1 but being edited.
    let out = weave(3, &[1, 1, 0, 1], &[true, false, true, true], Some(3), Some(1));
    assert_eq!(
        out,
        vec![
            Slot::Row(0),
            Slot::Card(2),
            Slot::Row(1),
            Slot::Card(0),
            Slot::Composer,
            Slot::Row(2),
        ]
    );
}

#[test]
fn an_empty_page_weaves_nothing() {
    assert_eq!(weave(0, &[0], &[true], None, Some(0)), vec![]);
}
