use cosense_core::content::{composer_window, wrap_plain, wrap_with_caret, splice_image, bullet_pad, header_line, truncate_width, floor_boundary, related_rows, segment_pieces, Piece, RelatedRow};

fn p(from: usize, to: usize, selected: bool, dim: bool) -> Piece {
    Piece { from, to, selected, dim }
}

#[test]
fn a_segment_without_selection_is_prefix_then_text() {
    assert_eq!(segment_pieces("・ item", 0, None, 4), vec![p(0, 4, false, true), p(4, 8, false, false)]);
}

#[test]
fn the_selection_is_clipped_to_the_segment_and_to_character_boundaries() {
    // "abcdef" is the second segment, starting at byte 10 of the line; the
    // selection runs over bytes 8..13.
    assert_eq!(
        segment_pieces("abcdef", 10, Some((8, 13)), 0),
        vec![p(0, 3, true, false), p(3, 6, false, false)]
    );
    // "あい" is six bytes; a selection edge at byte 4 moves back to 3.
    assert_eq!(segment_pieces("あい", 0, Some((1, 4)), 0), vec![p(0, 3, true, false), p(3, 6, false, false)]);
    assert_eq!(floor_boundary("あい", 5), 3);
    assert_eq!(floor_boundary("あい", 6), 6);
}

#[test]
fn the_related_region_lists_sections_with_numbered_entries() {
    let rows = related_rows(&["Links".to_string(), "2-hop".to_string()], &[2, 1], 20, 7);
    assert_eq!(
        rows,
        vec![
            RelatedRow::SortLine,
            RelatedRow::Heading { sec: 0, fill: 11 },
            RelatedRow::Entry { sec: 0, entry: 0, vsrc: 7 },
            RelatedRow::Entry { sec: 0, entry: 1, vsrc: 8 },
            RelatedRow::Gap,
            RelatedRow::Heading { sec: 1, fill: 11 },
            RelatedRow::Entry { sec: 1, entry: 0, vsrc: 9 },
            RelatedRow::Gap,
        ]
    );
    assert_eq!(related_rows(&[], &[], 20, 7), vec![]);
}

#[test]
fn the_header_gives_up_the_name_first_then_cuts_the_title() {
    assert_eq!(truncate_width("abcdef", 4), "abc…");
    assert_eq!(truncate_width("abc", 4), "abc");
    assert_eq!(header_line("Site", "Title", "[x]", 20), " Site / Title    [x]");
    assert_eq!(header_line("Site", "Title", "[x]", 12), " / Title [x]");
    assert_eq!(header_line("Site", "Title", "[x]", 9), " / T… [x]");
}

#[test]
fn a_placeholder_wears_the_bullet_of_its_item() {
    assert_eq!(bullet_pad(4, true), "  \u{2022} ");
    assert_eq!(bullet_pad(1, true), " ");
    assert_eq!(bullet_pad(3, false), "   ");
}

#[test]
fn an_uploaded_picture_is_spliced_in_with_blanks_where_needed() {
    assert_eq!(splice_image("ab", 1, "u"), ("a [u] b".to_string(), 5));
    assert_eq!(splice_image("あ", 1, "u"), ("[u] あ".to_string(), 4));
    assert_eq!(splice_image("a ", 99, "u"), ("a [u]".to_string(), 3));
    assert_eq!(splice_image("", 0, "u"), ("[u]".to_string(), 3));
}

#[test]
fn drafts_wrap_with_the_caret_where_its_character_goes() {
    assert_eq!(wrap_plain("abcde", 2), vec!["ab", "cd", "e"]);
    assert_eq!(wrap_plain("", 3), vec![""]);
    assert_eq!(wrap_with_caret("ab\ncd", 3, 10), (vec!["ab".to_string(), "cd".to_string()], (1, 0)));
    assert_eq!(wrap_with_caret("ab\ncd", 2, 10).1, (0, 2));
    assert_eq!(wrap_with_caret("ab\ncd", 5, 10).1, (1, 2));
    assert_eq!(wrap_with_caret("abcd", 2, 2), (vec!["ab".to_string(), "cd".to_string()], (1, 0)));
    assert_eq!(wrap_with_caret("日本", 1, 3), (vec!["日".to_string(), "本".to_string()], (1, 0)));
}

#[test]
fn a_tall_draft_shows_a_window_around_its_caret() {
    assert_eq!(composer_window(10, 7, 4), (5, 5, 1));
    assert_eq!(composer_window(10, 0, 4), (0, 0, 6));
    assert_eq!(composer_window(3, 1, 4), (0, 0, 0));
}
