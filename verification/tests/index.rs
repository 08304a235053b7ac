use cosense_core::api::PageSummary;
use cosense_core::index::{
    compact_count, layout, match_ranges, relative_age, relative_age_at, split_on_terms, split_on_terms_checked, Entry,
    FilterMode, Index, IndexLayout, PreviewMode, Row, SortKey,
};

fn entry(title: &str, updated: i64) -> Entry {
    Entry { title: title.into(), updated, descriptions: vec![format!("{title} の本文")], ..Entry::default() }
}

fn index(titles: &[&str]) -> Index {
    let mut ix = Index::new(
        titles.iter().enumerate().map(|(i, t)| entry(t, 100 - i as i64)).collect(),
        titles.len(),
        SortKey::Updated,
    );
    ix.can_create = true;
    ix
}

#[test]
fn the_list_keeps_its_order_under_a_filter() {
    let mut ix = index(&["改善案", "画像表示テスト", "テスト", "kaizen"]);
    assert_eq!(ix.len(), 4);
    ix.set_filter("テスト".into());
    let titles: Vec<&str> = ix
        .rows()
        .iter()
        .filter_map(|r| match r {
            Row::Page(e) => Some(e.title.as_str()),
            Row::Create(_) => None,
        })
        .collect();
    assert_eq!(titles, vec!["画像表示テスト", "テスト"], "order is the list's, not the match's");
    assert_eq!(ix.cursor, 0);
    assert_eq!(ix.selected().map(|e| e.title.as_str()), Some("画像表示テスト"));
}

#[test]
fn a_name_nothing_is_called_yet_is_offered_as_a_new_page() {
    let mut ix = index(&["改善案"]);
    ix.set_filter("改善案".into());
    assert!(!ix.offers_create(), "an exact match is the page itself");
    assert_eq!(ix.len(), 1);

    ix.set_filter("改善案2".into());
    assert!(ix.offers_create());
    assert_eq!(ix.rows().last(), Some(&Row::Create("改善案2")));
    ix.cursor = ix.len() - 1;
    assert_eq!(ix.selected(), None);

    ix.set_filter("   ".into());
    assert!(!ix.offers_create(), "whitespace is not a page name");
}

#[test]
fn the_cursor_stays_inside_the_list_and_the_window() {
    let mut ix = index(&["a", "b", "c", "d", "e", "f"]);
    assert_eq!(ix.follow(3), 0);
    assert!(ix.move_cursor(2));
    assert_eq!(ix.follow(3), 0, "still visible: the window does not move");
    assert!(ix.move_cursor(1));
    assert_eq!(ix.follow(3), 1, "walked off the bottom: the window follows by one");
    assert!(ix.move_cursor(99));
    assert_eq!(ix.cursor, 5, "and stops at the end");
    assert_eq!(ix.follow(3), 3);
    assert!(!ix.move_cursor(9), "already there: nothing moved");

    ix.set_filter("a".into());
    assert_eq!(ix.follow(3), 0);
    assert_eq!(ix.cursor, 0);
}

#[test]
fn the_wheel_moves_the_window_and_the_keys_move_the_cursor() {
    let mut ix = index(&["a", "b", "c", "d", "e", "f"]);
    assert_eq!(ix.follow(3), 0);
    assert!(ix.scroll_by(2, 3));
    assert_eq!(ix.cursor, 0, "the selection is the keyboard's business");
    assert_eq!(ix.follow(3), 2, "…and the window stays where it was put");
    assert!(ix.scroll_by(9, 3), "…up to the last window");
    assert_eq!(ix.scroll, 3, "which stops with the last row in view");
    assert!(!ix.scroll_by(9, 3), "and there is nothing past it");
    ix.move_cursor(1);
    assert_eq!(ix.cursor, 1);
    assert_eq!(ix.follow(3), 1, "the window follows the cursor again");
}

#[test]
fn moving_the_cursor_starts_the_new_preview_at_its_top() {
    let mut ix = index(&["a", "b"]);
    ix.preview_scroll = 12;
    assert!(ix.move_cursor(1));
    assert_eq!(ix.preview_scroll, 0, "a different page is read from its start");
    ix.preview_scroll = 5;
    assert!(!ix.move_cursor(1), "at the end");
    assert_eq!(ix.preview_scroll, 5, "…so the reader keeps their place");
}

#[test]
fn the_preview_is_a_shallow_dock_when_width_and_height_allow_it() {
    let auto = PreviewMode::Auto;
    assert_eq!(
        layout(auto, 79, 20),
        IndexLayout { list: 20, gap: 0, preview: None },
        "auto keeps the established 80-column threshold"
    );
    let normal = layout(auto, 80, 22);
    assert_eq!(normal, IndexLayout { list: 15, gap: 1, preview: Some(6) });
    assert_eq!(normal.list + normal.gap + normal.preview.unwrap(), 22);
    assert_eq!(layout(auto, 80, 7), IndexLayout { list: 3, gap: 1, preview: Some(3) });
    assert_eq!(
        layout(auto, 80, 5),
        IndexLayout { list: 5, gap: 0, preview: None },
        "if both cannot be useful, the list wins"
    );
    assert_eq!(layout(PreviewMode::Off, 200, 20), IndexLayout { list: 20, gap: 0, preview: None });
    assert_eq!(layout(PreviewMode::On, 40, 20), IndexLayout { list: 13, gap: 1, preview: Some(6) });
    assert_eq!(PreviewMode::parse("on"), Some(PreviewMode::On));
    assert_eq!(PreviewMode::parse("sometimes"), None);
    assert_eq!(PreviewMode::default(), PreviewMode::Auto);
}

#[test]
fn what_gets_marked_is_the_reason_the_row_is_listed() {
    let mut ix = index(&["改善案", "テスト"]);
    assert!(ix.terms_for(&ix.entries[0]).is_empty(), "素の一覧は何も指さない");

    ix.set_filter("改善".into());
    assert_eq!(ix.terms_for(&ix.entries[0]), vec!["改善"]);

    ix.begin_filter();
    ix.toggle_filter_mode();
    assert!(ix.terms_for(&ix.entries[0]).is_empty());

    let hit = Entry { matched: vec!["画像".into()], ..ix.entries[0].clone() };
    assert_eq!(ix.terms_for(&hit), vec!["画像"], "ヒットは絞り込みの状態に関わらず自前");
}

#[test]
fn a_read_only_project_never_offers_to_create() {
    let mut ix = index(&["改善案", "テスト"]);
    ix.set_filter("まだ無いページ".into());
    assert!(ix.offers_create(), "writable: the offer is the point of typing");
    assert_eq!(ix.len(), 1);

    ix.can_create = false;
    assert!(!ix.offers_create());
    assert_eq!(ix.len(), 0, "nothing matches, and nothing is offered");
    assert!(!Index::default().can_create);
}

#[test]
fn a_full_text_query_does_not_narrow_the_titles_on_screen() {
    let mut ix = index(&["改善案", "画像表示テスト", "テスト"]);
    ix.begin_filter();
    ix.push_filter('図');
    assert_eq!(ix.len(), 1, "no title has 図: the create offer is all that is left");
    assert!(ix.offers_create());

    ix.toggle_filter_mode();
    assert_eq!(ix.filter_mode, FilterMode::FullText);
    assert_eq!(ix.filter, "図", "the typed word carries over");
    assert_eq!(ix.len(), 3, "the list stays as it is until the server answers");
    assert!(!ix.offers_create(), "that word is a query, not a page name");

    ix.toggle_filter_mode();
    assert_eq!(ix.len(), 1);
}

#[test]
fn every_order_is_re_imposed_on_its_own_key_not_on_updated() {
    let mk = |title: &str, updated, created, accessed, linked, views| Entry {
        title: title.into(),
        updated,
        created,
        accessed,
        linked,
        views,
        ..Entry::default()
    };
    let base = vec![
        mk("pinned", 10, 10, 10, 1, 1),
        mk("Zebra", 300, 100, 200, 50, 9),
        mk("apple", 200, 300, 100, 90, 5),
    ];
    let titles = |sort| {
        let mut e = base.clone();
        Index::sort_entries(&mut e, sort);
        e.into_iter().map(|x| x.title).collect::<Vec<_>>()
    };
    assert_eq!(titles(SortKey::Updated), ["Zebra", "apple", "pinned"]);
    assert_eq!(titles(SortKey::Created), ["apple", "Zebra", "pinned"]);
    assert_eq!(titles(SortKey::Accessed), ["Zebra", "apple", "pinned"]);
    assert_eq!(titles(SortKey::Linked), ["apple", "Zebra", "pinned"]);
    assert_eq!(titles(SortKey::Views), ["Zebra", "apple", "pinned"]);
    assert_eq!(titles(SortKey::Title), ["apple", "pinned", "Zebra"]);
}

#[test]
fn the_row_column_shows_the_value_being_sorted_on() {
    let e = Entry {
        title: "t".into(),
        updated: 1,
        created: 1,
        accessed: 1,
        linked: 1_234,
        views: 17_221,
        ..Entry::default()
    };
    assert_eq!(SortKey::Linked.column(&e), "1.2k");
    assert_eq!(SortKey::Views.column(&e), "17k");
    assert!(SortKey::Updated.column(&e).ends_with('y'), "an age, not a count");
    assert_eq!(SortKey::Created.stamp(&e), 1);
    assert_eq!(SortKey::Accessed.stamp(&e), 1);
    assert_eq!(SortKey::Title.stamp(&e), e.updated);
    assert_eq!(relative_age(0), "");
    assert_eq!(
        SortKey::ALL.map(SortKey::name),
        ["updated", "accessed", "created", "linked", "views", "title"]
    );
}

#[test]
fn a_page_is_unread_until_it_has_been_seen_since_its_last_edit() {
    let p = |updated| PageSummary {
        id: "id".into(),
        title: "t".into(),
        image: None,
        descriptions: vec![],
        updated,
        created: 0,
        accessed: 0,
        views: 0,
        linked: 0,
    };
    assert!(Entry::from_summary(p(100), None).unread, "never opened");
    assert!(Entry::from_summary(p(100), Some(99)).unread, "edited since the visit");
    assert!(!Entry::from_summary(p(100), Some(100)).unread);
    assert!(!Entry::from_summary(p(100), Some(101)).unread);
}

#[test]
fn counts_fit_four_columns_rounding_as_a_float_would() {
    assert_eq!(compact_count(1), "1");
    assert_eq!(compact_count(86), "86");
    assert_eq!(compact_count(-5), "-5");
    assert_eq!(compact_count(999), "999");
    assert_eq!(compact_count(1000), "1.0k");
    assert_eq!(compact_count(1050), "1.1k");
    assert_eq!(compact_count(1150), "1.1k");
    assert_eq!(compact_count(1250), "1.2k");
    assert_eq!(compact_count(9949), "9.9k");
    assert_eq!(compact_count(9950), "9.9k");
    assert_eq!(compact_count(9951), "10k");
    assert_eq!(compact_count(9999), "10k");
    assert_eq!(compact_count(13_500), "13k");
    assert_eq!(compact_count(999_999), "999k");
    assert_eq!(compact_count(4_200_000), "4M");
    for n in 1000..10_000i64 {
        let float = format!("{:.1}k", n as f64 / 1_000.0);
        let want = if float == "10.0k" { "10k".to_string() } else { float };
        assert_eq!(compact_count(n), want, "{n}");
    }
    for n in (0..1_000_000_000i64).step_by(99_991).chain(9900..10_100) {
        assert!(compact_count(n).chars().count() <= 4, "{n}");
    }
}

#[test]
fn ages_are_read_in_the_largest_whole_unit() {
    assert_eq!(relative_age_at(100, 100), "0s");
    assert_eq!(relative_age_at(100, 90), "0s", "a stamp from the future is now");
    assert_eq!(relative_age_at(100, 159), "59s");
    assert_eq!(relative_age_at(100, 160), "1m");
    assert_eq!(relative_age_at(100, 100 + 7200), "2h");
    assert_eq!(relative_age_at(100, 100 + 86_400 * 5), "5d");
    assert_eq!(relative_age_at(100, 100 + 86_400 * 365 * 3), "3y");
    assert_eq!(relative_age_at(0, 1000), "");
    assert_eq!(relative_age_at(-3, 1000), "");
}

#[test]
fn typing_and_deleting_reset_the_cursor() {
    let mut ix = index(&["ab", "abc", "b"]);
    ix.cursor = 2;
    ix.push_filter('a');
    assert_eq!(ix.filter, "a");
    assert_eq!(ix.cursor, 0);
    assert_eq!(ix.len(), 3, "two titles with a, and the offer to create `a`");
    ix.push_filter('B');
    assert_eq!(ix.len(), 2, "case is ignored: ab and abc, and `aB` already is `ab`");
    ix.pop_filter();
    ix.pop_filter();
    ix.pop_filter();
    assert_eq!(ix.filter, "");
    assert_eq!(ix.len(), 3);
    ix.begin_filter();
    ix.push_filter('x');
    ix.cancel_filter();
    assert!(!ix.filter_editing);
    assert_eq!(ix.filter, "");
    ix.begin_filter();
    ix.commit_filter();
    assert!(!ix.filter_editing);
    assert!(!ix.is_search());
    assert!(!ix.is_empty());
}

#[test]
fn matches_are_found_by_the_same_rule_the_filter_narrows_with() {
    let r = |t: &str, terms: &[&str]| match_ranges(t, terms);
    assert_eq!(r("Kaizen an", &["kaizen"]), vec![(0, 6)]);
    assert_eq!(r("改善案", &["改善"]), vec![(0, 6)]);
    assert_eq!(r("改善案", &["案"]), vec![(6, 9)]);
    assert_eq!(r("abab", &["ab"]), vec![(0, 4)]);
    assert_eq!(r("ab-ab", &["ab"]), vec![(0, 2), (3, 5)]);
    assert_eq!(r("改善案", &["改善", "善案"]), vec![(0, 9)]);
    assert!(r("改善案", &["無い"]).is_empty());
    assert!(r("改善案", &[]).is_empty());

    let pieces = split_on_terms("改善案4", &["善"]);
    assert_eq!(pieces, vec![("改", false), ("善", true), ("案4", false)]);
    let joined: String = pieces.iter().map(|(p, _)| *p).collect();
    assert_eq!(joined, "改善案4");
    assert_eq!(split_on_terms("", &["x"]), Vec::new());
    assert_eq!(split_on_terms("abc", &[]), vec![("abc", false)]);
}

#[test]
fn a_length_changing_lowercase_falls_back_to_exact_matching() {
    assert_eq!(match_ranges("İx", &["İ"]), vec![(0, 2)], "İ lowercases to two characters");
    assert_eq!(match_ranges("İx", &["i"]), Vec::<(usize, usize)>::new());
    assert_eq!(split_on_terms_checked("ab", &["B"]), Some(vec![("a", false), ("b", true)]));
    assert_eq!(split_on_terms_checked("xyz", &[""]), Some(vec![("xyz", false)]), "an empty term marks nothing");
}

#[test]
fn a_lowering_that_moves_characters_falls_back_to_case_sensitive() {
    // İ grows by a byte and ẞ shrinks by one: the total stays, the places do not.
    assert_eq!(match_ranges("İẞ", &["ß"]), vec![]);
    assert_eq!(match_ranges("İẞ", &["ẞ"]), vec![(2, 5)]);
    assert_eq!(match_ranges("Über", &["üb"]), vec![(0, 3)]);
}
