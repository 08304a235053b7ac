use cosense_core::render::LinkTruth;
use cosense_core::text::trim;

#[test]
fn trimming_agrees_with_std_whitespace_on_every_character() {
    for u in 0u32..=0x10FFFF {
        if let Some(c) = char::from_u32(u) {
            let s = c.to_string();
            assert_eq!(trim(&s).is_empty(), c.is_whitespace(), "U+{u:04X}");
        }
    }
}

#[test]
fn a_default_link_truth_knows_nothing() {
    let m = LinkTruth::default();
    assert_eq!(m.page_exists("anything"), None);
}
