use cosense_core::image_probe::{complete, parse, protocol, query_bytes, Probe, Protocol};

#[test]
fn silence_is_no_answer() {
    let p = parse(b"");
    assert_eq!(p, Probe::default());
    assert!(!complete(b"\x1b[?1;2c"), "DA alone does not end it");
    assert!(!complete(b"\x1b[10n"), "not a DSR reply");
}

#[test]
fn tmux_wraps_the_query_for_the_outer_terminal() {
    let q = query_bytes(true);
    assert!(q.starts_with(b"\x1bPtmux;\x1b\x1b_G"), "{:?}", String::from_utf8_lossy(&q));
    assert!(q.ends_with(b"\x1b\x1b[5n\x1b\\"));
    let q = query_bytes(false);
    assert!(q.starts_with(b"\x1b_G") && q.ends_with(b"\x1b[5n"));
}

#[test]
fn a_full_answer_is_read() {
    let resp = b"\x1b_Gi=31;OK\x1b\\\x1b[?62;4;22c\x1b[6;20;10t\x1b[0n";
    let p = parse(resp);
    assert!(p.kitty && p.sixel && p.answered);
    assert_eq!(p.cell, Some((10, 20)));
    assert_eq!(protocol(&p), Some(Protocol::Kitty));
    assert!(complete(resp));
}

#[test]
fn a_plain_terminal_answers_only_da_and_dsr() {
    let resp = b"\x1b[?1;2c\x1b[0n";
    let p = parse(resp);
    assert!(!p.kitty && !p.sixel && p.answered);
    assert_eq!(p.cell, None);
    assert_eq!(protocol(&p), None);
}

#[test]
fn a_sixel_only_terminal() {
    let p = parse(b"\x1b[?64;1;2;4;6c\x1b[6;16;8t\x1b[0n");
    assert_eq!(protocol(&p), Some(Protocol::Sixel));
    assert_eq!(p.cell, Some((8, 16)));
    assert!(!parse(b"\x1b[?44c\x1b[0n").sixel);
}

#[test]
fn a_faulty_or_odd_answer_is_read_as_far_as_it_goes() {
    assert!(complete(b"\x1b[3n"));
    assert_eq!(parse(b"\x1b[6;0;10t").cell, None, "a zero size is no size");
    assert_eq!(parse(b"\x1b[6;+20;10t").cell, Some((10, 20)));
    assert_eq!(parse(b"\x1b[6;70000;10t").cell, None);
    assert_eq!(parse(b"\x1b[6;20t").cell, None);
    assert!(!parse(b"\x1b[?4").sixel, "a parameter list that never ends is not an answer");
    assert!(parse(b"\x1b[?1x\x1b[?4c").sixel);
}
