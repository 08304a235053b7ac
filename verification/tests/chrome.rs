use std::str::FromStr;
use cosense_core::chrome::{
    auth_verdict, b64_decode, cosense_page_url, redirected_to_auth, segments, url_parts, AfterLook, AtEnd, Look,
    OutlineProbeKey, Wait, WebError,
};

/// The URL of a real Cosense page in `project`, as a drawing request builds it.
fn page_url_for(project: &str, title: &str) -> String {
    cosense_page_url(project, title)
}

#[test]
fn an_ordinary_page_whose_title_is_auth_is_not_a_login_wall() {
    for title in ["auth", "login", "authentication", "my-login", "auth/notes"] {
        let requested = page_url_for("proj", title);
        assert!(!redirected_to_auth(&requested, &requested), "{title}: the page we asked for is never a redirect");
    }
    let requested = page_url_for("auth", "index");
    assert!(!redirected_to_auth(&requested, &requested));
    assert!(
        !redirected_to_auth(&requested, "https://scrapbox.io/auth/other-page"),
        "moving within the `auth` project is not a wall"
    );
}

#[test]
fn a_real_redirect_to_an_auth_route_is_a_login_wall() {
    let requested = page_url_for("proj", "Mermaid");
    for current in [
        "https://scrapbox.io/login",
        "https://scrapbox.io/login/google",
        "https://scrapbox.io/auth",
        "https://scrapbox.io/auth/google?next=%2Fproj",
        "https://accounts.google.com/signin/oauth",
    ] {
        assert!(redirected_to_auth(&requested, current), "{current} is a wall");
    }
    assert!(!redirected_to_auth(&requested, "https://scrapbox.io/"));
    assert!(!redirected_to_auth(&requested, "https://scrapbox.io/proj/Other"));
    let from_auth_project = page_url_for("auth", "Mermaid");
    assert!(redirected_to_auth(&from_auth_project, "https://scrapbox.io/login"));
}

#[test]
fn a_readable_page_is_never_called_unauthorised() {
    assert!(auth_verdict(Some(200), true).is_none(), "200 beats a redirect guess");
    assert!(auth_verdict(Some(200), false).is_none());
    assert!(matches!(auth_verdict(Some(401), false), Some(WebError::NotAuthorized)));
    assert!(matches!(auth_verdict(Some(403), true), Some(WebError::NotAuthorized)));
    for st in [204u16, 404, 429, 500, 503] {
        assert!(auth_verdict(Some(st), false).is_none(), "HTTP {st} is not a refusal");
    }
    assert!(matches!(auth_verdict(None, true), Some(WebError::NotAuthorized)));
    assert!(auth_verdict(None, false).is_none());
}

#[test]
fn a_slow_page_titled_auth_times_out_rather_than_blaming_the_cookie() {
    let requested = page_url_for("proj", "auth");
    let redirected = redirected_to_auth(&requested, &requested);
    assert!(!redirected);
    assert!(auth_verdict(Some(200), redirected).is_none());
    let wall = redirected_to_auth(&requested, "https://scrapbox.io/login");
    assert!(wall);
    assert!(matches!(auth_verdict(None, wall), Some(WebError::NotAuthorized)));
    assert!(matches!(auth_verdict(Some(401), false), Some(WebError::NotAuthorized)));
}

#[test]
fn outline_probe_keys_map_to_one_exact_modified_arrow() {
    let cases = [
        ("ctrl-up", OutlineProbeKey::CtrlUp, (2, "ArrowUp", 38)),
        ("ctrl-down", OutlineProbeKey::CtrlDown, (2, "ArrowDown", 40)),
        ("ctrl-left", OutlineProbeKey::CtrlLeft, (2, "ArrowLeft", 37)),
        ("ctrl-right", OutlineProbeKey::CtrlRight, (2, "ArrowRight", 39)),
        ("alt-up", OutlineProbeKey::AltUp, (1, "ArrowUp", 38)),
        ("alt-down", OutlineProbeKey::AltDown, (1, "ArrowDown", 40)),
        ("alt-left", OutlineProbeKey::AltLeft, (1, "ArrowLeft", 37)),
        ("alt-right", OutlineProbeKey::AltRight, (1, "ArrowRight", 39)),
    ];
    for (text, parsed, cdp) in cases {
        assert_eq!(OutlineProbeKey::from_str(text).unwrap(), parsed);
        assert_eq!(parsed.cdp(), cdp);
    }
    assert!(OutlineProbeKey::from_str("up").is_err());
    assert!(OutlineProbeKey::from_str("ctrl-shift-up").is_err());
    assert_eq!(OutlineProbeKey::from_str("CTRL-Up").unwrap(), OutlineProbeKey::CtrlUp);
}

#[test]
fn an_unknown_probe_key_is_refused_with_the_known_names() {
    assert_eq!(
        OutlineProbeKey::from_str("up").unwrap_err(),
        "invalid key \"up\"; expected ctrl-up|ctrl-down|ctrl-left|ctrl-right|alt-up|alt-down|alt-left|alt-right"
    );
    assert_eq!(
        "Shift-Up".parse::<OutlineProbeKey>().unwrap_err(),
        "invalid key \"Shift-Up\"; expected ctrl-up|ctrl-down|ctrl-left|ctrl-right|alt-up|alt-down|alt-left|alt-right"
    );
}

#[test]
fn outline_probe_page_url_encodes_each_path_segment() {
    assert_eq!(
        cosense_page_url("project name", "日本語/notes"),
        "https://scrapbox.io/project%20name/%E6%97%A5%E6%9C%AC%E8%AA%9E%2Fnotes"
    );
}

#[test]
fn base64_round_trips_a_png_signature() {
    assert_eq!(b64_decode("iVBORw0KGgo=").unwrap(), vec![0x89, b'P', b'N', b'G', 0x0d, 0x0a, 0x1a, 0x0a]);
    assert_eq!(b64_decode("").unwrap(), Vec::<u8>::new());
    assert_eq!(b64_decode("QUJD").unwrap(), b"ABC".to_vec());
    assert!(b64_decode("!!!!").is_none());
}

#[test]
fn base64_skips_padding_and_whitespace_and_drops_a_lone_sextet() {
    assert_eq!(b64_decode("QU\nJD\r\n").unwrap(), b"ABC".to_vec());
    assert_eq!(b64_decode("QQ==").unwrap(), b"A".to_vec());
    assert_eq!(b64_decode("QUI=").unwrap(), b"AB".to_vec());
    assert_eq!(b64_decode("QUJDR").unwrap(), b"ABC".to_vec());
    assert_eq!(b64_decode("+/+/").unwrap(), vec![0xfb, 0xff, 0xbf]);
    assert!(b64_decode("QUJD\u{0b}").is_none(), "a vertical tab is not ASCII whitespace here");
}

#[test]
fn urls_split_into_host_and_segments() {
    assert_eq!(
        url_parts("https://scrapbox.io/auth/google?next=%2Fproj#x"),
        Some(("scrapbox.io".to_string(), "/auth/google".to_string()))
    );
    assert_eq!(url_parts("https://host?q=1"), Some(("host".to_string(), "".to_string())));
    assert_eq!(url_parts("no scheme"), None);
    assert_eq!(segments("//a//b/"), vec!["a".to_string(), "b".to_string()]);
    assert!(segments("/").is_empty());
}

fn look(loaded: bool, settled: bool, href: Option<&str>, ready: Option<Vec<bool>>) -> Look {
    Look { loaded, settled, href: href.map(|h| h.to_string()), ready }
}

const PAGE: &str = "https://scrapbox.io/acme/Page";

#[test]
fn a_wait_ends_once_every_request_is_drawn_and_drawn_stays_drawn() {
    let mut w = Wait::new(2, 0);
    assert_eq!(w.look(&look(true, false, Some(PAGE), Some(vec![true, false])), PAGE, 100), AfterLook::Go);
    assert_eq!(w.last, vec![true, false]);
    assert_eq!(w.last_progress, 100);
    // a later look that no longer sees the first one does not undo it
    assert_eq!(w.look(&look(true, true, Some(PAGE), Some(vec![false, true])), PAGE, 300), AfterLook::Ready);
    assert_eq!(w.last, vec![true, true]);
    assert_eq!(w.last_progress, 300);
}

#[test]
fn a_loaded_document_without_a_page_asks_the_api_once_after_the_grace() {
    let mut w = Wait::new(1, 0);
    assert_eq!(w.look(&look(false, true, Some(PAGE), None), PAGE, 1000), AfterLook::Go);
    assert_eq!(w.settled_at, Some(1000));
    assert_eq!(w.look(&look(false, true, Some(PAGE), None), PAGE, 5000), AfterLook::Go);
    assert_eq!(w.look(&look(false, true, Some(PAGE), None), PAGE, 5001), AfterLook::AskApi);
    assert_eq!(w.blank_answer(Some(200)), None);
    assert!(w.asked_api);
    assert_eq!(w.look(&look(false, true, Some(PAGE), None), PAGE, 9000), AfterLook::Go, "asked once");
    let mut refused = Wait::new(1, 0);
    refused.look(&look(false, true, None, None), PAGE, 0);
    assert_eq!(refused.look(&look(false, true, None, None), PAGE, 4001), AfterLook::AskApi);
    assert_eq!(refused.blank_answer(Some(401)), Some(WebError::NotAuthorized));
    // the body appearing resets the grace
    let mut w = Wait::new(1, 0);
    w.look(&look(false, true, None, None), PAGE, 10);
    w.look(&look(true, true, None, None), PAGE, 20);
    assert_eq!(w.settled_at, None);
}

#[test]
fn a_wait_ends_when_quiet_late_or_stopped_and_checks_a_login_wall_first() {
    let mut w = Wait::new(2, 0);
    assert_eq!(w.at_end(100, false, false), AtEnd::Go);
    w.look(&look(true, false, Some(PAGE), Some(vec![true, false])), PAGE, 1000);
    assert_eq!(w.at_end(7000, false, false), AtEnd::Go);
    assert_eq!(w.at_end(7001, false, false), AtEnd::Finish, "quiet for longer than the quiet spell");
    assert_eq!(w.at_end(2000, true, false), AtEnd::Finish);
    let mut walled = Wait::new(1, 0);
    walled.look(&look(false, false, Some("https://scrapbox.io/login/acme"), None), PAGE, 0);
    assert!(walled.login_wall);
    assert_eq!(walled.at_end(10, true, false), AtEnd::AskApi);
    assert_eq!(walled.at_end(10, true, true), AtEnd::Finish, "a stopped wait asks nothing");
    assert_eq!(walled.finish(Some(None), 25), Err(WebError::NotAuthorized), "no answer: the wall decides");
}

#[test]
fn a_finished_wait_reports_refusal_timeout_or_what_was_drawn() {
    let mut never = Wait::new(1, 0);
    assert_eq!(never.finish(None, 25), Err(WebError::Timeout { seconds: 25 }));
    let mut denied = Wait::new(1, 0);
    denied.look(&look(true, false, None, None), PAGE, 0);
    assert_eq!(denied.finish(Some(Some(403)), 25), Err(WebError::NotAuthorized));
    let mut partly = Wait::new(2, 0);
    partly.look(&look(true, false, None, Some(vec![false, true])), PAGE, 0);
    assert_eq!(partly.finish(Some(Some(200)), 25), Ok(vec![false, true]));
}
