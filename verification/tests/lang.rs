use cosense_core::capability::{SyncState, Visibility, FAST_POLL_SECS, LIVE_POLL_SECS};
use cosense_core::lang::Lang;
use std::time::Duration;

fn env(pairs: &[(&str, &str)]) -> Vec<(String, String)> {
    pairs.iter().map(|(k, v)| (k.to_string(), v.to_string())).collect()
}

#[test]
fn a_locale_string_is_read_as_japanese_only_when_it_says_so() {
    assert_eq!(Lang::from_locale("ja_JP.UTF-8"), Some(Lang::Ja));
    assert_eq!(Lang::from_locale("ja"), Some(Lang::Ja));
    assert_eq!(Lang::from_locale("Japanese_Japan.932"), Some(Lang::Ja));
    assert_eq!(Lang::from_locale("en_US.UTF-8"), Some(Lang::En));
    assert_eq!(Lang::from_locale("fr_FR"), Some(Lang::En), "not Japanese → English");
    assert_eq!(Lang::from_locale("C"), Some(Lang::En));
    assert_eq!(Lang::from_locale("  "), None, "an empty variable is not an answer");
    assert_eq!(Lang::from_locale("java"), Some(Lang::En));
}

#[test]
fn the_flag_outranks_the_environment_and_an_empty_one_does_not_count() {
    let e = env(&[("LANG", "ja_JP.UTF-8")]);
    assert_eq!(Lang::detect(Some("en"), &e), Lang::En, "the flag wins");
    assert_eq!(Lang::detect(Some(""), &e), Lang::Ja, "an empty flag is not a choice");
    assert_eq!(Lang::detect(None, &e), Lang::Ja);
    assert_eq!(Lang::detect(None, &[]), Lang::En, "nothing said → English");

    let e = env(&[("LC_ALL", "en_US.UTF-8"), ("LANG", "ja_JP.UTF-8")]);
    assert_eq!(Lang::detect(None, &e), Lang::En);
    let e = env(&[("COSENSE_LANG", "ja"), ("LC_ALL", "en_US.UTF-8")]);
    assert_eq!(Lang::detect(None, &e), Lang::Ja);
}

#[test]
fn a_blank_variable_passes_the_question_on() {
    let e = env(&[("COSENSE_LANG", "  "), ("LC_MESSAGES", "ja_JP"), ("LANG", "C")]);
    assert_eq!(Lang::detect(None, &e), Lang::Ja);
    assert_eq!(Lang::from_locale(" JA-jp "), Some(Lang::Ja));
}

#[test]
fn a_stale_sid_never_buys_the_slow_poll() {
    assert_eq!(SyncState::Polling.poll_interval(), Duration::from_secs(FAST_POLL_SECS));
    assert_eq!(SyncState::Reconnecting.poll_interval(), Duration::from_secs(FAST_POLL_SECS));
    assert_eq!(SyncState::Live.poll_interval(), Duration::from_secs(LIVE_POLL_SECS));
}

#[test]
fn anonymous_status_tells_public_from_private_and_nothing_else() {
    assert_eq!(Visibility::from_anonymous_status(Some(200)), Visibility::Public);
    assert_eq!(Visibility::from_anonymous_status(Some(401)), Visibility::Private);
    assert_eq!(Visibility::from_anonymous_status(Some(403)), Visibility::Private);
    assert_eq!(Visibility::from_anonymous_status(Some(404)), Visibility::Unknown);
    assert_eq!(Visibility::from_anonymous_status(None), Visibility::Unknown);
    assert_eq!(SyncState::Live.label(Lang::En), "ws");
    assert_eq!(SyncState::Polling.label(Lang::Ja), "poll");
    assert_eq!(SyncState::Reconnecting.label(Lang::En), "reconnecting");
    assert_eq!(SyncState::Reconnecting.label(Lang::Ja), "再接続中");
}
