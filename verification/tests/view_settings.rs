use cosense_core::config::{Origin, ViewSection};
use cosense_core::ime::ImeMode;
use cosense_core::index::PreviewMode;
use cosense_core::lang::Lang;
use cosense_core::view_settings::{expand_home, parse_ime, resolve, Appearance, ViewFlags};

fn bare() -> ViewFlags {
    ViewFlags { lang: None, theme: None, appearance: None, preview: None, ime: None, download_dir: None }
}

fn env(pairs: &[(&str, &str)]) -> Vec<(String, String)> {
    pairs.iter().map(|(k, v)| (k.to_string(), v.to_string())).collect()
}

#[test]
fn a_bare_start_takes_every_default() {
    let r = resolve(&bare(), &[], &ViewSection::default());
    assert_eq!(r.lang, (Lang::En, Origin::Default));
    assert_eq!(r.theme, (None, Origin::Default));
    assert_eq!(r.appearance, (Appearance::Auto, Origin::Default));
    assert_eq!(r.preview, (PreviewMode::Auto, Origin::Default));
    assert_eq!(r.ime, (ImeMode::Jp, Origin::Default));
    assert_eq!(r.download_dir, (None, Origin::Auto));
    assert!(r.bad.is_empty());
}

#[test]
fn flags_beat_the_environment_which_beats_the_file() {
    let mut flags = bare();
    flags.appearance = Some(Appearance::Light);
    flags.download_dir = Some("  ".to_string());
    let file = ViewSection {
        lang: Some("en".to_string()),
        appearance: Some("dark".to_string()),
        download_dir: Some(" ~/dl ".to_string()),
        theme: Some(String::new()),
        ..ViewSection::default()
    };
    let r = resolve(&flags, &env(&[("LANG", "ja_JP.UTF-8"), ("COSENSE_DOWNLOAD_DIR", "/tmp/x")]), &file);
    assert_eq!(r.lang, (Lang::Ja, Origin::Env));
    assert_eq!(r.appearance, (Appearance::Light, Origin::Flag));
    assert_eq!(r.download_dir, (Some("/tmp/x".to_string()), Origin::Env));
    assert_eq!(r.theme, (None, Origin::Default));
    let r = resolve(&flags, &[], &file);
    assert_eq!(r.download_dir, (Some("~/dl".to_string()), Origin::File));
    assert_eq!(r.lang, (Lang::En, Origin::File));
}

#[test]
fn file_values_that_do_not_parse_are_reported_and_dropped() {
    let file = ViewSection {
        appearance: Some("dim".to_string()),
        ime: Some("kana".to_string()),
        preview: Some("on".to_string()),
        ..ViewSection::default()
    };
    let r = resolve(&bare(), &[], &file);
    assert_eq!(r.appearance, (Appearance::Auto, Origin::Default));
    assert_eq!(r.ime, (ImeMode::Jp, Origin::Default));
    assert_eq!(r.preview, (PreviewMode::On, Origin::File));
    assert_eq!(
        r.bad,
        vec![("appearance".to_string(), "dim".to_string()), ("ime".to_string(), "kana".to_string())]
    );
}

#[test]
fn the_strict_ime_reader_refuses_a_typo() {
    assert_eq!(parse_ime("off"), Some(ImeMode::Off));
    assert_eq!(parse_ime("ascii"), Some(ImeMode::Ascii));
    assert_eq!(parse_ime("jp"), Some(ImeMode::Jp));
    assert_eq!(parse_ime("Jp"), None);
    assert_eq!(Appearance::parse("dark"), Some(Appearance::Dark));
    assert_eq!(Appearance::Dark.as_str(), "dark");
    assert_eq!(Appearance::parse("Dark"), None);
}

#[test]
fn a_leading_tilde_stands_for_home() {
    assert_eq!(expand_home("~", Some("/home/r")), "/home/r");
    assert_eq!(expand_home("~/dl", Some("/home/r")), "/home/r/dl");
    assert_eq!(expand_home("~x/dl", Some("/home/r")), "~x/dl");
    assert_eq!(expand_home("$HOME/dl", Some("/home/r")), "$HOME/dl");
    assert_eq!(expand_home("~/dl", None), "~/dl");
}
