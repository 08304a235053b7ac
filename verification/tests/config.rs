use cosense_core::config::{pick, Config, Origin, ProjectKey, ProjectSection, UploadChoice, UploadSection, ViewKey};

fn s(v: &str) -> Option<String> {
    Some(v.to_string())
}

#[test]
fn pick_follows_flag_env_file_default() {
    assert_eq!(pick(Some(1), Some(2), Some(3), (4, Origin::Default)), (1, Origin::Flag));
    assert_eq!(pick(None, Some(2), Some(3), (4, Origin::Default)), (2, Origin::Env));
    assert_eq!(pick(None, None, Some(3), (4, Origin::Default)), (3, Origin::File));
    assert_eq!(pick::<i32>(None, None, None, (4, Origin::Auto)), (4, Origin::Auto));
    assert!(Origin::Flag.beats_file() && Origin::Env.beats_file());
    assert!(!Origin::File.beats_file() && !Origin::Default.beats_file());
}

#[test]
fn empty_file_is_the_default() {
    assert_eq!(Config::default().upload_choice("x"), UploadChoice::default());
    assert_eq!(Config::default().project_theme("x"), None);
}

/// `[upload]` images = gcs, gyazo_team = everyone; `[upload.project.acme]`
/// gyazo / acme-inc; `[upload.project.other]` gyazo_team = other-org.
#[test]
fn project_table_overrides_field_by_field() {
    let c = Config {
        upload: UploadSection {
            all: UploadChoice { images: s("gcs"), gyazo_team: s("everyone") },
            project: vec![
                ("acme".into(), UploadChoice { images: s("gyazo"), gyazo_team: s("acme-inc") }),
                ("other".into(), UploadChoice { images: None, gyazo_team: s("other-org") }),
            ],
        },
        ..Config::default()
    };
    assert_eq!(c.upload_choice("acme").images.as_deref(), Some("gyazo"));
    assert_eq!(c.upload_choice("acme").gyazo_team.as_deref(), Some("acme-inc"));
    assert_eq!(c.upload_choice("other").images.as_deref(), Some("gcs"), "falls back to [upload]");
    assert_eq!(c.upload_choice("other").gyazo_team.as_deref(), Some("other-org"));
    assert_eq!(c.upload_choice("nobody").gyazo_team.as_deref(), Some("everyone"));
}

/// `[project.acme]` beats `[upload.project.acme]`, field by field.
#[test]
fn project_table_beats_the_upload_tables() {
    let c = Config {
        upload: UploadSection {
            all: UploadChoice { images: s("gcs"), gyazo_team: None },
            project: vec![("acme".into(), UploadChoice { images: s("gyazo"), gyazo_team: s("old-org") })],
        },
        project: vec![(
            "acme".into(),
            ProjectSection { theme: s("paper-dark"), display_name: s("ACME"), images: None, gyazo_team: s("new-org") },
        )],
        ..Config::default()
    };
    let acme = c.upload_choice("acme");
    assert_eq!(acme.images.as_deref(), Some("gyazo"), "old table still read");
    assert_eq!(acme.gyazo_team.as_deref(), Some("new-org"), "new table wins");
    assert_eq!(c.project_theme("acme").as_deref(), Some("paper-dark"));
    assert_eq!(c.project_display_name("acme").as_deref(), Some("ACME"));
    assert_eq!(c.project_theme("other"), None);
}

#[test]
fn blank_names_and_empty_themes_are_not_answers() {
    let c = Config {
        project: vec![(
            "p".into(),
            ProjectSection { theme: s(""), display_name: s("  "), images: None, gyazo_team: None },
        )],
        ..Config::default()
    };
    assert_eq!(c.project_theme("p"), None);
    assert_eq!(c.project_display_name("p"), None);
    assert_eq!(ViewKey::DownloadDir.as_str(), "download_dir");
    assert_eq!(ProjectKey::GyazoTeam.as_str(), "gyazo_team");
    assert_eq!(Origin::Default.tag(), "-");
    assert_eq!(Origin::Api.tag(), "api");
}

#[test]
fn a_project_table_is_held_once_by_name() {
    let mut c = Config::default();
    c.project.push(("a".to_string(), ProjectSection::default()));
    c.project.push(("b".to_string(), ProjectSection::default()));
    assert!(c.names_are_unique());
    c.project.push(("a".to_string(), ProjectSection::default()));
    assert!(!c.names_are_unique());
}

#[test]
fn writing_a_key_keeps_the_rest_of_the_file() {
    let text = "# my notes\n[upload]\nimages = \"gcs\" # default\n";
    let next = Config::with_project_key(text, "acme", ProjectKey::Theme, Some("blue")).unwrap();
    assert!(next.starts_with("# my notes\n[upload]\nimages = \"gcs\" # default\n"));
    assert!(next.contains("[project.acme]\ntheme = \"blue\"\n"), "{next}");
    assert!(!next.contains("\n[project]\n"), "no bare [project] header: {next}");

    // A second key joins the same table; a changed value replaces.
    let next = Config::with_project_key(&next, "acme", ProjectKey::DisplayName, Some("ACME")).unwrap();
    let next = Config::with_project_key(&next, "acme", ProjectKey::Theme, Some("red")).unwrap();
    assert!(next.contains("theme = \"red\""), "{next}");
    assert!(next.contains("display_name = \"ACME\""), "{next}");
    assert_eq!(next.matches("[project.acme]").count(), 1, "{next}");
}

#[test]
fn removing_the_last_key_removes_the_table() {
    let text = "[project.acme]\ntheme = \"blue\"\n\n[project.other]\ntheme = \"red\"\n";
    let next = Config::with_project_key(text, "acme", ProjectKey::Theme, None).unwrap();
    assert!(!next.contains("acme"), "{next}");
    assert!(next.contains("[project.other]"), "{next}");
    let next = Config::with_project_key(&next, "other", ProjectKey::Theme, None).unwrap();
    assert_eq!(next.trim(), "", "nothing left: {next:?}");
    // Removing from a file that never had the key is a no-op, not an error.
    assert_eq!(
        Config::with_project_key("[upload]\nimages = \"gcs\"\n", "x", ProjectKey::Theme, None).unwrap(),
        "[upload]\nimages = \"gcs\"\n"
    );
}

#[test]
fn the_view_table_reads_and_writes() {
    let text = "# notes\n[project.acme]\ntheme = \"blue\"\n";
    let next = Config::with_view_key(text, ViewKey::Lang, Some("en")).unwrap();
    assert!(next.starts_with("# notes\n"), "{next}");
    assert!(next.contains("[view]\nlang = \"en\"\n"), "{next}");
    assert!(next.contains("[project.acme]\ntheme = \"blue\"\n"), "{next}");
    let next = Config::with_view_key(&next, ViewKey::Lang, None).unwrap();
    assert!(!next.contains("[view]"), "empty table goes: {next}");
    assert!(next.contains("[project.acme]"), "{next}");
}

#[test]
fn a_broken_file_is_not_written() {
    assert!(Config::with_project_key("[upload\n", "acme", ProjectKey::Theme, Some("blue")).is_err());
}

#[test]
fn a_value_where_a_table_belongs_is_refused() {
    let e = Config::with_project_key("project = 3\n", "acme", ProjectKey::Theme, Some("blue")).unwrap_err();
    assert_eq!(e, "`project` is not a table");
    let e = Config::with_view_key("view = \"x\"\n", ViewKey::Lang, Some("en")).unwrap_err();
    assert_eq!(e, "`view` is not a table");
}
