use cosense_core::clipboard::{is_png, is_scratch, pbimage_bin_name};
use cosense_core::ime::{bin_name_for, fnv1a, guard_suspend_path_from_env, ImeMode};
use std::path::PathBuf;

#[test]
fn png_signature_and_scratch_paths() {
    assert!(is_png(b"\x89PNG\r\n\x1a\n...."));
    assert!(!is_png(b"GIF89a"));
    let dir = "/tmp/cosentty/clip";
    let scratch = PathBuf::from(dir).join("clipboard-1.png");
    assert!(is_scratch(scratch.to_str().unwrap(), dir));
    assert!(!is_scratch("/Users/me/shot.png", dir));
}

#[test]
fn scratch_paths_are_compared_by_component() {
    assert!(!is_scratch("/tmp/cosentty/clipx/a.png", "/tmp/cosentty/clip"));
    assert!(is_scratch("/tmp//cosentty/./clip/a.png", "/tmp/cosentty/clip/"));
    assert!(!is_scratch("tmp/cosentty/clip/a.png", "/tmp/cosentty/clip"));
    assert!(is_scratch("./clip/a.png", "./clip"));
    assert!(!is_scratch("clip/a.png", "./clip"));
    for (p, d) in [("/a/b/c", "/a/b"), ("/a/bc", "/a/b"), ("a/./b", "a"), ("./a", "."), ("/", "/"), ("", "")] {
        assert_eq!(is_scratch(p, d), std::path::Path::new(p).starts_with(d), "{p} under {d}");
    }
}

#[test]
fn clipboard_helper_bin_name_embeds_the_source_hash() {
    let name = pbimage_bin_name("import AppKit\n");
    assert!(name.starts_with("pbimage-"));
    assert_eq!(name.len(), "pbimage-".len() + 8);
}

#[test]
fn ime_helper_bin_name_embeds_the_source_hash() {
    let src = "case \"abc\":\ncase \"jp\":\nTISSelectInputSource\n";
    let name = bin_name_for(src);
    assert!(name.starts_with("ime-"));
    assert_eq!(name.len(), "ime-".len() + 8);
    assert_eq!(name, format!("ime-{:08x}", (fnv1a(src.as_bytes()) & 0xffff_ffff) as u32));
}

#[test]
fn fnv1a_matches_the_published_vectors() {
    assert_eq!(fnv1a(b""), 0xcbf2_9ce4_8422_2325);
    assert_eq!(fnv1a(b"a"), 0xaf63_dc4c_8601_ec8c);
    assert_eq!(fnv1a(b"foobar"), 0x8594_4171_f739_67e8);
}

#[test]
fn guard_suspend_path_matches_akapen_contract() {
    assert_eq!(
        PathBuf::from(guard_suspend_path_from_env("/Users/me", None)),
        PathBuf::from("/Users/me/.cache/ime-guard.suspend")
    );
    assert_eq!(PathBuf::from(guard_suspend_path_from_env("/Users/me", Some("/tmp/x"))), PathBuf::from("/tmp/x"));
    assert_eq!(guard_suspend_path_from_env("/Users/me/", Some("")), "/Users/me/.cache/ime-guard.suspend");
}

#[test]
fn default_mode_is_japanese_first() {
    assert_eq!(ImeMode::parse("jp"), ImeMode::Jp);
    assert_eq!(ImeMode::parse("ascii"), ImeMode::Ascii);
    assert_eq!(ImeMode::parse("off"), ImeMode::Off);
    assert_eq!(ImeMode::parse(""), ImeMode::Jp);
}
