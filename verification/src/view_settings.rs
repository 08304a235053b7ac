//! The viewer's own settings (language, colour scheme, light/dark, the
//! index's excerpt dock, IME handling, where downloads land) resolved with
//! where each answer came from: the flags, the environment, the settings
//! file's `[view]` table and the defaults, in that order. A file value that
//! does not parse is reported and dropped, as if unset.
use vstd::prelude::*;
use crate::config::{pick, Origin, ViewSection};
use crate::lang::{Lang, spec_from_locale, var_says, env_lookup, env_view, var_lang};
use crate::index::PreviewMode;
use crate::ime::ImeMode;
use crate::text::{str_eq, trim, spec_trim, starts_with, has_prefix, slice_chars, concat_str};

verus! {

/// `--light` / `--dark`, or neither: follow the terminal.
#[derive(Debug, Clone, Copy, PartialEq, Eq, Structural)]
pub enum Appearance {
    Light,
    Dark,
    Auto,
}

pub open spec fn spec_appearance(s: Seq<char>) -> Option<Appearance> {
    if s == "light"@ {
        Some(Appearance::Light)
    } else if s == "dark"@ {
        Some(Appearance::Dark)
    } else if s == "auto"@ {
        Some(Appearance::Auto)
    } else {
        None
    }
}

impl Appearance {
    /// `light`, `dark` or `auto`, exactly.
    pub fn parse(s: &str) -> (r: Option<Self>)
        ensures
            r == spec_appearance(s@),
    {
        if str_eq(s, "light") {
            Some(Appearance::Light)
        } else if str_eq(s, "dark") {
            Some(Appearance::Dark)
        } else if str_eq(s, "auto") {
            Some(Appearance::Auto)
        } else {
            None
        }
    }

    /// The word `parse` reads.
    pub fn as_str(self) -> (s: &'static str)
        ensures
            s@ == (match self {
                Appearance::Light => "light"@,
                Appearance::Dark => "dark"@,
                Appearance::Auto => "auto"@,
            }),
    {
        match self {
            Appearance::Light => "light",
            Appearance::Dark => "dark",
            Appearance::Auto => "auto",
        }
    }
}

pub open spec fn spec_ime_strict(s: Seq<char>) -> Option<ImeMode> {
    if s == "jp"@ {
        Some(ImeMode::Jp)
    } else if s == "off"@ {
        Some(ImeMode::Off)
    } else if s == "ascii"@ {
        Some(ImeMode::Ascii)
    } else {
        None
    }
}

/// `jp`, `off` or `ascii`, strictly: a file's typo is reported, where the
/// flag's own parser would quietly answer `Jp`.
pub fn parse_ime(s: &str) -> (r: Option<ImeMode>)
    ensures
        r == spec_ime_strict(s@),
{
    if str_eq(s, "jp") {
        Some(ImeMode::Jp)
    } else if str_eq(s, "off") {
        Some(ImeMode::Off)
    } else if str_eq(s, "ascii") {
        Some(ImeMode::Ascii)
    } else {
        None
    }
}

pub open spec fn spec_preview(s: Seq<char>) -> Option<PreviewMode> {
    if s == "on"@ {
        Some(PreviewMode::On)
    } else if s == "off"@ {
        Some(PreviewMode::Off)
    } else if s == "auto"@ {
        Some(PreviewMode::Auto)
    } else {
        None
    }
}

/// What the flags said. `None` everywhere is a bare start.
#[derive(Debug, Clone)]
pub struct ViewFlags {
    pub lang: Option<String>,
    pub theme: Option<String>,
    pub appearance: Option<Appearance>,
    pub preview: Option<PreviewMode>,
    pub ime: Option<ImeMode>,
    pub download_dir: Option<String>,
}

/// Every setting with where it came from. `download_dir` is the place as
/// written (trimmed, `~` not yet expanded), or `None` with `Origin::Auto`
/// for the built-in place. `bad` lists the file's `(key, value)` pairs that
/// did not parse, in the table's order.
#[derive(Debug)]
pub struct Resolved {
    pub lang: (Lang, Origin),
    pub theme: (Option<String>, Origin),
    pub appearance: (Appearance, Origin),
    pub preview: (PreviewMode, Origin),
    pub ime: (ImeMode, Origin),
    pub download_dir: (Option<String>, Origin),
    pub bad: Vec<(String, String)>,
}

pub open spec fn opt_view(o: Option<String>) -> Option<Seq<char>> {
    match o {
        Some(s) => Some(s@),
        None => None,
    }
}

pub open spec fn spec_pick<T>(flag: Option<T>, env: Option<T>, file: Option<T>, default: (T, Origin)) -> (T, Origin) {
    match (flag, env, file) {
        (Some(v), _, _) => (v, Origin::Flag),
        (None, Some(v), _) => (v, Origin::Env),
        (None, None, Some(v)) => (v, Origin::File),
        (None, None, None) => default,
    }
}

pub open spec fn and_then<A, B>(o: Option<A>, f: spec_fn(A) -> Option<B>) -> Option<B> {
    match o {
        Some(a) => f(a),
        None => None,
    }
}

/// The first of `COSENSE_LANG`, `LC_ALL`, `LC_MESSAGES`, `LANG` that names a
/// language.
pub open spec fn env_lang(env: Seq<(Seq<char>, Seq<char>)>) -> Option<Lang> {
    if var_says(env, "COSENSE_LANG"@) is Some {
        var_says(env, "COSENSE_LANG"@)
    } else if var_says(env, "LC_ALL"@) is Some {
        var_says(env, "LC_ALL"@)
    } else if var_says(env, "LC_MESSAGES"@) is Some {
        var_says(env, "LC_MESSAGES"@)
    } else {
        var_says(env, "LANG"@)
    }
}

/// A place that says something once trimmed, trimmed.
pub open spec fn place(o: Option<Seq<char>>) -> Option<Option<Seq<char>>> {
    match o {
        Some(s) => if spec_trim(s).len() > 0 { Some(Some(spec_trim(s))) } else { None },
        None => None,
    }
}

/// A file value of `key` that is there but does not parse.
pub open spec fn bad_entry(key: Seq<char>, v: Option<Seq<char>>, parses: bool) -> Seq<(Seq<char>, Seq<char>)> {
    match v {
        Some(s) => if parses { Seq::empty() } else { seq![(key, s)] },
        None => Seq::empty(),
    }
}

pub struct ResolvedModel {
    pub lang: (Lang, Origin),
    pub theme: (Option<Seq<char>>, Origin),
    pub appearance: (Appearance, Origin),
    pub preview: (PreviewMode, Origin),
    pub ime: (ImeMode, Origin),
    pub download_dir: (Option<Seq<char>>, Origin),
    pub bad: Seq<(Seq<char>, Seq<char>)>,
}

pub open spec fn resolved_view(r: Resolved) -> ResolvedModel {
    ResolvedModel {
        lang: r.lang,
        theme: (opt_view(r.theme.0), r.theme.1),
        appearance: r.appearance,
        preview: r.preview,
        ime: r.ime,
        download_dir: (opt_view(r.download_dir.0), r.download_dir.1),
        bad: r.bad@.map_values(|p: (String, String)| (p.0@, p.1@)),
    }
}

pub open spec fn spec_resolve(
    flags: ViewFlags,
    env: Seq<(Seq<char>, Seq<char>)>,
    file: ViewSection,
) -> ResolvedModel {
    let lang_file = and_then(opt_view(file.lang), |s: Seq<char>| spec_from_locale(s));
    let app_file = and_then(opt_view(file.appearance), |s: Seq<char>| spec_appearance(s));
    let prev_file = and_then(opt_view(file.preview), |s: Seq<char>| spec_preview(s));
    let ime_file = and_then(opt_view(file.ime), |s: Seq<char>| spec_ime_strict(s));
    ResolvedModel {
        lang: spec_pick(
            and_then(opt_view(flags.lang), |s: Seq<char>| spec_from_locale(s)),
            env_lang(env),
            lang_file,
            (Lang::En, Origin::Default),
        ),
        theme: spec_pick(
            match opt_view(flags.theme) {
                Some(t) => Some(Some(t)),
                None => None,
            },
            None,
            match opt_view(file.theme) {
                Some(t) => if t.len() > 0 { Some(Some(t)) } else { None },
                None => None,
            },
            (None, Origin::Default),
        ),
        appearance: spec_pick(flags.appearance, None, app_file, (Appearance::Auto, Origin::Default)),
        preview: spec_pick(flags.preview, None, prev_file, (PreviewMode::Auto, Origin::Default)),
        ime: spec_pick(flags.ime, None, ime_file, (ImeMode::Jp, Origin::Default)),
        download_dir: spec_pick(
            place(opt_view(flags.download_dir)),
            place(env_lookup(env, "COSENSE_DOWNLOAD_DIR"@, 0)),
            place(opt_view(file.download_dir)),
            (None, Origin::Auto),
        ),
        bad: bad_entry("lang"@, opt_view(file.lang), lang_file is Some) + bad_entry(
            "appearance"@,
            opt_view(file.appearance),
            app_file is Some,
        ) + bad_entry("preview"@, opt_view(file.preview), prev_file is Some) + bad_entry(
            "ime"@,
            opt_view(file.ime),
            ime_file is Some,
        ),
    }
}

fn env_get(env: &[(String, String)], key: &str) -> (r: Option<String>)
    ensures
        opt_view(r) == env_lookup(env_view(env@), key@, 0),
{
    let ghost ev = env_view(env@);
    let mut k: usize = 0;
    while k < env.len()
        invariant
            k <= env.len(),
            ev == env_view(env@),
            env_lookup(ev, key@, 0) == env_lookup(ev, key@, k as int),
        decreases env.len() - k,
    {
        if str_eq(env[k].0.as_str(), key) {
            return Some(env[k].1.clone());
        }
        k += 1;
    }
    None
}

fn place_exec(o: Option<&str>) -> (r: Option<Option<String>>)
    ensures
        match r {
            Some(p) => place(
                match o {
                    Some(s) => Some(s@),
                    None => None,
                },
            ) == Some(opt_view(p)),
            None => place(
                match o {
                    Some(s) => Some(s@),
                    None => None,
                },
            ) is None,
        },
{
    match o {
        Some(s) => {
            let t = trim(s);
            if t.as_str().is_empty() {
                None
            } else {
                Some(Some(t))
            }
        },
        None => None,
    }
}

fn opt_str(o: &Option<String>) -> (r: Option<&str>)
    ensures
        match r {
            Some(s) => opt_view(*o) == Some(s@),
            None => o is None,
        },
{
    match o {
        Some(s) => Some(s.as_str()),
        None => None,
    }
}

fn note_bad(bad: &mut Vec<(String, String)>, key: &str, v: &Option<String>, parses: bool)
    ensures
        final(bad)@.map_values(|p: (String, String)| (p.0@, p.1@)) == old(bad)@.map_values(
            |p: (String, String)| (p.0@, p.1@),
        ) + bad_entry(key@, opt_view(*v), parses),
{
    let ghost before = bad@.map_values(|p: (String, String)| (p.0@, p.1@));
    match v {
        Some(s) => if !parses {
            bad.push((key.to_string(), s.clone()));
            assert(bad@.map_values(|p: (String, String)| (p.0@, p.1@)) =~= before + bad_entry(
                key@,
                opt_view(*v),
                parses,
            ));
        } else {
            assert(before + bad_entry(key@, opt_view(*v), parses) =~= before);
        },
        None => {
            assert(before + bad_entry(key@, opt_view(*v), parses) =~= before);
        },
    }
}

/// Resolve every setting from the flags, the environment (as `(name,
/// value)` pairs) and the file's `[view]` table. Whether a named theme
/// exists, and the built-in download place, are the caller's.
pub fn resolve(flags: &ViewFlags, env: &[(String, String)], file: &ViewSection) -> (r: Resolved)
    ensures
        resolved_view(r) == spec_resolve(*flags, env_view(env@), *file),
{
    let ghost ev = env_view(env@);
    let mut bad: Vec<(String, String)> = Vec::new();
    assert(bad@.map_values(|p: (String, String)| (p.0@, p.1@)) =~= Seq::<(Seq<char>, Seq<char>)>::empty());

    let lang_file = match opt_str(&file.lang) {
        Some(s) => Lang::from_locale(s),
        None => None,
    };
    note_bad(&mut bad, "lang", &file.lang, lang_file.is_some());
    let mut lang_env = var_lang(env, "COSENSE_LANG");
    if lang_env.is_none() {
        lang_env = var_lang(env, "LC_ALL");
    }
    if lang_env.is_none() {
        lang_env = var_lang(env, "LC_MESSAGES");
    }
    if lang_env.is_none() {
        lang_env = var_lang(env, "LANG");
    }
    let lang_flag = match opt_str(&flags.lang) {
        Some(s) => Lang::from_locale(s),
        None => None,
    };
    let lang = pick(lang_flag, lang_env, lang_file, (Lang::En, Origin::Default));

    let theme_flag: Option<Option<String>> = match &flags.theme {
        Some(t) => Some(Some(t.clone())),
        None => None,
    };
    let theme_file: Option<Option<String>> = match &file.theme {
        Some(t) => if t.as_str().is_empty() {
            None
        } else {
            Some(Some(t.clone()))
        },
        None => None,
    };
    let theme = pick(theme_flag, None, theme_file, (None, Origin::Default));

    let app_file = match opt_str(&file.appearance) {
        Some(s) => Appearance::parse(s),
        None => None,
    };
    note_bad(&mut bad, "appearance", &file.appearance, app_file.is_some());
    let appearance = pick(flags.appearance, None, app_file, (Appearance::Auto, Origin::Default));

    let prev_file = match opt_str(&file.preview) {
        Some(s) => PreviewMode::parse(s),
        None => None,
    };
    note_bad(&mut bad, "preview", &file.preview, prev_file.is_some());
    let preview = pick(flags.preview, None, prev_file, (PreviewMode::Auto, Origin::Default));

    let ime_file = match opt_str(&file.ime) {
        Some(s) => parse_ime(s),
        None => None,
    };
    note_bad(&mut bad, "ime", &file.ime, ime_file.is_some());
    let ime = pick(flags.ime, None, ime_file, (ImeMode::Jp, Origin::Default));

    let env_dir = env_get(env, "COSENSE_DOWNLOAD_DIR");
    let download_dir = pick(
        place_exec(opt_str(&flags.download_dir)),
        place_exec(opt_str(&env_dir)),
        place_exec(opt_str(&file.download_dir)),
        (None, Origin::Auto),
    );
    let r = Resolved { lang, theme, appearance, preview, ime, download_dir, bad };
    proof {
        let m = spec_resolve(*flags, ev, *file);
        assert(resolved_view(r).bad =~= m.bad);
    }
    r
}

/// The reader's language is settled in this order: the flag, when it names
/// a language, with origin `Flag`; else the first of `COSENSE_LANG`,
/// `LC_ALL`, `LC_MESSAGES` and `LANG` that names one, with origin `Env`, so
/// the program's own variable outranks the shell's whatever those say;
/// else the settings file, with origin `File`; else English by default.
pub proof fn law_lang_order(flags: ViewFlags, env: Seq<(Seq<char>, Seq<char>)>, file: ViewSection)
    ensures
        ({
            let got = spec_resolve(flags, env, file).lang;
            let flag = match opt_view(flags.lang) {
                Some(s) => spec_from_locale(s),
                None => None,
            };
            let from_file = match opt_view(file.lang) {
                Some(s) => spec_from_locale(s),
                None => None,
            };
            let own = var_says(env, "COSENSE_LANG"@);
            let all = var_says(env, "LC_ALL"@);
            let messages = var_says(env, "LC_MESSAGES"@);
            let shell = var_says(env, "LANG"@);
            &&& flag matches Some(l) ==> got == (l, Origin::Flag)
            &&& flag is None && own is Some ==> got == (own->Some_0, Origin::Env)
            &&& flag is None && own is None && all is Some ==> got == (all->Some_0, Origin::Env)
            &&& flag is None && own is None && all is None && messages is Some
                ==> got == (messages->Some_0, Origin::Env)
            &&& flag is None && own is None && all is None && messages is None && shell is Some
                ==> got == (shell->Some_0, Origin::Env)
            &&& flag is None && own is None && all is None && messages is None && shell is None
                ==> got == match from_file {
                Some(l) => (l, Origin::File),
                None => (Lang::En, Origin::Default),
            }
        }),
{
}

/// A place as written, with a leading `~` (alone, or before `/`) standing
/// for the home directory when there is one; `$VAR`s are left alone.
pub open spec fn spec_expand_home(s: Seq<char>, home: Option<Seq<char>>) -> Seq<char> {
    match home {
        Some(h) => if s == "~"@ {
            h
        } else if has_prefix(s, "~/"@) {
            h + s.subrange(1, s.len() as int)
        } else {
            s
        },
        None => s,
    }
}

/// `spec_expand_home`.
pub fn expand_home(s: &str, home: Option<&str>) -> (r: String)
    ensures
        r@ == spec_expand_home(
            s@,
            match home {
                Some(h) => Some(h@),
                None => None,
            },
        ),
{
    match home {
        Some(h) => if str_eq(s, "~") {
            h.to_string()
        } else if starts_with(s, "~/") {
            proof {
                reveal_strlit("~/");
            }
            let n = s.unicode_len();
            let rest = slice_chars(s, 1, n);
            concat_str(h, rest.as_str())
        } else {
            s.to_string()
        },
        None => s.to_string(),
    }
}

} // verus!
