//! The viewer's own settings, as read from its settings file: the `[view]`
//! preferences, where pasted images go, and what is known of each project.
//! Which answer wins (flag, environment, file, default) and which table a
//! project's value comes from are decided here, and so is the edit of one
//! key in the file's text (through toml_edit, which keeps the comments and
//! the author's order); reading and writing the file is the caller's.
use vstd::prelude::*;
use crate::text::{str_eq, spec_trim, trim, join_with, join_strs};

verus! {

/// Which key of `[view]` a write names.
#[derive(Debug, Clone, Copy, PartialEq, Eq, Structural)]
pub enum ViewKey {
    Lang,
    Theme,
    Appearance,
    Preview,
    Ime,
    DownloadDir,
    Diagrams,
}

pub open spec fn spec_view_key(k: ViewKey) -> Seq<char> {
    match k {
        ViewKey::Lang => "lang"@,
        ViewKey::Theme => "theme"@,
        ViewKey::Appearance => "appearance"@,
        ViewKey::Preview => "preview"@,
        ViewKey::Ime => "ime"@,
        ViewKey::DownloadDir => "download_dir"@,
        ViewKey::Diagrams => "diagrams"@,
    }
}

impl ViewKey {
    pub fn as_str(self) -> (s: &'static str)
        ensures
            s@ == spec_view_key(self),
    {
        match self {
            ViewKey::Lang => "lang",
            ViewKey::Theme => "theme",
            ViewKey::Appearance => "appearance",
            ViewKey::Preview => "preview",
            ViewKey::Ime => "ime",
            ViewKey::DownloadDir => "download_dir",
            ViewKey::Diagrams => "diagrams",
        }
    }
}

/// Where a value on screen came from.
#[derive(Debug, Clone, Copy, PartialEq, Eq, Structural)]
pub enum Origin {
    /// A command-line flag.
    Flag,
    /// An environment variable.
    Env,
    /// The project's own settings answered.
    Api,
    /// The settings file names it.
    File,
    /// Detected at startup.
    Auto,
    /// The built-in fallback.
    Default,
}

pub open spec fn spec_origin_tag(o: Origin) -> Seq<char> {
    match o {
        Origin::Flag => "flag"@,
        Origin::Env => "env"@,
        Origin::Api => "api"@,
        Origin::File => "file"@,
        Origin::Auto => "auto"@,
        Origin::Default => "-"@,
    }
}

impl Origin {
    /// The short tag the settings screen prints.
    pub fn tag(self) -> (s: &'static str)
        ensures
            s@ == spec_origin_tag(self),
    {
        match self {
            Origin::Flag => "flag",
            Origin::Env => "env",
            Origin::Api => "api",
            Origin::File => "file",
            Origin::Auto => "auto",
            Origin::Default => "-",
        }
    }

    /// A value from here beats whatever the file says.
    pub fn beats_file(self) -> (b: bool)
        ensures
            b == (self == Origin::Flag || self == Origin::Env),
    {
        match self {
            Origin::Flag | Origin::Env => true,
            _ => false,
        }
    }
}

/// The first answer wins: flag, then environment, then the file, then the
/// default.
pub fn pick<T>(flag: Option<T>, env: Option<T>, file: Option<T>, default: (T, Origin)) -> (r: (T, Origin))
    ensures
        r == (match (flag, env, file) {
            (Some(v), _, _) => (v, Origin::Flag),
            (None, Some(v), _) => (v, Origin::Env),
            (None, None, Some(v)) => (v, Origin::File),
            (None, None, None) => default,
        }),
{
    if let Some(v) = flag {
        return (v, Origin::Flag);
    }
    if let Some(v) = env {
        return (v, Origin::Env);
    }
    if let Some(v) = file {
        return (v, Origin::File);
    }
    default
}

/// Which field of a `[project.<slug>]` table a write names.
#[derive(Debug, Clone, Copy, PartialEq, Eq, Structural)]
pub enum ProjectKey {
    Theme,
    DisplayName,
    Images,
    GyazoTeam,
}

pub open spec fn spec_project_key(k: ProjectKey) -> Seq<char> {
    match k {
        ProjectKey::Theme => "theme"@,
        ProjectKey::DisplayName => "display_name"@,
        ProjectKey::Images => "images"@,
        ProjectKey::GyazoTeam => "gyazo_team"@,
    }
}

impl ProjectKey {
    pub fn as_str(self) -> (s: &'static str)
        ensures
            s@ == spec_project_key(self),
    {
        match self {
            ProjectKey::Theme => "theme",
            ProjectKey::DisplayName => "display_name",
            ProjectKey::Images => "images",
            ProjectKey::GyazoTeam => "gyazo_team",
        }
    }
}

/// One `[project.<slug>]` table.
#[derive(Debug, Default, Clone, PartialEq)]
pub struct ProjectSection {
    /// The Cosense theme name, used when the project's own setting could not
    /// be read.
    pub theme: Option<String>,
    /// The project's proper name for the header.
    pub display_name: Option<String>,
    /// Upload destination; here the file beats the project setting.
    pub images: Option<String>,
    pub gyazo_team: Option<String>,
}

/// One `[view]` table: every value kept as the string written.
#[derive(Debug, Default, Clone, PartialEq)]
pub struct ViewSection {
    pub lang: Option<String>,
    pub theme: Option<String>,
    pub appearance: Option<String>,
    pub preview: Option<String>,
    pub ime: Option<String>,
    pub download_dir: Option<String>,
    pub diagrams: Option<String>,
}

/// One destination choice as written in the file.
#[derive(Debug, Default, Clone, PartialEq)]
pub struct UploadChoice {
    /// `gcs` or `gyazo`.
    pub images: Option<String>,
    /// Gyazo Teams organisation. Unset = gyazo.com.
    pub gyazo_team: Option<String>,
}

/// `[upload]`: the destination for every project, plus per-project
/// overrides under `[upload.project.<name>]`, each name once.
#[derive(Debug, Default, Clone, PartialEq)]
pub struct UploadSection {
    pub all: UploadChoice,
    pub project: Vec<(String, UploadChoice)>,
}

/// The settings file, parsed. Project tables are held by name, each name
/// once.
#[derive(Debug, Default, Clone, PartialEq)]
pub struct Config {
    /// `[view]`: this terminal's own preferences.
    pub view: ViewSection,
    pub upload: UploadSection,
    /// `[project.<slug>]`: everything known about one project.
    pub project: Vec<(String, ProjectSection)>,
}

/// The value held under `key`: the first entry with that name.
pub open spec fn lookup<T>(v: Seq<(String, T)>, key: Seq<char>, k: int) -> Option<T>
    decreases v.len() - k,
{
    if k < 0 || k >= v.len() {
        None
    } else if v[k].0@ == key {
        Some(v[k].1)
    } else {
        lookup(v, key, k + 1)
    }
}

/// No name is held twice: what a map keyed by name guarantees.
pub open spec fn names_unique<T>(v: Seq<(String, T)>) -> bool {
    forall|a: int, b: int| 0 <= a < b < v.len() ==> (#[trigger] v[a]).0@ != (#[trigger] v[b]).0@
}

impl Config {
    /// Each `[project.<slug>]` and each `[upload.project.<slug>]` table is
    /// held once, as the file's tables are keyed.
    pub open spec fn wf(&self) -> bool {
        names_unique(self.project@) && names_unique(self.upload.project@)
    }
}

proof fn lemma_lookup_unique<T>(v: Seq<(String, T)>, i: int, k: int)
    requires
        names_unique(v),
        0 <= k <= i < v.len(),
    ensures
        lookup(v, v[i].0@, k) == Some(v[i].1),
    decreases i - k,
{
    if k < i {
        assert(v[k].0@ != v[i].0@);
        lemma_lookup_unique(v, i, k + 1);
    }
}

/// With each name held once, every held table is the one its name finds.
pub proof fn law_each_table_answers_for_its_name<T>(v: Seq<(String, T)>, i: int)
    requires
        names_unique(v),
        0 <= i < v.len(),
    ensures
        lookup(v, v[i].0@, 0) == Some(v[i].1),
{
    lemma_lookup_unique(v, i, 0);
}

fn unique_names<T>(v: &Vec<(String, T)>) -> (r: bool)
    ensures
        r == names_unique(v@),
{
    let mut b: usize = 0;
    while b < v.len()
        invariant
            b <= v.len(),
            forall|x: int, y: int| 0 <= x < y < b ==> (#[trigger] v@[x]).0@ != (#[trigger] v@[y]).0@,
        decreases v.len() - b,
    {
        let mut a: usize = 0;
        while a < b
            invariant
                a <= b < v.len(),
                forall|x: int, y: int| 0 <= x < y < b ==> (#[trigger] v@[x]).0@ != (#[trigger] v@[y]).0@,
                forall|x: int| 0 <= x < a ==> (#[trigger] v@[x]).0@ != v@[b as int].0@,
            decreases b - a,
        {
            if str_eq(v[a].0.as_str(), v[b].0.as_str()) {
                assert(v@[a as int].0@ == v@[b as int].0@);
                return false;
            }
            a += 1;
        }
        b += 1;
    }
    true
}

impl Config {
    /// Whether every project table is held once (`wf`).
    pub fn names_are_unique(&self) -> (r: bool)
        ensures
            r == self.wf(),
    {
        unique_names(&self.project) && unique_names(&self.upload.project)
    }
}

/// The first of three optional strings that is set.
pub open spec fn first_set(a: Option<String>, b: Option<String>, c: Option<String>) -> Option<String> {
    if a is Some {
        a
    } else if b is Some {
        b
    } else {
        c
    }
}

fn find_project<'a>(v: &'a Vec<(String, ProjectSection)>, key: &str) -> (r: Option<&'a ProjectSection>)
    ensures
        match lookup(v@, key@, 0) {
            Some(p) => r is Some && *r->Some_0 == p,
            None => r is None,
        },
{
    let mut k: usize = 0;
    while k < v.len()
        invariant
            k <= v.len(),
            lookup(v@, key@, 0) == lookup(v@, key@, k as int),
        decreases v.len() - k,
    {
        if str_eq(v[k].0.as_str(), key) {
            return Some(&v[k].1);
        }
        k += 1;
    }
    None
}

fn find_upload<'a>(v: &'a Vec<(String, UploadChoice)>, key: &str) -> (r: Option<&'a UploadChoice>)
    ensures
        match lookup(v@, key@, 0) {
            Some(p) => r is Some && *r->Some_0 == p,
            None => r is None,
        },
{
    let mut k: usize = 0;
    while k < v.len()
        invariant
            k <= v.len(),
            lookup(v@, key@, 0) == lookup(v@, key@, k as int),
        decreases v.len() - k,
    {
        if str_eq(v[k].0.as_str(), key) {
            return Some(&v[k].1);
        }
        k += 1;
    }
    None
}

fn copy_opt(o: &Option<String>) -> (r: Option<String>)
    ensures
        r == *o,
{
    match o {
        Some(s) => Some(s.clone()),
        None => None,
    }
}

/// The upload choice the file makes for `project`, field by field:
/// `[project.<slug>]`, then `[upload.project.<slug>]`, then `[upload]`.
pub open spec fn spec_upload_choice(c: Config, project: Seq<char>) -> UploadChoice {
    let own = lookup(c.upload.project@, project, 0);
    let sect = lookup(c.project@, project, 0);
    UploadChoice {
        images: first_set(
            match sect {
                Some(s) => s.images,
                None => None,
            },
            match own {
                Some(o) => o.images,
                None => None,
            },
            c.upload.all.images,
        ),
        gyazo_team: first_set(
            match sect {
                Some(s) => s.gyazo_team,
                None => None,
            },
            match own {
                Some(o) => o.gyazo_team,
                None => None,
            },
            c.upload.all.gyazo_team,
        ),
    }
}

impl Config {
    /// The upload choice the file makes for `project`, field by field.
    pub fn upload_choice(&self, project: &str) -> (u: UploadChoice)
        ensures
            u == spec_upload_choice(*self, project@),
    {
        let own = find_upload(&self.upload.project, project);
        let sect = find_project(&self.project, project);
        let images = match sect {
            Some(s) if s.images.is_some() => copy_opt(&s.images),
            _ => match own {
                Some(o) if o.images.is_some() => copy_opt(&o.images),
                _ => copy_opt(&self.upload.all.images),
            },
        };
        let gyazo_team = match sect {
            Some(s) if s.gyazo_team.is_some() => copy_opt(&s.gyazo_team),
            _ => match own {
                Some(o) if o.gyazo_team.is_some() => copy_opt(&o.gyazo_team),
                _ => copy_opt(&self.upload.all.gyazo_team),
            },
        };
        UploadChoice { images, gyazo_team }
    }

    /// `[project.<slug>].theme`, when the file has a non-empty one.
    pub fn project_theme(&self, project: &str) -> (r: Option<String>)
        ensures
            r == (match lookup(self.project@, project@, 0) {
                Some(p) => match p.theme {
                    Some(t) => if t@.len() > 0 {
                        Some(t)
                    } else {
                        None
                    },
                    None => None,
                },
                None => None,
            }),
    {
        match find_project(&self.project, project) {
            Some(p) => match &p.theme {
                Some(t) => if !t.as_str().is_empty() {
                    Some(t.clone())
                } else {
                    None
                },
                None => None,
            },
            None => None,
        }
    }

    /// `[project.<slug>].display_name`, when the file has one that is not
    /// blank.
    pub fn project_display_name(&self, project: &str) -> (r: Option<String>)
        ensures
            r == (match lookup(self.project@, project@, 0) {
                Some(p) => match p.display_name {
                    Some(t) => if spec_trim(t@).len() > 0 {
                        Some(t)
                    } else {
                        None
                    },
                    None => None,
                },
                None => None,
            }),
    {
        match find_project(&self.project, project) {
            Some(p) => match &p.display_name {
                Some(t) => if !trim(t.as_str()).as_str().is_empty() {
                    Some(t.clone())
                } else {
                    None
                },
                None => None,
            },
            None => None,
        }
    }
}


// ---------------------------------------------------------------------------
// Editing one key of the file's text
// ---------------------------------------------------------------------------

#[verifier::external_type_specification]
#[verifier::external_body]
pub struct ExTomlDocument(toml_edit::DocumentMut);

#[verifier::external_type_specification]
#[verifier::external_body]
pub struct ExTomlTable(toml_edit::Table);

/// Whether toml_edit reads `text` as a TOML document.
pub uninterp spec fn toml_parses(text: Seq<char>) -> bool;

/// The message toml_edit gives for `text` when it does not read it.
pub uninterp spec fn toml_parse_error(text: Seq<char>) -> Seq<char>;

/// `text.parse::<toml_edit::DocumentMut>()`, its error turned into the
/// error's message. Whether it reads, and the message, are named: they
/// depend on the text alone.
#[verifier::external_body]
fn parse_toml(text: &str) -> (r: Result<toml_edit::DocumentMut, String>)
    ensures
        r is Ok <==> toml_parses(text@),
        r matches Err(e) ==> e@ == toml_parse_error(text@),
{
    match text.parse::<toml_edit::DocumentMut>() {
        Ok(d) => Ok(d),
        Err(e) => Err(e.message().to_string()),
    }
}

/// `DocumentMut::as_table_mut`: the document's root table. Nothing is
/// stated of it: the document is opaque here.
#[verifier::external_body]
fn doc_root<'a>(d: &'a mut toml_edit::DocumentMut) -> &'a mut toml_edit::Table {
    d.as_table_mut()
}

/// `Table::get_mut(key)`, when what it holds is a table. Nothing is stated
/// of the answer: the table is opaque here.
#[verifier::external_body]
fn table_child<'a>(t: &'a mut toml_edit::Table, key: &str) -> Option<&'a mut toml_edit::Table> {
    match t.get_mut(key) {
        Some(toml_edit::Item::Table(c)) => Some(c),
        _ => None,
    }
}

/// `Table::contains_key`. Nothing is stated: the table is opaque here.
#[verifier::external_body]
fn table_contains(t: &toml_edit::Table, key: &str) -> bool {
    t.contains_key(key)
}

/// `Table::new`: an empty table.
#[verifier::external_body]
fn new_table() -> toml_edit::Table {
    toml_edit::Table::new()
}

/// `Table::set_implicit`: whether the table is left without a header of
/// its own when it holds no keys.
#[verifier::external_body]
fn set_implicit(t: &mut toml_edit::Table, implicit: bool) {
    t.set_implicit(implicit);
}

/// `Table::insert(key, Item::Table(child))`.
#[verifier::external_body]
fn insert_table(t: &mut toml_edit::Table, key: &str, child: toml_edit::Table) {
    t.insert(key, toml_edit::Item::Table(child));
}

/// `t[key] = toml_edit::value(v)`: the key set to the string `v`, in
/// place when it is there.
#[verifier::external_body]
fn set_string(t: &mut toml_edit::Table, key: &str, v: &str) {
    t[key] = toml_edit::value(v);
}

/// `Table::remove`.
#[verifier::external_body]
fn table_remove(t: &mut toml_edit::Table, key: &str) {
    t.remove(key);
}

/// `Table::is_empty`. Nothing is stated: the table is opaque here.
#[verifier::external_body]
fn table_is_empty(t: &toml_edit::Table) -> bool {
    t.is_empty()
}

/// `DocumentMut`'s text (`to_string`). Nothing is stated: what it prints
/// depends on the whole document, formatting included.
#[verifier::external_body]
fn doc_text(d: &toml_edit::DocumentMut) -> String {
    d.to_string()
}

pub open spec fn strs_view(v: Seq<&str>) -> Seq<Seq<char>> {
    v.map_values(|s: &str| s@)
}

/// The refusal of a path whose first `n` segments name something that is
/// not a table.
pub open spec fn not_a_table(path: Seq<Seq<char>>, n: int) -> Seq<char> {
    "`"@ + join_with(path.take(n), "."@) + "` is not a table"@
}

fn not_a_table_exec(path: &[&str], n: usize) -> (r: String)
    requires
        n <= path.len(),
    ensures
        r@ == not_a_table(strs_view(path@), n as int),
{
    let mut parts: Vec<String> = Vec::new();
    let mut k: usize = 0;
    while k < n
        invariant
            k <= n <= path.len(),
            parts.deep_view() == strs_view(path@).take(k as int),
        decreases n - k,
    {
        let ghost before = parts.deep_view();
        let part = crate::text::copy_str(path[k]);
        parts.push(part);
        assert(parts.deep_view() =~= before.push(path@[k as int]@));
        assert(strs_view(path@).take(k + 1) =~= strs_view(path@).take(k as int).push(path@[k as int]@));
        k += 1;
    }
    let joined = join_strs(parts.as_slice(), ".");
    let mut r = String::new();
    r.append("`");
    r.append(joined.as_str());
    r.append("` is not a table");
    r
}

/// Set `key` to `v` in the table at `path[i..]` below `t`, making missing
/// tables on the way (those before the last hold no keys of their own, so
/// they stay without a header of their own).
fn set_in(t: &mut toml_edit::Table, path: &[&str], i: usize, key: &str, v: &str) -> (r: Result<(), String>)
    requires
        i <= path.len(),
    ensures
        r matches Err(e) ==> exists|n: int| i < n <= path.len() && e@ == not_a_table(strs_view(path@), n),
    decreases path.len() - i,
{
    if i == path.len() {
        set_string(t, key, v);
        return Ok(());
    }
    let seg = path[i];
    if !table_contains(t, seg) {
        let mut n = new_table();
        set_implicit(&mut n, i + 1 != path.len());
        insert_table(t, seg, n);
    }
    match table_child(t, seg) {
        Some(c) => set_in(c, path, i + 1, key, v),
        None => Err(not_a_table_exec(path, i + 1)),
    }
}

/// Remove `key` from the table at `path[i..]` below `t`, and every table
/// on the way that this leaves empty. A missing table means there is
/// nothing to remove.
fn remove_in(t: &mut toml_edit::Table, path: &[&str], i: usize, key: &str)
    requires
        i <= path.len(),
    decreases path.len() - i,
{
    if i == path.len() {
        table_remove(t, key);
        return;
    }
    let seg = path[i];
    let mut drop = false;
    match table_child(t, seg) {
        Some(c) => {
            remove_in(c, path, i + 1, key);
            drop = table_is_empty(c);
        },
        None => {},
    }
    if drop {
        table_remove(t, seg);
    }
}

impl Config {
    /// Set (or, with `None`, remove) one key of the table at `path`
    /// (`["view"]`, `["project", "<slug>"]`) in the file's text, keeping
    /// every comment, every other table and the author's order.
    /// Intermediate tables that hold no keys of their own stay without a
    /// header; a table left empty is removed with its last key. Text that
    /// is not TOML is refused with toml_edit's message; so is a path that
    /// runs through something that is not a table. A removal never fails
    /// on TOML text.
    pub fn with_key(text: &str, path: &[&str], key: &str, value: Option<&str>) -> (r: Result<String, String>)
        ensures
            !toml_parses(text@) ==> (r matches Err(e) && e@ == toml_parse_error(text@)),
            toml_parses(text@) && value is None ==> r is Ok,
            toml_parses(text@) ==> (r matches Err(e) ==> value is Some && exists|n: int|
                0 < n <= path.len() && e@ == not_a_table(strs_view(path@), n)),
    {
        let mut doc = match parse_toml(text) {
            Ok(d) => d,
            Err(e) => {
                return Err(e);
            },
        };
        match value {
            Some(v) => {
                let root = doc_root(&mut doc);
                match set_in(root, path, 0, key, v) {
                    Ok(()) => {},
                    Err(e) => {
                        return Err(e);
                    },
                }
            },
            None => {
                let root = doc_root(&mut doc);
                remove_in(root, path, 0, key);
            },
        }
        Ok(doc_text(&doc))
    }

    /// `with_key` on `[project.<slug>]`.
    pub fn with_project_key(text: &str, project: &str, key: ProjectKey, value: Option<&str>) -> (r: Result<String, String>)
        ensures
            !toml_parses(text@) ==> (r matches Err(e) && e@ == toml_parse_error(text@)),
            toml_parses(text@) && value is None ==> r is Ok,
            toml_parses(text@) ==> (r matches Err(e) ==> value is Some && (e@ == not_a_table(seq!["project"@, project@], 1)
                || e@ == not_a_table(seq!["project"@, project@], 2))),
    {
        let path: [&str; 2] = ["project", project];
        let r = Config::with_key(text, path.as_slice(), key.as_str(), value);
        proof {
            assert(strs_view(path@) =~= seq!["project"@, project@]);
        }
        r
    }

    /// `with_key` on `[view]`.
    pub fn with_view_key(text: &str, key: ViewKey, value: Option<&str>) -> (r: Result<String, String>)
        ensures
            !toml_parses(text@) ==> (r matches Err(e) && e@ == toml_parse_error(text@)),
            toml_parses(text@) && value is None ==> r is Ok,
            toml_parses(text@) ==> (r matches Err(e) ==> value is Some && e@ == not_a_table(seq!["view"@], 1)),
    {
        let path: [&str; 1] = ["view"];
        let r = Config::with_key(text, path.as_slice(), key.as_str(), value);
        proof {
            assert(strs_view(path@) =~= seq!["view"@]);
        }
        r
    }
}

} // verus!
