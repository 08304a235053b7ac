//! The project index: every page in a full-width list, with a short excerpt
//! from the one under the cursor docked below it.
//!
//! What is here is the part that can be decided without a terminal or a
//! network: matching, cursor movement, the vertical budget, ordering and
//! row text. The viewer owns drawing, fetching and keys.
use vstd::prelude::*;
use crate::api::{PageSummary, SearchResult};
use crate::clock::now_secs;
use crate::bytes::{find_b, find_bytes, lemma_find_b_bounds};
use vstd::utf8::{encode_utf8, is_char_boundary};
use crate::text::{
    dec_str, dec_int, to_decimal, int_to_decimal, str_eq, seq_less, lemma_seq_less_asym,
    lemma_seq_less_trans, lemma_seq_less_total, lowercase, to_lowercase, spec_trim, trim_slice,
    contains_seq, contains_str, eq_ignore_ascii_case, eq_ignore_case, chars_of, chars_less,
    string_of,
};

verus! {

/// `auto` hides the preview below this terminal width.
pub const PREVIEW_MIN_WIDTH: u16 = 80;

/// The excerpt is deliberately shallow: six rows read as a quick peek.
pub const PREVIEW_ROWS: u16 = 6;

pub const PREVIEW_MIN_ROWS: u16 = 2;

pub const LIST_MIN_ROWS: u16 = 3;

/// Excerpt dock behaviour (`--preview`).
#[derive(Clone, Copy, Debug, PartialEq, Eq, Structural, Default)]
pub enum PreviewMode {
    /// Show the excerpt whenever the screen is tall enough.
    On,
    /// Never show it (the list takes the full height).
    Off,
    /// Show it, but hide it on narrow or very short terminals.
    #[default]
    Auto,
}

pub open spec fn spec_shows_preview(mode: PreviewMode, width: u16) -> bool {
    match mode {
        PreviewMode::On => true,
        PreviewMode::Off => false,
        PreviewMode::Auto => width >= PREVIEW_MIN_WIDTH,
    }
}

impl PreviewMode {
    /// Parse `--preview <on|off|auto>`; `None` for unknown values.
    pub fn parse(s: &str) -> (r: Option<Self>)
        ensures
            r == (if s@ == "on"@ {
                Some(PreviewMode::On)
            } else if s@ == "off"@ {
                Some(PreviewMode::Off)
            } else if s@ == "auto"@ {
                Some(PreviewMode::Auto)
            } else {
                None
            }),
    {
        if str_eq(s, "on") {
            Some(PreviewMode::On)
        } else if str_eq(s, "off") {
            Some(PreviewMode::Off)
        } else if str_eq(s, "auto") {
            Some(PreviewMode::Auto)
        } else {
            None
        }
    }

    pub fn shows_preview(self, width: u16) -> (b: bool)
        ensures
            b == spec_shows_preview(self, width),
    {
        match self {
            PreviewMode::On => true,
            PreviewMode::Off => false,
            PreviewMode::Auto => width >= PREVIEW_MIN_WIDTH,
        }
    }
}

/// What the open line is asking for: a narrowing of the titles on screen,
/// or a full-text search of page bodies.
#[derive(Clone, Copy, Debug, PartialEq, Eq, Structural, Default)]
pub enum FilterMode {
    /// Narrow the titles already listed (local, live).
    #[default]
    Title,
    /// Search page bodies; runs on Enter.
    FullText,
}

pub open spec fn spec_toggled(m: FilterMode) -> FilterMode {
    match m {
        FilterMode::Title => FilterMode::FullText,
        FilterMode::FullText => FilterMode::Title,
    }
}

impl FilterMode {
    pub fn toggled(self) -> (m: Self)
        ensures
            m == spec_toggled(self),
    {
        match self {
            FilterMode::Title => FilterMode::FullText,
            FilterMode::FullText => FilterMode::Title,
        }
    }
}

/// Which pane the keys are talking to.
#[derive(Clone, Copy, Debug, PartialEq, Eq, Structural, Default)]
pub enum Pane {
    #[default]
    List,
    Preview,
}

/// Row budget for the index body. `preview` is `None` when there is no
/// excerpt; the list then takes every row. The gap is blank space.
#[derive(Clone, Copy, Debug, PartialEq, Eq, Structural)]
pub struct IndexLayout {
    pub list: u16,
    pub gap: u16,
    pub preview: Option<u16>,
}

pub open spec fn spec_layout(mode: PreviewMode, width: u16, height: u16) -> IndexLayout {
    if !spec_shows_preview(mode, width) || height < LIST_MIN_ROWS + 1 + PREVIEW_MIN_ROWS {
        IndexLayout { list: height, gap: 0, preview: None }
    } else {
        let p: int = if PREVIEW_ROWS <= height - 1 - LIST_MIN_ROWS {
            PREVIEW_ROWS as int
        } else {
            height - 1 - LIST_MIN_ROWS
        };
        IndexLayout { list: (height - 1 - p) as u16, gap: 1, preview: Some(p as u16) }
    }
}

/// Stack a full-width list above a short excerpt. Width decides whether
/// `auto` enables the excerpt; below three list rows, a blank separator and
/// two excerpt rows the list takes the body alone. The parts always fill
/// the height exactly, and a shown excerpt leaves the list three rows.
pub fn layout(mode: PreviewMode, width: u16, height: u16) -> (l: IndexLayout)
    ensures
        l == spec_layout(mode, width, height),
        l.list + l.gap + (match l.preview {
            Some(p) => p as int,
            None => 0,
        }) == height,
        l.preview is Some ==> l.list >= LIST_MIN_ROWS && l.preview->Some_0 >= PREVIEW_MIN_ROWS,
{
    if !mode.shows_preview(width) || height < LIST_MIN_ROWS + 1 + PREVIEW_MIN_ROWS {
        return IndexLayout { list: height, gap: 0, preview: None };
    }
    let gap: u16 = 1;
    let room = height - gap - LIST_MIN_ROWS;
    let preview = if PREVIEW_ROWS <= room { PREVIEW_ROWS } else { room };
    IndexLayout { list: height - gap - preview, gap, preview: Some(preview) }
}

/// How the list is ordered: the page API's own `sort` values.
#[derive(Clone, Copy, Debug, PartialEq, Eq, Structural, Default)]
pub enum SortKey {
    /// Most recently edited first.
    #[default]
    Updated,
    /// Most recently opened first.
    Accessed,
    /// Newest page first.
    Created,
    /// Most linked-to first.
    Linked,
    /// Most read first.
    Views,
    /// A to Z, ignoring case. The only ascending order here.
    Title,
}

pub open spec fn spec_sort_name(k: SortKey) -> Seq<char> {
    match k {
        SortKey::Updated => "updated"@,
        SortKey::Accessed => "accessed"@,
        SortKey::Created => "created"@,
        SortKey::Linked => "linked"@,
        SortKey::Views => "views"@,
        SortKey::Title => "title"@,
    }
}

/// The timestamp an order reads: `updated` for the orders that are not
/// about a time at all.
pub open spec fn spec_stamp_of(k: SortKey, e: Entry) -> i64 {
    match k {
        SortKey::Accessed => e.accessed,
        SortKey::Created => e.created,
        _ => e.updated,
    }
}

impl SortKey {
    /// Menu order, which is also the site's.
    pub const ALL: [SortKey; 6] = [
        SortKey::Updated,
        SortKey::Accessed,
        SortKey::Created,
        SortKey::Linked,
        SortKey::Views,
        SortKey::Title,
    ];

    /// The `sort=` value the pages API knows this by, which is also its
    /// label.
    pub fn name(self) -> (s: &'static str)
        ensures
            s@ == spec_sort_name(self),
    {
        match self {
            SortKey::Updated => "updated",
            SortKey::Accessed => "accessed",
            SortKey::Created => "created",
            SortKey::Linked => "linked",
            SortKey::Views => "views",
            SortKey::Title => "title",
        }
    }

    /// What the row's narrow column says under this order: the count being
    /// sorted on, or the age of the stamp being sorted on (which depends on
    /// the clock).
    pub fn column(self, e: &Entry) -> (s: String)
        ensures
            self == SortKey::Linked ==> s@ == spec_compact_count(e.linked as int),
            self == SortKey::Views ==> s@ == spec_compact_count(e.views as int),
            self != SortKey::Linked && self != SortKey::Views ==> exists|now: i64|
                s@ == spec_relative_age(spec_stamp_of(self, *e) as int, now as int),
    {
        match self {
            SortKey::Linked => compact_count(e.linked),
            SortKey::Views => compact_count(e.views),
            _ => relative_age(self.stamp(e)),
        }
    }

    /// The timestamp this order reads.
    pub fn stamp(self, e: &Entry) -> (t: i64)
        ensures
            t == spec_stamp_of(self, *e),
    {
        match self {
            SortKey::Accessed => e.accessed,
            SortKey::Created => e.created,
            _ => e.updated,
        }
    }
}

// ---------------------------------------------------------------------------
// Counts and ages
// ---------------------------------------------------------------------------

/// Tenths of `n / 1000` for `n` from 1000 to 9999, rounded the way a binary
/// floating-point division followed by one-decimal formatting rounds it:
/// to nearest, where a tie on the decimal is broken by which side of it the
/// binary quotient fell (`n · 2^(52-e) mod 1000`), and an exact tie to even.
pub open spec fn float_tenths(n: int) -> int {
    let q = n / 100;
    let rem = n % 100;
    let scale: int = if n < 2000 {
        4503599627370496
    } else if n < 4000 {
        2251799813685248
    } else if n < 8000 {
        1125899906842624
    } else {
        562949953421312
    };
    let r = (n * scale) % 1000;
    let fl = (n * scale) / 1000;
    if rem > 50 || (rem == 50 && (r > 500 || (r == 500 && fl % 2 == 1) || (r == 0 && q % 2 == 1))) {
        q + 1
    } else {
        q
    }
}

/// `1`, `86`, `1.2k`, `13k`, `4M`: a count in at most four columns. A
/// count from 1000 that rounds up to ten thousand reads `10k`, not `10.0k`.
pub open spec fn spec_compact_count(n: int) -> Seq<char> {
    if n <= 999 {
        dec_int(n)
    } else if n <= 9999 {
        let t = float_tenths(n);
        if t >= 100 {
            seq!['1', '0', 'k']
        } else {
            dec_str((t / 10) as nat) + seq!['.'] + dec_str((t % 10) as nat) + seq!['k']
        }
    } else if n <= 999_999 {
        dec_str((n / 1000) as nat) + seq!['k']
    } else {
        dec_str((n / 1_000_000) as nat) + seq!['M']
    }
}

/// A count in at most four columns.
pub fn compact_count(n: i64) -> (s: String)
    ensures
        s@ == spec_compact_count(n as int),
{
    proof {
        reveal_strlit("k");
        reveal_strlit("M");
        reveal_strlit(".");
    }
    if n <= 999 {
        int_to_decimal(n)
    } else if n <= 9999 {
        let m: u128 = n as u128;
        let q = m / 100;
        let rem = m % 100;
        let scale: u128 = if m < 2000 {
            4503599627370496
        } else if m < 4000 {
            2251799813685248
        } else if m < 8000 {
            1125899906842624
        } else {
            562949953421312
        };
        assert(m * scale < 100000000000000000000) by (nonlinear_arith)
            requires
                m <= 9999,
                scale <= 4503599627370496,
        ;
        let r = (m * scale) % 1000;
        let fl = (m * scale) / 1000;
        let t = if rem > 50 || (rem == 50 && (r > 500 || (r == 500 && fl % 2 == 1) || (r == 0 && q % 2
            == 1))) {
            q + 1
        } else {
            q
        };
        assert(t == float_tenths(n as int));
        if t >= 100 {
            proof {
                reveal_strlit("10k");
            }
            return "10k".to_string();
        }
        let mut s = to_decimal(t / 10);
        s.append(".");
        s.append(to_decimal(t % 10).as_str());
        s.append("k");
        s
    } else if n <= 999_999 {
        let mut s = to_decimal((n / 1000) as u128);
        s.append("k");
        s
    } else {
        let mut s = to_decimal((n / 1_000_000) as u128);
        s.append("M");
        s
    }
}

proof fn lemma_dec_str_short(n: nat)
    ensures
        n < 10 ==> dec_str(n).len() == 1,
        n < 100 ==> dec_str(n).len() <= 2,
        n < 1000 ==> dec_str(n).len() <= 3,
    decreases n,
{
    if n >= 10 {
        lemma_dec_str_short(n / 10);
    }
}

/// Every count from zero to just under a billion takes at most four
/// columns.
pub proof fn law_compact_count_fits_four_columns(n: int)
    requires
        0 <= n < 1_000_000_000,
    ensures
        spec_compact_count(n).len() <= 4,
{
    if n <= 999 {
        lemma_dec_str_short(n as nat);
    } else if n <= 9999 {
        let t = float_tenths(n);
        assert(n / 100 <= 99);
        assert(t <= 100);
        if t < 100 {
            lemma_dec_str_short((t / 10) as nat);
            lemma_dec_str_short((t % 10) as nat);
        }
    } else if n <= 999_999 {
        lemma_dec_str_short((n / 1000) as nat);
    } else {
        lemma_dec_str_short((n / 1_000_000) as nat);
    }
}

/// `3m` / `2h` / `5d` style age of `stamp` at `now`; nothing for a zero
/// (unfilled) stamp.
pub open spec fn spec_relative_age(stamp: int, now: int) -> Seq<char> {
    if stamp <= 0 {
        Seq::empty()
    } else {
        let secs = if now - stamp > 0 { now - stamp } else { 0 };
        if secs < 60 {
            dec_str(secs as nat) + seq!['s']
        } else if secs < 3600 {
            dec_str((secs / 60) as nat) + seq!['m']
        } else if secs < 86_400 {
            dec_str((secs / 3600) as nat) + seq!['h']
        } else if secs < 86_400 * 365 {
            dec_str((secs / 86_400) as nat) + seq!['d']
        } else {
            dec_str((secs / 31_536_000int) as nat) + seq!['y']
        }
    }
}

/// The age of `stamp` at the moment `now`.
pub fn relative_age_at(stamp: i64, now: i64) -> (s: String)
    ensures
        s@ == spec_relative_age(stamp as int, now as int),
{
    if stamp <= 0 {
        return String::new();
    }
    proof {
        reveal_strlit("s");
        reveal_strlit("m");
        reveal_strlit("h");
        reveal_strlit("d");
        reveal_strlit("y");
    }
    let d: i128 = now as i128 - stamp as i128;
    let secs: u128 = if d > 0 { d as u128 } else { 0 };
    let (v, unit) = if secs < 60 {
        (secs, "s")
    } else if secs < 3600 {
        (secs / 60, "m")
    } else if secs < 86_400 {
        (secs / 3600, "h")
    } else if secs < 86_400 * 365 {
        (secs / 86_400, "d")
    } else {
        (secs / (86_400 * 365), "y")
    };
    let mut s = to_decimal(v);
    s.append(unit);
    s
}

/// "3m" / "2h" / "5d" style age from an epoch-seconds timestamp, against the
/// clock. A zero stamp has no age to report.
pub fn relative_age(stamp: i64) -> (s: String)
    ensures
        exists|now: i64| s@ == spec_relative_age(stamp as int, now as int),
        stamp <= 0 ==> s@.len() == 0,
{
    let now = now_secs();
    relative_age_at(stamp, now)
}

// ---------------------------------------------------------------------------
// Entries
// ---------------------------------------------------------------------------

/// One page in the index.
#[derive(Clone, Debug, Default, PartialEq, Eq)]
pub struct Entry {
    pub title: String,
    /// Server-side mtime (epoch seconds).
    pub updated: i64,
    /// When the page was created, and when anyone last opened it.
    pub created: i64,
    pub accessed: i64,
    /// How many pages link here, and how often it has been read.
    pub linked: i64,
    pub views: i64,
    /// The first few lines, as the list API hands them over: the excerpt.
    pub descriptions: Vec<String>,
    /// Has this page changed since it was last seen here?
    pub unread: bool,
    /// The words a full-text search matched on this page; empty for a row
    /// from the page list.
    pub matched: Vec<String>,
}

/// A page is unread until it has been seen since its last edit.
pub open spec fn spec_unread(updated: i64, seen_at: Option<i64>) -> bool {
    match seen_at {
        Some(seen) => updated > seen,
        None => true,
    }
}

impl Entry {
    /// One full-text hit as a list row: its excerpt is the matched lines,
    /// and the search endpoint does not report `accessed`.
    pub fn from_search(r: SearchResult, seen_at: Option<i64>) -> (e: Self)
        ensures
            e.unread == spec_unread(r.updated, seen_at),
            e.title == r.title,
            e.updated == r.updated,
            e.created == r.created,
            e.accessed == 0,
            e.linked == r.linked,
            e.views == r.views,
            e.descriptions == r.lines,
            e.matched == r.words,
    {
        let unread = match seen_at {
            Some(seen) => r.updated > seen,
            None => true,
        };
        Entry {
            unread,
            title: r.title,
            updated: r.updated,
            created: r.created,
            accessed: 0,
            linked: r.linked,
            views: r.views,
            descriptions: r.lines,
            matched: r.words,
        }
    }

    /// One listed page as a row; a listed page matched nothing.
    pub fn from_summary(p: PageSummary, seen_at: Option<i64>) -> (e: Self)
        ensures
            e.unread == spec_unread(p.updated, seen_at),
            e.title == p.title,
            e.updated == p.updated,
            e.created == p.created,
            e.accessed == p.accessed,
            e.linked == p.linked,
            e.views == p.views,
            e.descriptions == p.descriptions,
            e.matched@.len() == 0,
    {
        let unread = match seen_at {
            Some(seen) => p.updated > seen,
            None => true,
        };
        Entry {
            unread,
            title: p.title,
            updated: p.updated,
            created: p.created,
            accessed: p.accessed,
            linked: p.linked,
            views: p.views,
            descriptions: p.descriptions,
            matched: Vec::new(),
        }
    }
}

// ---------------------------------------------------------------------------
// The index
// ---------------------------------------------------------------------------

/// What the index is showing, and where the reader is in it.
#[derive(Clone, Debug, Default, PartialEq, Eq)]
pub struct Index {
    /// Every page of the project, in list order. Filtering never reorders.
    pub entries: Vec<Entry>,
    /// What has been typed. Empty = the whole project.
    pub filter: String,
    /// What the open line searches.
    pub filter_mode: FilterMode,
    /// May this credential write in the listed project? `false` hides the
    /// create row; a list that has not been told promises nothing.
    pub can_create: bool,
    /// The hit list was cut off by the search endpoint's limit.
    pub search_capped: bool,
    /// The full-text query these entries are the results of, when they are.
    pub search: Option<String>,
    /// Is the filter line open for typing?
    pub filter_editing: bool,
    /// Cursor over the filtered rows.
    pub cursor: usize,
    /// First visible row of the list.
    pub scroll: usize,
    pub focus: Pane,
    /// Keep the cursor in view on the next frame.
    pub follow: bool,
    /// Preview scroll, in rows.
    pub preview_scroll: u16,
    /// How many pages the project has, when the API said so.
    pub total: usize,
    /// How the list is ordered.
    pub sort: SortKey,
}

/// A row of the list: a page, or the offer to create what was typed.
#[derive(Clone, Copy, Debug, PartialEq, Eq)]
pub enum Row<'a> {
    Page(&'a Entry),
    /// Nothing is named this yet; Enter writes it.
    Create(&'a str),
}

/// A row as the contracts see it: the index of a page, or a name to create.
pub enum RowModel {
    Page(int),
    Create(Seq<char>),
}

/// A full-text query is being typed: the list is not narrowed by it.
pub open spec fn search_typing(ix: Index) -> bool {
    ix.filter_editing && ix.filter_mode == FilterMode::FullText
}

/// What the titles are matched against: the typed text, trimmed and
/// lowercased.
pub open spec fn title_needle(ix: Index) -> Seq<char> {
    lowercase(spec_trim(ix.filter@))
}

/// Case-insensitive substring match on the title.
pub open spec fn title_matches(title: Seq<char>, needle: Seq<char>) -> bool {
    needle.len() == 0 || contains_seq(lowercase(title), needle)
}

/// The positions below `k` of the entries whose titles match, in order.
pub open spec fn shown_upto(es: Seq<Entry>, needle: Seq<char>, k: int) -> Seq<int>
    decreases k,
{
    if k <= 0 {
        Seq::empty()
    } else {
        let rest = shown_upto(es, needle, k - 1);
        if title_matches(es[k - 1].title@, needle) {
            rest.push(k - 1)
        } else {
            rest
        }
    }
}

/// The list offers to create what was typed: only where a page could be
/// written, not for a query, not for blank text, and not when a title
/// already is that name (ignoring ASCII case).
pub open spec fn spec_offers_create(ix: Index) -> bool {
    &&& ix.can_create
    &&& !search_typing(ix)
    &&& spec_trim(ix.filter@).len() > 0
    &&& !exists|i: int|
        0 <= i < ix.entries@.len() && eq_ignore_ascii_case(
            #[trigger] ix.entries@[i].title@,
            spec_trim(ix.filter@),
        )
}

/// The rows: every page while a query is typed; otherwise the pages whose
/// titles match, in list order, then the create offer.
pub open spec fn spec_rows(ix: Index) -> Seq<RowModel> {
    if search_typing(ix) {
        Seq::new(ix.entries@.len(), |i: int| RowModel::Page(i))
    } else {
        let pages = shown_upto(ix.entries@, title_needle(ix), ix.entries@.len() as int).map_values(
            |k: int| RowModel::Page(k),
        );
        if spec_offers_create(ix) {
            pages.push(RowModel::Create(spec_trim(ix.filter@)))
        } else {
            pages
        }
    }
}

pub open spec fn row_is(ix: Index, r: Row, m: RowModel) -> bool {
    match m {
        RowModel::Page(k) => r is Page && 0 <= k < ix.entries@.len() && *r->Page_0
            == ix.entries@[k],
        RowModel::Create(t) => r is Create && r->Create_0@ == t,
    }
}

pub open spec fn spec_len(ix: Index) -> nat {
    spec_rows(ix).len()
}

/// Everything that decides the rows is the same in `a` and `b`.
pub open spec fn same_list(a: Index, b: Index) -> bool {
    &&& a.entries == b.entries
    &&& a.filter == b.filter
    &&& a.filter_mode == b.filter_mode
    &&& a.can_create == b.can_create
    &&& a.filter_editing == b.filter_editing
}

/// Keep `v` within `lo..=hi`.
pub open spec fn clamp(v: int, lo: int, hi: int) -> int {
    if v < lo {
        lo
    } else if v > hi {
        hi
    } else {
        v
    }
}

proof fn lemma_shown_upto(es: Seq<Entry>, needle: Seq<char>, k: int)
    requires
        0 <= k <= es.len(),
    ensures
        shown_upto(es, needle, k).len() <= k,
        forall|j: int|
            0 <= j < shown_upto(es, needle, k).len() ==> 0 <= #[trigger] shown_upto(es, needle, k)[j]
                < k,
    decreases k,
{
    if k > 0 {
        lemma_shown_upto(es, needle, k - 1);
    }
}

/// The shown positions climb, and every matching position below `k` is
/// among them.
proof fn lemma_shown_upto_order(es: Seq<Entry>, needle: Seq<char>, k: int)
    requires
        0 <= k <= es.len(),
    ensures
        forall|a: int, b: int| 0 <= a < b < shown_upto(es, needle, k).len()
            ==> (#[trigger] shown_upto(es, needle, k)[a]) < (#[trigger] shown_upto(es, needle, k)[b]),
        forall|p: int| 0 <= p < k && title_matches((#[trigger] es[p]).title@, needle)
            ==> shown_upto(es, needle, k).contains(p),
    decreases k,
{
    if k > 0 {
        lemma_shown_upto_order(es, needle, k - 1);
        lemma_shown_upto(es, needle, k - 1);
        let rest = shown_upto(es, needle, k - 1);
        let cur = shown_upto(es, needle, k);
        assert forall|p: int| 0 <= p < k && title_matches((#[trigger] es[p]).title@, needle) implies cur.contains(p) by {
            if p < k - 1 {
                assert(rest.contains(p));
                let q = choose|q: int| 0 <= q < rest.len() && rest[q] == p;
                assert(cur[q] == p);
            } else {
                assert(cur[rest.len() as int] == p);
            }
        }
    }
}

/// Filtering never reorders: the rows under any filter are pages of the
/// list in list order, each matching page among them, with the offer to
/// create (if any) after every page.
pub proof fn law_filter_keeps_list_order(ix: Index)
    ensures
        forall|a: int, b: int| 0 <= a < b < spec_rows(ix).len() && (#[trigger] spec_rows(ix)[a]) is Page
            && (#[trigger] spec_rows(ix)[b]) is Page ==> spec_rows(ix)[a]->Page_0 < spec_rows(ix)[b]->Page_0,
        forall|a: int| 0 <= a < spec_rows(ix).len() && (#[trigger] spec_rows(ix)[a]) is Page
            ==> 0 <= spec_rows(ix)[a]->Page_0 < ix.entries@.len(),
        forall|a: int| 0 <= a < spec_rows(ix).len() - 1 ==> (#[trigger] spec_rows(ix)[a]) is Page,
        forall|p: int| 0 <= p < ix.entries@.len()
            && (search_typing(ix) || title_matches((#[trigger] ix.entries@[p]).title@, title_needle(ix)))
            ==> spec_rows(ix).contains(RowModel::Page(p)),
{
    let es = ix.entries@;
    let rows = spec_rows(ix);
    if search_typing(ix) {
        assert forall|p: int| 0 <= p < es.len() implies rows.contains(RowModel::Page(p)) by {
            assert(rows[p] == RowModel::Page(p));
        }
    } else {
        let needle = title_needle(ix);
        let sh = shown_upto(es, needle, es.len() as int);
        lemma_shown_upto(es, needle, es.len() as int);
        lemma_shown_upto_order(es, needle, es.len() as int);
        let pages = sh.map_values(|k: int| RowModel::Page(k));
        assert(rows.len() >= pages.len());
        assert forall|a: int| 0 <= a < pages.len() implies #[trigger] rows[a] == pages[a] by {}
        assert forall|p: int| 0 <= p < es.len() && title_matches((#[trigger] es[p]).title@, needle)
            implies rows.contains(RowModel::Page(p)) by {
            assert(sh.contains(p));
            let q = choose|q: int| 0 <= q < sh.len() && sh[q] == p;
            assert(rows[q] == RowModel::Page(p));
        }
        assert forall|a: int, b: int| 0 <= a < b < rows.len() && (#[trigger] rows[a]) is Page
            && (#[trigger] rows[b]) is Page implies rows[a]->Page_0 < rows[b]->Page_0 by {
            assert(b < pages.len());
            assert(rows[a] == pages[a] && rows[b] == pages[b]);
            assert(sh[a] < sh[b]);
        }
    }
}

/// The same text, case-insensitive: whether `needle` occurs in the
/// lowercased `title`.
fn title_matches_exec(title: &str, needle: &str) -> (b: bool)
    ensures
        b == title_matches(title@, needle@),
{
    if needle.is_empty() {
        return true;
    }
    let lower = to_lowercase(title);
    contains_str(lower.as_str(), needle)
}

impl Index {
    pub fn new(entries: Vec<Entry>, total: usize, sort: SortKey) -> (ix: Self)
        ensures
            ix.entries == entries,
            ix.total == total,
            ix.sort == sort,
            ix.filter@.len() == 0,
            ix.filter_mode == FilterMode::Title,
            !ix.can_create,
            !ix.search_capped,
            ix.search is None,
            !ix.filter_editing,
            ix.cursor == 0,
            ix.scroll == 0,
            ix.focus == Pane::List,
            ix.follow,
            ix.preview_scroll == 0,
    {
        Index {
            entries,
            filter: String::new(),
            filter_mode: FilterMode::Title,
            can_create: false,
            search_capped: false,
            search: None,
            filter_editing: false,
            cursor: 0,
            scroll: 0,
            focus: Pane::List,
            follow: true,
            preview_scroll: 0,
            total,
            sort,
        }
    }

    /// Rows matching the filter, in list order, with the create offer last
    /// when the typed name is not a page. Matching is case-insensitive
    /// substring, on the title only.
    pub fn rows(&self) -> (rows: Vec<Row<'_>>)
        ensures
            rows.len() == spec_rows(*self).len(),
            forall|i: int| 0 <= i < rows.len() ==> row_is(*self, #[trigger] rows@[i], spec_rows(*self)[i]),
    {
        let mut rows: Vec<Row<'_>> = Vec::new();
        if self.filter_editing && self.filter_mode == FilterMode::FullText {
            let mut i: usize = 0;
            while i < self.entries.len()
                invariant
                    i <= self.entries.len(),
                    search_typing(*self),
                    rows.len() == i,
                    forall|k: int| 0 <= k < i ==> row_is(*self, #[trigger] rows@[k], RowModel::Page(k)),
                decreases self.entries.len() - i,
            {
                rows.push(Row::Page(&self.entries[i]));
                i += 1;
            }
            return rows;
        }
        let typed = trim_slice(self.filter.as_str());
        let needle = to_lowercase(typed);
        let ghost es = self.entries@;
        let mut i: usize = 0;
        while i < self.entries.len()
            invariant
                i <= self.entries.len(),
                es == self.entries@,
                needle@ == title_needle(*self),
                rows.len() == shown_upto(es, needle@, i as int).len(),
                forall|k: int|
                    0 <= k < rows.len() ==> row_is(
                        *self,
                        #[trigger] rows@[k],
                        RowModel::Page(shown_upto(es, needle@, i as int)[k]),
                    ),
            decreases self.entries.len() - i,
        {
            proof {
                lemma_shown_upto(es, needle@, i as int);
            }
            if title_matches_exec(self.entries[i].title.as_str(), needle.as_str()) {
                rows.push(Row::Page(&self.entries[i]));
            }
            i += 1;
        }
        proof {
            lemma_shown_upto(es, needle@, es.len() as int);
        }
        if self.offers_create() {
            rows.push(Row::Create(typed));
        }
        rows
    }

    /// Does the list offer to create what was typed? Only when nothing is
    /// named that already, and only where a page could be written.
    pub fn offers_create(&self) -> (b: bool)
        ensures
            b == spec_offers_create(*self),
    {
        if !self.can_create {
            return false;
        }
        if self.filter_editing && self.filter_mode == FilterMode::FullText {
            return false;
        }
        let typed = trim_slice(self.filter.as_str());
        if typed.is_empty() {
            return false;
        }
        let mut i: usize = 0;
        while i < self.entries.len()
            invariant
                i <= self.entries.len(),
                typed@ == spec_trim(self.filter@),
                forall|k: int|
                    0 <= k < i ==> !eq_ignore_ascii_case(#[trigger] self.entries@[k].title@, typed@),
            decreases self.entries.len() - i,
        {
            if eq_ignore_case(self.entries[i].title.as_str(), typed) {
                return false;
            }
            i += 1;
        }
        true
    }

    /// The entry under the cursor, if the cursor is on a page.
    pub fn selected(&self) -> (r: Option<&Entry>)
        ensures
            match r {
                Some(e) => self.cursor < spec_len(*self) && spec_rows(*self)[self.cursor as int] is Page
                    && *e == self.entries@[spec_rows(*self)[self.cursor as int]->Page_0],
                None => !(self.cursor < spec_len(*self) && spec_rows(*self)[self.cursor as int] is Page),
            },
    {
        let rows = self.rows();
        if self.cursor < rows.len() {
            let r = rows[self.cursor];
            assert(row_is(*self, rows@[self.cursor as int], spec_rows(*self)[self.cursor as int]));
            match r {
                Row::Page(e) => Some(e),
                Row::Create(_) => None,
            }
        } else {
            None
        }
    }

    pub fn len(&self) -> (n: usize)
        ensures
            n == spec_len(*self),
    {
        self.rows().len()
    }

    pub fn is_empty(&self) -> (b: bool)
        ensures
            b == (spec_len(*self) == 0),
    {
        self.rows().len() == 0
    }

    /// Move the cursor by `delta` rows, stopping at the ends. Returns
    /// whether the cursor moved; a move starts the new preview at its top.
    pub fn move_cursor(&mut self, delta: i32) -> (moved: bool)
        ensures
            spec_len(*old(self)) == 0 ==> !moved && *final(self) == *old(self),
            spec_len(*old(self)) > 0 ==> {
                let want = clamp(old(self).cursor + delta, 0, spec_len(*old(self)) - 1);
                &&& final(self).cursor == want
                &&& moved == (want != old(self).cursor)
                &&& *final(self) == (Index {
                    cursor: final(self).cursor,
                    follow: true,
                    preview_scroll: if moved { 0 } else { old(self).preview_scroll },
                    ..*old(self)
                })
            },
    {
        let n = self.len();
        if n == 0 {
            return false;
        }
        let v: i128 = self.cursor as i128 + delta as i128;
        let want: usize = if v < 0 {
            0
        } else if v > (n - 1) as i128 {
            n - 1
        } else {
            v as usize
        };
        let moved = want != self.cursor;
        self.cursor = want;
        self.follow = true;
        if moved {
            self.preview_scroll = 0;
        }
        moved
    }

    /// Open the filter line for typing.
    pub fn begin_filter(&mut self)
        ensures
            *final(self) == (Index { filter_editing: true, ..*old(self) }),
    {
        self.filter_editing = true;
    }

    /// Keep what was typed and hand the keys back to the list.
    pub fn commit_filter(&mut self)
        ensures
            *final(self) == (Index { filter_editing: false, ..*old(self) }),
    {
        self.filter_editing = false;
    }

    /// Drop the filter and close the line.
    pub fn cancel_filter(&mut self)
        ensures
            final(self).filter@.len() == 0,
            *final(self) == (Index {
                filter_editing: false,
                filter: final(self).filter,
                cursor: 0,
                scroll: 0,
                preview_scroll: 0,
                follow: true,
                ..*old(self)
            }),
    {
        self.filter_editing = false;
        self.set_filter(String::new());
    }

    /// Swap what the open line is asking for; the typed word is kept and
    /// the cursor goes back to the top.
    pub fn toggle_filter_mode(&mut self)
        ensures
            *final(self) == (Index {
                filter_mode: spec_toggled(old(self).filter_mode),
                cursor: 0,
                scroll: 0,
                preview_scroll: 0,
                follow: true,
                ..*old(self)
            }),
    {
        self.filter_mode = self.filter_mode.toggled();
        self.cursor = 0;
        self.scroll = 0;
        self.preview_scroll = 0;
        self.follow = true;
    }

    /// Is the list on screen a set of full-text hits?
    pub fn is_search(&self) -> (b: bool)
        ensures
            b == self.search is Some,
    {
        self.search.is_some()
    }

    /// What to mark in `e`'s row and excerpt: the words a hit matched; the
    /// typed text of a narrowed list; nothing while a query is typed.
    pub fn terms_for<'a>(&'a self, e: &'a Entry) -> (terms: Vec<&'a str>)
        ensures
            e.matched@.len() > 0 ==> terms.len() == e.matched@.len() && forall|i: int|
                0 <= i < terms.len() ==> #[trigger] terms@[i]@ == e.matched@[i]@,
            e.matched@.len() == 0 && search_typing(*self) ==> terms.len() == 0,
            e.matched@.len() == 0 && !search_typing(*self) ==> (if spec_trim(self.filter@).len() == 0 {
                terms.len() == 0
            } else {
                terms.len() == 1 && terms@[0]@ == spec_trim(self.filter@)
            }),
    {
        let mut terms: Vec<&'a str> = Vec::new();
        if e.matched.len() > 0 {
            let mut i: usize = 0;
            while i < e.matched.len()
                invariant
                    i <= e.matched.len(),
                    terms.len() == i,
                    forall|k: int| 0 <= k < i ==> #[trigger] terms@[k]@ == e.matched@[k]@,
                decreases e.matched.len() - i,
            {
                terms.push(e.matched[i].as_str());
                i += 1;
            }
            return terms;
        }
        if self.filter_editing && self.filter_mode == FilterMode::FullText {
            return terms;
        }
        let typed = trim_slice(self.filter.as_str());
        if !typed.is_empty() {
            terms.push(typed);
        }
        terms
    }

    /// Type one character into the filter.
    pub fn push_filter(&mut self, c: char)
        ensures
            final(self).filter@ == old(self).filter@.push(c),
            *final(self) == (Index {
                filter: final(self).filter,
                cursor: 0,
                scroll: 0,
                preview_scroll: 0,
                follow: true,
                ..*old(self)
            }),
    {
        let mut cs = chars_of(self.filter.as_str());
        cs.push(c);
        let f = string_of(cs.as_slice());
        self.set_filter(f);
    }

    /// Delete the last character of the filter, if any.
    pub fn pop_filter(&mut self)
        ensures
            final(self).filter@ == (if old(self).filter@.len() == 0 {
                old(self).filter@
            } else {
                old(self).filter@.drop_last()
            }),
            *final(self) == (Index {
                filter: final(self).filter,
                cursor: 0,
                scroll: 0,
                preview_scroll: 0,
                follow: true,
                ..*old(self)
            }),
    {
        let mut cs = chars_of(self.filter.as_str());
        if cs.len() > 0 {
            cs.pop();
        }
        let f = string_of(cs.as_slice());
        self.set_filter(f);
    }

    /// Typing narrows the list under the cursor, so the cursor goes back to
    /// the top: the first match is what a filter is for.
    pub fn set_filter(&mut self, filter: String)
        ensures
            *final(self) == (Index {
                filter: filter,
                cursor: 0,
                scroll: 0,
                preview_scroll: 0,
                follow: true,
                ..*old(self)
            }),
    {
        self.filter = filter;
        self.cursor = 0;
        self.scroll = 0;
        self.preview_scroll = 0;
        self.follow = true;
    }

    /// Wheel: move the window by `delta` rows and leave the cursor alone,
    /// up to the last full window. Returns whether anything moved.
    pub fn scroll_by(&mut self, delta: i32, height: usize) -> (moved: bool)
        ensures
            ({
                let n = spec_len(*old(self)) as int;
                let h = if height >= 1 { height as int } else { 1 };
                let max = if n > h { n - h } else { 0 };
                let want = clamp(old(self).scroll + delta, 0, max);
                &&& final(self).scroll == want
                &&& moved == (want != old(self).scroll)
                &&& *final(self) == (Index { scroll: final(self).scroll, follow: false, ..*old(self) })
            }),
    {
        let n = self.len();
        let h = if height >= 1 { height } else { 1 };
        let max: usize = if n > h { n - h } else { 0 };
        let v: i128 = self.scroll as i128 + delta as i128;
        let want: usize = if v < 0 {
            0
        } else if v > max as i128 {
            max
        } else {
            v as usize
        };
        let moved = want != self.scroll;
        self.scroll = want;
        self.follow = false;
        moved
    }

    /// Keep the cursor inside the list and inside the window of `height`
    /// rows, returning the scroll offset to draw at. A cursor that walked
    /// off the bottom pulls the window down by exactly what it needs; a
    /// list scrolled away with the wheel only keeps its window inside the
    /// list.
    pub fn follow(&mut self, height: usize) -> (top: usize)
        ensures
            top == final(self).scroll,
            ({
                let n = spec_len(*old(self)) as int;
                let h = height as int;
                let last_window = if n > h { n - h } else { 0 };
                if n == 0 || h == 0 {
                    *final(self) == (Index { scroll: 0, ..*old(self) })
                } else {
                    let cur = if old(self).cursor < n - 1 { old(self).cursor as int } else { n - 1 };
                    let pulled = if !old(self).follow {
                        old(self).scroll as int
                    } else if cur < old(self).scroll {
                        cur
                    } else if cur >= old(self).scroll + h {
                        cur + 1 - h
                    } else {
                        old(self).scroll as int
                    };
                    &&& final(self).cursor == cur
                    &&& final(self).scroll == (if pulled < last_window { pulled } else { last_window })
                    &&& *final(self) == (Index {
                        cursor: final(self).cursor,
                        scroll: final(self).scroll,
                        ..*old(self)
                    })
                }
            }),
            // the cursor ends inside the list, and, when the window
            // follows it, inside the window
            spec_len(*old(self)) > 0 && height > 0 ==> final(self).cursor < spec_len(*old(self)),
    {
        let n = self.len();
        if n == 0 || height == 0 {
            self.scroll = 0;
            return 0;
        }
        if self.cursor > n - 1 {
            self.cursor = n - 1;
        }
        let last_window: usize = if n > height { n - height } else { 0 };
        if !self.follow {
            if self.scroll > last_window {
                self.scroll = last_window;
            }
            return self.scroll;
        }
        if self.cursor < self.scroll {
            self.scroll = self.cursor;
        } else if self.cursor - self.scroll >= height {
            self.scroll = self.cursor + 1 - height;
        }
        if self.scroll > last_window {
            self.scroll = last_window;
        }
        self.scroll
    }
}

// ---------------------------------------------------------------------------
// Ordering
// ---------------------------------------------------------------------------

/// `a` comes before `b` under `sort`: A to Z on the lowercased title for
/// `title`, larger first for the counts and the stamps.
pub open spec fn entry_before(sort: SortKey, a: Entry, b: Entry) -> bool {
    match sort {
        SortKey::Title => seq_less(lowercase(a.title@), lowercase(b.title@)),
        SortKey::Linked => a.linked > b.linked,
        SortKey::Views => a.views > b.views,
        _ => spec_stamp_of(sort, a) > spec_stamp_of(sort, b),
    }
}

/// Position `i` comes before `j`: by the order, and by place when neither
/// comes first (the sort is stable).
pub open spec fn place_before(es: Seq<Entry>, sort: SortKey, i: int, j: int) -> bool {
    entry_before(sort, es[i], es[j]) || (!entry_before(sort, es[j], es[i]) && i < j)
}

/// `ord` lists every position of `es` once, in `sort` order.
pub open spec fn sorted_order(es: Seq<Entry>, sort: SortKey, ord: Seq<int>) -> bool {
    &&& ord.len() == es.len()
    &&& forall|k: int| 0 <= k < ord.len() ==> 0 <= #[trigger] ord[k] < es.len()
    &&& forall|k: int, l: int|
        0 <= k < l < ord.len() ==> place_before(es, sort, #[trigger] ord[k], #[trigger] ord[l])
}

proof fn lemma_entry_before(sort: SortKey, a: Entry, b: Entry, c: Entry)
    ensures
        !entry_before(sort, a, a),
        entry_before(sort, a, b) ==> !entry_before(sort, b, a),
        entry_before(sort, a, b) && entry_before(sort, b, c) ==> entry_before(sort, a, c),
        !entry_before(sort, a, b) && !entry_before(sort, b, c) ==> !entry_before(sort, a, c),
{
    lemma_seq_less_asym(lowercase(a.title@), lowercase(b.title@));
    lemma_seq_less_asym(lowercase(b.title@), lowercase(c.title@));
    lemma_seq_less_total(lowercase(a.title@), lowercase(b.title@));
    lemma_seq_less_total(lowercase(b.title@), lowercase(c.title@));
    lemma_seq_less_total(lowercase(a.title@), lowercase(c.title@));
    if seq_less(lowercase(a.title@), lowercase(b.title@)) && seq_less(
        lowercase(b.title@),
        lowercase(c.title@),
    ) {
        lemma_seq_less_trans(lowercase(a.title@), lowercase(b.title@), lowercase(c.title@));
    }
    if seq_less(lowercase(a.title@), lowercase(c.title@)) && seq_less(
        lowercase(c.title@),
        lowercase(b.title@),
    ) {
        lemma_seq_less_trans(lowercase(a.title@), lowercase(c.title@), lowercase(b.title@));
    }
    if seq_less(lowercase(b.title@), lowercase(a.title@)) && seq_less(
        lowercase(a.title@),
        lowercase(c.title@),
    ) {
        lemma_seq_less_trans(lowercase(b.title@), lowercase(a.title@), lowercase(c.title@));
    }
}

proof fn lemma_place_before_trans(es: Seq<Entry>, sort: SortKey, i: int, j: int, k: int)
    requires
        0 <= i < es.len(),
        0 <= j < es.len(),
        0 <= k < es.len(),
        place_before(es, sort, i, j),
        place_before(es, sort, j, k),
    ensures
        place_before(es, sort, i, k),
{
    lemma_entry_before(sort, es[i], es[j], es[k]);
    lemma_entry_before(sort, es[k], es[j], es[i]);
    lemma_entry_before(sort, es[j], es[k], es[i]);
    lemma_entry_before(sort, es[i], es[k], es[j]);
    lemma_entry_before(sort, es[k], es[i], es[j]);
    lemma_entry_before(sort, es[j], es[i], es[k]);
}

/// Does `a` come before `b` under `sort`? `ka` and `kb` are their
/// lowercased titles.
fn entry_less(sort: SortKey, a: &Entry, b: &Entry, ka: &Vec<char>, kb: &Vec<char>) -> (r: bool)
    requires
        ka@ == lowercase(a.title@),
        kb@ == lowercase(b.title@),
    ensures
        r == entry_before(sort, *a, *b),
{
    match sort {
        SortKey::Title => chars_less(ka.as_slice(), kb.as_slice()),
        SortKey::Linked => a.linked > b.linked,
        SortKey::Views => a.views > b.views,
        _ => sort.stamp(a) > sort.stamp(b),
    }
}

/// The positions of `es` in `sort` order (a stable insertion sort).
fn sort_positions(es: &Vec<Entry>, sort: SortKey) -> (ord: Vec<usize>)
    ensures
        sorted_order(es@, sort, ord@.map_values(|k: usize| k as int)),
        forall|k: int, l: int| 0 <= k < l < ord.len() ==> ord@[k] != ord@[l],
{
    let mut keys: Vec<Vec<char>> = Vec::new();
    let mut q: usize = 0;
    while q < es.len()
        invariant
            q <= es.len(),
            keys.len() == q,
            forall|k: int| 0 <= k < q ==> (#[trigger] keys@[k])@ == lowercase(es@[k].title@),
        decreases es.len() - q,
    {
        let low = to_lowercase(es[q].title.as_str());
        keys.push(chars_of(low.as_str()));
        q += 1;
    }
    let mut ord: Vec<usize> = Vec::new();
    let mut i: usize = 0;
    while i < es.len()
        invariant
            i <= es.len() == keys.len(),
            forall|k: int| 0 <= k < es.len() ==> (#[trigger] keys@[k])@ == lowercase(es@[k].title@),
            ord.len() == i,
            forall|k: int| 0 <= k < ord.len() ==> #[trigger] ord@[k] < i,
            forall|k: int, l: int| 0 <= k < l < ord.len() ==> ord@[k] != ord@[l],
            forall|k: int, l: int|
                0 <= k < l < ord.len() ==> place_before(es@, sort, #[trigger] ord@[k] as int, #[trigger] ord@[l] as int),
        decreases es.len() - i,
    {
        let mut j: usize = ord.len();
        while j > 0 && entry_less(sort, &es[i], &es[ord[j - 1]], &keys[i], &keys[ord[j - 1]])
            invariant
                j <= ord.len() == i < es.len() == keys.len(),
                forall|k: int| 0 <= k < es.len() ==> (#[trigger] keys@[k])@ == lowercase(es@[k].title@),
                forall|k: int| 0 <= k < ord.len() ==> #[trigger] ord@[k] < i,
                forall|k: int| j <= k < ord.len() ==> entry_before(sort, es@[i as int], es@[#[trigger] ord@[k] as int]),
            decreases j,
        {
            j -= 1;
        }
        proof {
            if j > 0 {
                let p = ord@[j - 1] as int;
                lemma_entry_before(sort, es@[i as int], es@[p], es@[p]);
                assert(place_before(es@, sort, p, i as int));
                assert forall|k: int| 0 <= k < j - 1 implies place_before(es@, sort, ord@[k] as int, i as int) by {
                    assert(place_before(es@, sort, ord@[k] as int, p));
                    lemma_place_before_trans(es@, sort, ord@[k] as int, p, i as int);
                }
            }
        }
        let ghost old_ord = ord@;
        ord.insert(j, i);
        proof {
            assert forall|k: int, l: int|
                0 <= k < l < ord.len() implies place_before(es@, sort, #[trigger] ord@[k] as int, #[trigger] ord@[l] as int) by {
                if k < j && l < j {
                    assert(ord@[k] == old_ord[k] && ord@[l] == old_ord[l]);
                } else if k < j && l == j {
                } else if k < j {
                    assert(ord@[l] == old_ord[l - 1]);
                    assert(place_before(es@, sort, old_ord[k] as int, i as int));
                } else if k == j {
                    assert(ord@[l] == old_ord[l - 1]);
                    assert(entry_before(sort, es@[i as int], es@[old_ord[l - 1] as int]));
                } else {
                    assert(ord@[k] == old_ord[k - 1] && ord@[l] == old_ord[l - 1]);
                }
            }
            assert forall|k: int, l: int| 0 <= k < l < ord.len() implies ord@[k] != ord@[l] by {
                if k < j && l < j {
                    assert(ord@[k] == old_ord[k] && ord@[l] == old_ord[l]);
                } else if k < j && l > j {
                    assert(ord@[k] == old_ord[k] && ord@[l] == old_ord[l - 1]);
                } else if k > j {
                    assert(ord@[k] == old_ord[k - 1] && ord@[l] == old_ord[l - 1]);
                } else if k == j {
                    assert(ord@[l] == old_ord[l - 1]);
                } else {
                    assert(ord@[k] == old_ord[k]);
                }
            }
            assert forall|k: int| 0 <= k < ord.len() implies #[trigger] ord@[k] < i + 1 by {
                if k < j {
                    assert(ord@[k] == old_ord[k]);
                } else if k > j {
                    assert(ord@[k] == old_ord[k - 1]);
                }
            }
        }
        i += 1;
    }
    let ghost m = ord@.map_values(|k: usize| k as int);
    assert forall|k: int, l: int| 0 <= k < l < m.len() implies place_before(es@, sort, #[trigger] m[k], #[trigger] m[l]) by {
        assert(m[k] == ord@[k] as int && m[l] == ord@[l] as int);
    }
    ord
}

impl Index {
    /// Put `entries` in `sort` order. The API floats pinned pages to the
    /// top of every order, so the order is re-imposed here, on the key the
    /// server was asked for: A to Z ignoring case for `title`, largest first
    /// for every other key, and list order among equals.
    pub fn sort_entries(entries: &mut Vec<Entry>, sort: SortKey)
        ensures
            exists|ord: Seq<int>|
                sorted_order(old(entries)@, sort, ord) && final(entries)@ == ord.map_values(
                    |k: int| old(entries)@[k],
                ),
    {
        let ord = sort_positions(entries, sort);
        let ghost m = ord@.map_values(|k: usize| k as int);
        let ghost before = entries@;
        let n = entries.len();
        // Move the entries into slots, last first.
        let mut slots: Vec<Option<Entry>> = Vec::new();
        while entries.len() > 0
            invariant
                entries.len() + slots.len() == n == before.len(),
                entries@ == before.take(entries.len() as int),
                forall|j: int| 0 <= j < slots.len() ==> #[trigger] slots@[j] == Some(before[n - 1 - j]),
            decreases entries.len(),
        {
            let e = entries.pop().unwrap();
            slots.push(Some(e));
            assert(entries@ =~= before.take(entries.len() as int));
        }
        let mut out: Vec<Entry> = Vec::new();
        let mut k: usize = 0;
        while k < ord.len()
            invariant
                k <= ord.len() == n == before.len() == slots.len(),
                m == ord@.map_values(|k: usize| k as int),
                sorted_order(before, sort, m),
                forall|a: int, b: int| 0 <= a < b < ord.len() ==> ord@[a] != ord@[b],
                forall|j: int| 0 <= j < n ==> (#[trigger] slots@[j] is Some ==> slots@[j] == Some(before[n - 1 - j])),
                forall|a: int| k <= a < n ==> (#[trigger] slots@[n - 1 - m[a]]) is Some,
                out.len() == k,
                forall|q: int| 0 <= q < k ==> #[trigger] out@[q] == before[m[q]],
            decreases ord.len() - k,
        {
            let idx = ord[k];
            assert(m[k as int] == idx as int);
            assert(slots@[n - 1 - m[k as int]] is Some);
            let mut taken: Option<Entry> = None;
            std::mem::swap(&mut taken, &mut slots[n - 1 - idx]);
            proof {
                assert forall|a: int| k + 1 <= a < n implies (#[trigger] slots@[n - 1 - m[a]]) is Some by {
                    assert(m[a] == ord@[a] as int);
                    assert(ord@[a] != ord@[k as int]);
                }
            }
            out.push(taken.unwrap());
            k += 1;
        }
        assert(out@ =~= m.map_values(|q: int| before[q]));
        *entries = out;
    }
}

// ---------------------------------------------------------------------------
// Marking what matched
// ---------------------------------------------------------------------------

/// Where `n` occurs in `h` from `from` on, left to right, without overlap,
/// as byte ranges.
pub open spec fn occurrences(h: Seq<u8>, n: Seq<u8>, from: int) -> Seq<(int, int)>
    decreases h.len() + 1 - from,
{
    if n.len() == 0 {
        Seq::empty()
    } else {
        match find_b(h, n, from) {
            None => Seq::empty(),
            Some(at) => if at < from || at + n.len() > h.len() {
                Seq::empty()
            } else {
                seq![(at, at + n.len())] + occurrences(h, n, at + n.len())
            },
        }
    }
}

/// Bytes a character takes in UTF-8.
pub open spec fn utf8_width(c: char) -> int {
    let u = c as u32;
    if u < 0x80 {
        1
    } else if u < 0x800 {
        2
    } else if u < 0x10000 {
        3
    } else {
        4
    }
}

/// Lowercasing kept every character's place: as many characters, each as
/// many bytes as the one it lowers (so every character boundary of the
/// lowered text is one of the original's, and offsets found there address
/// the original); otherwise the search is case-sensitive.
pub open spec fn aligned(text: Seq<char>) -> bool {
    &&& encode_utf8(lowercase(text)).len() == encode_utf8(text).len()
    &&& lowercase(text).len() == text.len()
    &&& forall|i: int| 0 <= i < text.len() ==> utf8_width(#[trigger] lowercase(text)[i]) == utf8_width(text[i])
}

fn utf8_width_exec(c: char) -> (w: usize)
    ensures
        w == utf8_width(c),
{
    let u = c as u32;
    if u < 0x80 {
        1
    } else if u < 0x800 {
        2
    } else if u < 0x10000 {
        3
    } else {
        4
    }
}

/// `aligned`, computed from the text and its lowering.
fn keeps_places(text: &str, lower: &String) -> (r: bool)
    requires
        lower@ == lowercase(text@),
    ensures
        r == aligned(text@),
{
    if lower.as_str().as_bytes().len() != text.as_bytes().len() {
        return false;
    }
    let a = chars_of(text);
    let b = chars_of(lower.as_str());
    if a.len() != b.len() {
        return false;
    }
    let mut i: usize = 0;
    while i < a.len()
        invariant
            i <= a.len(),
            a@ == text@,
            b@ == lowercase(text@),
            a.len() == b.len(),
            forall|k: int| 0 <= k < i ==> utf8_width(#[trigger] lowercase(text@)[k]) == utf8_width(text@[k]),
        decreases a.len() - i,
    {
        if utf8_width_exec(a[i]) != utf8_width_exec(b[i]) {
            return false;
        }
        i += 1;
    }
    true
}

pub open spec fn hay_of(text: Seq<char>) -> Seq<u8> {
    if aligned(text) { encode_utf8(lowercase(text)) } else { encode_utf8(text) }
}

pub open spec fn needle_of(text: Seq<char>, term: Seq<char>) -> Seq<u8> {
    if aligned(text) { encode_utf8(lowercase(term)) } else { encode_utf8(term) }
}

/// Every occurrence of every term, term by term.
pub open spec fn all_spans(text: Seq<char>, terms: Seq<Seq<char>>) -> Seq<(int, int)>
    decreases terms.len(),
{
    if terms.len() == 0 {
        Seq::empty()
    } else {
        all_spans(text, terms.drop_last()) + occurrences(hay_of(text), needle_of(text, terms.last()), 0)
    }
}

pub open spec fn pair_le(x: (int, int), y: (int, int)) -> bool {
    x.0 < y.0 || (x.0 == y.0 && x.1 <= y.1)
}

pub open spec fn sorted_pairs(s: Seq<(int, int)>) -> bool {
    forall|i: int, j: int| 0 <= i < j < s.len() ==> pair_le(#[trigger] s[i], #[trigger] s[j])
}

/// Runs that touch or overlap become one: `a <= b` of the run before
/// extends it.
pub open spec fn merge_runs(s: Seq<(int, int)>) -> Seq<(int, int)>
    decreases s.len(),
{
    if s.len() == 0 {
        Seq::empty()
    } else {
        let m = merge_runs(s.drop_last());
        let x = s.last();
        if m.len() > 0 && x.0 <= m.last().1 {
            m.update(m.len() - 1, (m.last().0, if m.last().1 >= x.1 { m.last().1 } else { x.1 }))
        } else {
            m.push(x)
        }
    }
}

pub open spec fn ranges_view(v: Seq<(usize, usize)>) -> Seq<(int, int)> {
    v.map_values(|p: (usize, usize)| (p.0 as int, p.1 as int))
}

pub open spec fn terms_view(terms: Seq<&str>) -> Seq<Seq<char>> {
    terms.map_values(|t: &str| t@)
}

/// The merged runs are the sorted occurrences, merged.
pub open spec fn spec_match_ranges(text: Seq<char>, terms: Seq<Seq<char>>, r: Seq<(int, int)>) -> bool {
    exists|sorted: Seq<(int, int)>|
        sorted.to_multiset() == all_spans(text, terms).to_multiset() && sorted_pairs(sorted) && r
            == merge_runs(sorted)
}

proof fn lemma_occurrences_bounds(h: Seq<u8>, n: Seq<u8>, from: int)
    requires
        0 <= from,
    ensures
        forall|i: int|
            0 <= i < occurrences(h, n, from).len() ==> from <= (#[trigger] occurrences(h, n, from)[i]).0
                < occurrences(h, n, from)[i].1 <= h.len(),
    decreases h.len() + 1 - from,
{
    if n.len() > 0 {
        lemma_find_b_bounds(h, n, from);
        match find_b(h, n, from) {
            None => {},
            Some(at) => if !(at < from || at + n.len() > h.len()) {
                lemma_occurrences_bounds(h, n, at + n.len());
                let rest = occurrences(h, n, at + n.len());
                assert forall|i: int| 0 <= i < occurrences(h, n, from).len() implies from <= (
                #[trigger] occurrences(h, n, from)[i]).0 < occurrences(h, n, from)[i].1 <= h.len() by {
                    if i > 0 {
                        assert(occurrences(h, n, from)[i] == rest[i - 1]);
                    }
                }
            },
        }
    }
}

/// Append the occurrences of `n` in `h` to `spans`.
fn push_occurrences(h: &[u8], n: &[u8], spans: &mut Vec<(usize, usize)>)
    ensures
        ranges_view(final(spans)@) == ranges_view(old(spans)@) + occurrences(h@, n@, 0),
{
    if n.len() == 0 {
        assert(ranges_view(spans@) =~= ranges_view(spans@) + Seq::<(int, int)>::empty());
        return;
    }
    let ghost start = ranges_view(spans@);
    let mut from: usize = 0;
    assert(ranges_view(spans@) =~= start + Seq::<(int, int)>::empty());
    loop
        invariant
            n.len() > 0,
            from <= h.len(),
            start + occurrences(h@, n@, 0) == ranges_view(spans@) + occurrences(h@, n@, from as int),
        ensures
            start + occurrences(h@, n@, 0) == ranges_view(spans@),
        decreases h.len() - from,
    {
        let found = find_bytes(h, n, from);
        proof {
            lemma_find_b_bounds(h@, n@, from as int);
        }
        match found {
            None => {
                assert(ranges_view(spans@) + occurrences(h@, n@, from as int) =~= ranges_view(spans@));
                break;
            },
            Some(at) => {
                let end = at + n.len();
                let ghost before = ranges_view(spans@);
                spans.push((at, end));
                assert(ranges_view(spans@) =~= before.push((at as int, end as int)));
                assert(before + (seq![(at as int, end as int)] + occurrences(h@, n@, end as int)) =~= ranges_view(spans@)
                    + occurrences(h@, n@, end as int));
                from = end;
            },
        }
    }
}

fn pair_le_exec(x: (usize, usize), y: (usize, usize)) -> (b: bool)
    ensures
        b == pair_le((x.0 as int, x.1 as int), (y.0 as int, y.1 as int)),
{
    x.0 < y.0 || (x.0 == y.0 && x.1 <= y.1)
}

/// Byte ranges of `terms` inside `text`, merged and in order. Matching is
/// case-insensitive by the same rule the title filter uses (lowercase, then
/// substring), unless lowercasing moved any character (changed how many
/// there are, or how many bytes one takes), where it is case-sensitive so
/// that no offset addresses the wrong bytes.
pub fn match_ranges(text: &str, terms: &[&str]) -> (r: Vec<(usize, usize)>)
    ensures
        spec_match_ranges(text@, terms_view(terms@), ranges_view(r@)),
{
    let lower = to_lowercase(text);
    let is_aligned = keeps_places(text, &lower);
    let hay: Vec<u8> = if is_aligned { lower.as_str().as_bytes_vec() } else { text.as_bytes_vec() };
    assert(hay@ == hay_of(text@));
    let ghost tv = terms_view(terms@);
    let mut spans: Vec<(usize, usize)> = Vec::new();
    let mut i: usize = 0;
    while i < terms.len()
        invariant
            i <= terms.len(),
            tv == terms_view(terms@),
            hay@ == hay_of(text@),
            is_aligned == aligned(text@),
            ranges_view(spans@) == all_spans(text@, tv.take(i as int)),
        decreases terms.len() - i,
    {
        let needle: Vec<u8> = if is_aligned { to_lowercase(terms[i]).as_str().as_bytes_vec() } else { terms[i].as_bytes_vec() };
        assert(tv.take(i + 1).drop_last() =~= tv.take(i as int));
        assert(tv.take(i + 1).last() == terms@[i as int]@);
        assert(needle@ == needle_of(text@, terms@[i as int]@));
        push_occurrences(hay.as_slice(), needle.as_slice(), &mut spans);
        i += 1;
    }
    assert(tv.take(terms.len() as int) =~= tv);
    // Sort the runs (insertion, keeping every one).
    let mut sorted: Vec<(usize, usize)> = Vec::new();
    let mut k: usize = 0;
    assert(ranges_view(sorted@) =~= ranges_view(spans@).take(0));
    while k < spans.len()
        invariant
            k <= spans.len(),
            ranges_view(sorted@).to_multiset() == ranges_view(spans@).take(k as int).to_multiset(),
            sorted_pairs(ranges_view(sorted@)),
        decreases spans.len() - k,
    {
        let x = spans[k];
        let mut j: usize = sorted.len();
        while j > 0 && !pair_le_exec(sorted[j - 1], x)
            invariant
                j <= sorted.len(),
                forall|q: int| j <= q < sorted.len() ==> !pair_le(#[trigger] ranges_view(sorted@)[q], (x.0 as int, x.1 as int)),
            decreases j,
        {
            j -= 1;
        }
        let ghost before = ranges_view(sorted@);
        let ghost xv = (x.0 as int, x.1 as int);
        sorted.insert(j, x);
        proof {
            assert(ranges_view(sorted@) =~= before.insert(j as int, xv));
            vstd::seq_lib::to_multiset_insert(before, j as int, xv);
            assert(ranges_view(spans@).take(k + 1) =~= ranges_view(spans@).take(k as int).push(xv));
            vstd::seq_lib::to_multiset_build(ranges_view(spans@).take(k as int), xv);
            let after = ranges_view(sorted@);
            assert forall|a: int, b: int| 0 <= a < b < after.len() implies pair_le(#[trigger] after[a], #[trigger] after[b]) by {
                if a < j && b < j {
                    assert(after[a] == before[a] && after[b] == before[b]);
                } else if a < j && b == j {
                    assert(after[a] == before[a]);
                    assert(pair_le(before[j - 1], xv));
                    assert(pair_le(before[a], before[j - 1]) || a == j - 1);
                } else if a < j {
                    assert(after[a] == before[a] && after[b] == before[b - 1]);
                } else if a == j {
                    assert(after[b] == before[b - 1]);
                    assert(!pair_le(before[b - 1], xv));
                } else {
                    assert(after[a] == before[a - 1] && after[b] == before[b - 1]);
                }
            }
        }
        k += 1;
    }
    assert(ranges_view(spans@).take(spans.len() as int) =~= ranges_view(spans@));
    // Merge touching and overlapping runs.
    let mut merged: Vec<(usize, usize)> = Vec::new();
    let mut m: usize = 0;
    while m < sorted.len()
        invariant
            m <= sorted.len(),
            ranges_view(merged@) == merge_runs(ranges_view(sorted@).take(m as int)),
        decreases sorted.len() - m,
    {
        let (a, b) = sorted[m];
        assert(ranges_view(sorted@).take(m + 1).drop_last() =~= ranges_view(sorted@).take(m as int));
        assert(ranges_view(sorted@).take(m + 1).last() == (a as int, b as int));
        let ghost before = ranges_view(merged@);
        if merged.len() > 0 && a <= merged[merged.len() - 1].1 {
            let last = merged.len() - 1;
            let (s0, e0) = merged[last];
            let e = if e0 >= b { e0 } else { b };
            merged.set(last, (s0, e));
            assert(ranges_view(merged@) =~= before.update(last as int, (s0 as int, e as int)));
        } else {
            merged.push((a, b));
            assert(ranges_view(merged@) =~= before.push((a as int, b as int)));
        }
        m += 1;
    }
    assert(ranges_view(sorted@).take(sorted.len() as int) =~= ranges_view(sorted@));
    merged
}

/// Every run lies within `0..len` and is not empty.
pub open spec fn runs_within(rs: Seq<(int, int)>, len: int) -> bool {
    forall|i: int| 0 <= i < rs.len() ==> 0 <= (#[trigger] rs[i]).0 < rs[i].1 <= len
}

/// Runs are in order and apart: each ends before the next begins.
pub open spec fn runs_apart(rs: Seq<(int, int)>) -> bool {
    forall|i: int| 0 <= i < rs.len() - 1 ==> (#[trigger] rs[i]).1 < rs[i + 1].0
}

proof fn lemma_all_spans_within(text: Seq<char>, terms: Seq<Seq<char>>)
    ensures
        runs_within(all_spans(text, terms), hay_of(text).len() as int),
    decreases terms.len(),
{
    if terms.len() > 0 {
        lemma_all_spans_within(text, terms.drop_last());
        let n = needle_of(text, terms.last());
        lemma_occurrences_bounds(hay_of(text), n, 0);
        let a = all_spans(text, terms.drop_last());
        let o = occurrences(hay_of(text), n, 0);
        assert forall|i: int| 0 <= i < (a + o).len() implies 0 <= (#[trigger] (a + o)[i]).0 < (a + o)[i].1
            <= hay_of(text).len() by {
            if i < a.len() {
                assert((a + o)[i] == a[i]);
            } else {
                assert((a + o)[i] == o[i - a.len()]);
            }
        }
    }
}

proof fn lemma_sorted_within(sorted: Seq<(int, int)>, all: Seq<(int, int)>, len: int)
    requires
        sorted.to_multiset() == all.to_multiset(),
        runs_within(all, len),
    ensures
        runs_within(sorted, len),
{
    assert forall|i: int| 0 <= i < sorted.len() implies 0 <= (#[trigger] sorted[i]).0 < sorted[i].1 <= len by {
        vstd::seq_lib::to_multiset_contains(sorted, sorted[i]);
        vstd::seq_lib::to_multiset_contains(all, sorted[i]);
        assert(sorted.contains(sorted[i]));
        let j = choose|j: int| 0 <= j < all.len() && all[j] == sorted[i];
    }
}

/// Merging sorted runs leaves runs that are apart, inside the same bounds,
/// and starting no earlier than the first.
proof fn lemma_merge_runs(s: Seq<(int, int)>, len: int)
    requires
        sorted_pairs(s),
        runs_within(s, len),
    ensures
        runs_within(merge_runs(s), len),
        runs_apart(merge_runs(s)),
        merge_runs(s).len() <= s.len(),
        s.len() > 0 ==> merge_runs(s).len() > 0 && merge_runs(s).last().1 >= s.last().1,
        forall|i: int| 0 <= i < merge_runs(s).len() ==> exists|j: int| 0 <= j < s.len() && s[j].0 == (#[trigger] merge_runs(s)[i]).0,
    decreases s.len(),
{
    if s.len() > 0 {
        let d = s.drop_last();
        assert(sorted_pairs(d)) by {
            assert forall|i: int, j: int| 0 <= i < j < d.len() implies pair_le(#[trigger] d[i], #[trigger] d[j]) by {
                assert(d[i] == s[i] && d[j] == s[j]);
            }
        }
        assert(runs_within(d, len)) by {
            assert forall|i: int| 0 <= i < d.len() implies 0 <= (#[trigger] d[i]).0 < d[i].1 <= len by {
                assert(d[i] == s[i]);
            }
        }
        lemma_merge_runs(d, len);
        let m = merge_runs(d);
        let x = s.last();
        assert(0 <= x.0 < x.1 <= len) by {
            assert(x == s[s.len() - 1]);
        }
        if m.len() > 0 && x.0 <= m.last().1 {
            let r = merge_runs(s);
            assert forall|i: int| 0 <= i < r.len() implies exists|j: int| 0 <= j < s.len() && s[j].0 == (#[trigger] r[i]).0 by {
                let j = choose|j: int| 0 <= j < d.len() && d[j].0 == m[i].0;
                assert(s[j] == d[j]);
            }
        } else {
            let r = merge_runs(s);
            if m.len() > 0 {
                // the last run of `m` starts at some run of `d`, which is before `x`
                let j = choose|j: int| 0 <= j < d.len() && d[j].0 == m.last().0;
                assert(pair_le(s[j], s[s.len() - 1]));
                assert(s[j] == d[j]);
            }
            assert forall|i: int| 0 <= i < r.len() implies exists|j: int| 0 <= j < s.len() && s[j].0 == (#[trigger] r[i]).0 by {
                if i < m.len() {
                    let j = choose|j: int| 0 <= j < d.len() && d[j].0 == m[i].0;
                    assert(s[j] == d[j]);
                } else {
                    assert(s[s.len() - 1].0 == r[i].0);
                }
            }
            assert(runs_apart(r)) by {
                assert forall|i: int| 0 <= i < r.len() - 1 implies (#[trigger] r[i]).1 < r[i + 1].0 by {
                    if i < m.len() - 1 {
                        assert(r[i] == m[i] && r[i + 1] == m[i + 1]);
                    } else {
                        assert(r[i] == m.last());
                    }
                }
            }
        }
    }
}

/// The pieces a text splits into around its runs, from byte `at` on: the
/// unmarked text before each run, the run itself marked, and what is left.
pub open spec fn pieces_from(t: Seq<u8>, rs: Seq<(int, int)>, at: int) -> Seq<(Seq<u8>, bool)>
    decreases rs.len(),
{
    if rs.len() == 0 {
        if at < t.len() {
            seq![(t.subrange(at, t.len() as int), false)]
        } else {
            Seq::empty()
        }
    } else {
        let a = rs[0].0;
        let b = rs[0].1;
        (if a > at {
            seq![(t.subrange(at, a), false)]
        } else {
            Seq::empty()
        }) + seq![(t.subrange(a, b), true)] + pieces_from(t, rs.drop_first(), b)
    }
}

/// The bytes of the pieces, run together.
pub open spec fn joined(ps: Seq<(Seq<u8>, bool)>) -> Seq<u8>
    decreases ps.len(),
{
    if ps.len() == 0 {
        Seq::empty()
    } else {
        ps[0].0 + joined(ps.drop_first())
    }
}

proof fn lemma_joined_concat(a: Seq<(Seq<u8>, bool)>, b: Seq<(Seq<u8>, bool)>)
    ensures
        joined(a + b) == joined(a) + joined(b),
    decreases a.len(),
{
    if a.len() == 0 {
        assert(a + b =~= b);
    } else {
        assert((a + b).drop_first() =~= a.drop_first() + b);
        lemma_joined_concat(a.drop_first(), b);
    }
}

/// No piece is empty: gaps are cut only where a run starts after them, and
/// every run holds at least one byte.
pub proof fn law_pieces_nonempty(t: Seq<u8>, rs: Seq<(int, int)>, at: int)
    requires
        runs_within(rs, t.len() as int),
        runs_apart(rs),
        0 <= at <= t.len(),
        rs.len() > 0 ==> at <= rs[0].0,
    ensures
        forall|k: int| 0 <= k < pieces_from(t, rs, at).len() ==> (#[trigger] pieces_from(t, rs, at)[k]).0.len() > 0,
    decreases rs.len(),
{
    if rs.len() > 0 {
        let a = rs[0].0;
        let b = rs[0].1;
        let rest = rs.drop_first();
        assert(runs_within(rest, t.len() as int)) by {
            assert forall|i: int| 0 <= i < rest.len() implies 0 <= (#[trigger] rest[i]).0 < rest[i].1 <= t.len() by {
                assert(rest[i] == rs[i + 1]);
            }
        }
        assert(runs_apart(rest)) by {
            assert forall|i: int| 0 <= i < rest.len() - 1 implies (#[trigger] rest[i]).1 < rest[i + 1].0 by {
                assert(rest[i] == rs[i + 1] && rest[i + 1] == rs[i + 2]);
            }
        }
        assert(0 <= a < b <= t.len()) by {
            assert(rs[0].0 < rs[0].1);
        }
        if rest.len() > 0 {
            assert(rs[0].1 < rs[1].0);
            assert(rest[0] == rs[1]);
        }
        law_pieces_nonempty(t, rest, b);
        let gap: Seq<(Seq<u8>, bool)> = if a > at {
            seq![(t.subrange(at, a), false)]
        } else {
            Seq::empty()
        };
        let mid = seq![(t.subrange(a, b), true)];
        let tail = pieces_from(t, rest, b);
        let all = gap + mid + tail;
        assert(pieces_from(t, rs, at) == all);
        assert forall|k: int| 0 <= k < all.len() implies (#[trigger] all[k]).0.len() > 0 by {
            if k < gap.len() {
                assert(all[k] == gap[k]);
            } else if k < gap.len() + 1 {
                assert(all[k] == mid[0]);
            } else {
                assert(all[k] == tail[k - gap.len() - 1]);
            }
        }
    }
}


/// Splitting around runs that are in order and apart loses nothing: the
/// pieces run together are the text from `at` on.
pub proof fn law_pieces_rejoin(t: Seq<u8>, rs: Seq<(int, int)>, at: int)
    requires
        runs_within(rs, t.len() as int),
        runs_apart(rs),
        0 <= at <= t.len(),
        rs.len() > 0 ==> at <= rs[0].0,
    ensures
        joined(pieces_from(t, rs, at)) == t.subrange(at, t.len() as int),
    decreases rs.len(),
{
    if rs.len() == 0 {
        if at < t.len() {
            let p = seq![(t.subrange(at, t.len() as int), false)];
            assert(p.drop_first() =~= Seq::<(Seq<u8>, bool)>::empty());
            assert(joined(p) == p[0].0 + joined(p.drop_first()));
            assert(t.subrange(at, t.len() as int) + Seq::<u8>::empty() =~= t.subrange(at, t.len() as int));
        } else {
            assert(t.subrange(at, t.len() as int) =~= Seq::<u8>::empty());
        }
    } else {
        let a = rs[0].0;
        let b = rs[0].1;
        let rest = rs.drop_first();
        assert(runs_within(rest, t.len() as int)) by {
            assert forall|i: int| 0 <= i < rest.len() implies 0 <= (#[trigger] rest[i]).0 < rest[i].1 <= t.len() by {
                assert(rest[i] == rs[i + 1]);
            }
        }
        assert(runs_apart(rest)) by {
            assert forall|i: int| 0 <= i < rest.len() - 1 implies (#[trigger] rest[i]).1 < rest[i + 1].0 by {
                assert(rest[i] == rs[i + 1] && rest[i + 1] == rs[i + 2]);
            }
        }
        assert(0 <= rs[0].0 < rs[0].1 <= t.len());
        if rest.len() > 0 {
            assert(rest[0] == rs[1]);
            assert(rs[0].1 < rs[1].0);
        }
        law_pieces_rejoin(t, rest, b);
        let first: Seq<(Seq<u8>, bool)> = if a > at {
            seq![(t.subrange(at, a), false)]
        } else {
            Seq::empty()
        };
        let mid = seq![(t.subrange(a, b), true)];
        lemma_joined_concat(first + mid, pieces_from(t, rest, b));
        lemma_joined_concat(first, mid);
        assert(mid.drop_first() =~= Seq::<(Seq<u8>, bool)>::empty());
        assert(joined(mid) == mid[0].0 + joined(mid.drop_first()));
        assert(joined(mid) =~= t.subrange(a, b));
        assert(pieces_from(t, rs, at) == first + mid + pieces_from(t, rest, b));
        if a > at {
            assert(first.drop_first() =~= Seq::<(Seq<u8>, bool)>::empty());
            assert(joined(first) == first[0].0 + joined(first.drop_first()));
            assert(joined(first) =~= t.subrange(at, a));
            assert(t.subrange(at, a) + t.subrange(a, b) + t.subrange(b, t.len() as int) =~= t.subrange(at, t.len() as int));
        } else {
            assert(joined(first) =~= Seq::<u8>::empty());
            assert(a == at);
            assert(t.subrange(a, b) + t.subrange(b, t.len() as int) =~= t.subrange(at, t.len() as int));
        }
    }
}

// ---------------------------------------------------------------------------
// Matches land on character boundaries
// ---------------------------------------------------------------------------

/// A valid encoding followed by anything valid: its end is a boundary of
/// the whole.
proof fn lemma_prefix_boundary(nd: Seq<u8>, r: Seq<u8>)
    requires
        vstd::utf8::valid_utf8(nd),
        vstd::utf8::valid_utf8(nd + r),
    ensures
        is_char_boundary(nd + r, nd.len() as int),
    decreases nd.len(),
{
    let b = nd + r;
    if nd.len() > 0 {
        reveal_with_fuel(vstd::utf8::valid_utf8, 2);
        let l = vstd::utf8::length_of_first_scalar(nd);
        assert(b[0] == nd[0]);
        assert(vstd::utf8::length_of_first_scalar(b) == l);
        let pn = vstd::utf8::pop_first_scalar(nd);
        assert(vstd::utf8::pop_first_scalar(b) =~= pn + r);
        lemma_prefix_boundary(pn, r);
        reveal_with_fuel(is_char_boundary, 2);
    }
}

/// A boundary of the tail after boundary `p` is a boundary of the whole.
proof fn lemma_boundary_transfer(h: Seq<u8>, p: int, m: int)
    requires
        vstd::utf8::valid_utf8(h),
        0 <= p <= h.len(),
        is_char_boundary(h, p),
        0 <= m,
        vstd::utf8::valid_utf8(h.subrange(p, h.len() as int)),
        is_char_boundary(h.subrange(p, h.len() as int), m),
    ensures
        is_char_boundary(h, p + m),
    decreases p,
{
    if p == 0 {
        assert(h.subrange(0, h.len() as int) =~= h);
    } else {
        reveal_with_fuel(vstd::utf8::valid_utf8, 2);
        reveal_with_fuel(is_char_boundary, 2);
        let l = vstd::utf8::length_of_first_scalar(h);
        let ph = vstd::utf8::pop_first_scalar(h);
        assert(is_char_boundary(ph, p - l));
        assert(p - l >= 0);
        assert(ph.subrange(p - l, ph.len() as int) =~= h.subrange(p, h.len() as int));
        lemma_boundary_transfer(ph, p - l, m);
    }
}

/// Where a valid encoding occurs inside a valid encoding, it starts and
/// ends on character boundaries (UTF-8 resynchronises at every lead byte).
proof fn lemma_match_on_boundaries(h: Seq<u8>, nd: Seq<u8>, at: int)
    requires
        vstd::utf8::valid_utf8(h),
        vstd::utf8::valid_utf8(nd),
        nd.len() > 0,
        0 <= at,
        at + nd.len() <= h.len(),
        h.subrange(at, at + nd.len()) == nd,
    ensures
        is_char_boundary(h, at),
        is_char_boundary(h, at + nd.len()),
{
    vstd::utf8::is_char_boundary_start_end_of_seq(nd);
    vstd::utf8::is_char_boundary_iff_not_is_continuation_byte(nd, 0);
    assert(h[at] == nd[0]);
    vstd::utf8::is_char_boundary_iff_not_is_continuation_byte(h, at);
    let t = h.subrange(at, h.len() as int);
    vstd::utf8::valid_utf8_split(h, at);
    let r = h.subrange(at + nd.len(), h.len() as int);
    assert(t =~= nd + r);
    lemma_prefix_boundary(nd, r);
    lemma_boundary_transfer(h, at, nd.len() as int);
}

proof fn lemma_occurrences_on_boundaries(h: Seq<u8>, n: Seq<u8>, from: int)
    requires
        0 <= from,
        vstd::utf8::valid_utf8(h),
        vstd::utf8::valid_utf8(n),
    ensures
        forall|i: int|
            0 <= i < occurrences(h, n, from).len() ==> is_char_boundary(h, (#[trigger] occurrences(h, n, from)[i]).0)
                && is_char_boundary(h, occurrences(h, n, from)[i].1),
    decreases h.len() + 1 - from,
{
    if n.len() > 0 {
        lemma_find_b_bounds(h, n, from);
        match find_b(h, n, from) {
            None => {},
            Some(at) => if !(at < from || at + n.len() > h.len()) {
                lemma_occurrences_on_boundaries(h, n, at + n.len());
                lemma_match_on_boundaries(h, n, at);
                let rest = occurrences(h, n, at + n.len());
                assert forall|i: int| 0 <= i < occurrences(h, n, from).len() implies is_char_boundary(
                    h,
                    (#[trigger] occurrences(h, n, from)[i]).0,
                ) && is_char_boundary(h, occurrences(h, n, from)[i].1) by {
                    if i > 0 {
                        assert(occurrences(h, n, from)[i] == rest[i - 1]);
                    }
                }
            },
        }
    }
}

proof fn lemma_width_is_encoding_length(c: char)
    ensures
        vstd::utf8::encode_scalar(c as u32).len() == utf8_width(c),
{
    vstd::utf8::char_is_scalar(c);
}

/// Lowering that keeps every character's width keeps the boundaries: each
/// boundary of the lowered encoding is one of the original's.
proof fn lemma_aligned_boundaries(t: Seq<char>, l: Seq<char>, i: int)
    requires
        t.len() == l.len(),
        forall|k: int| 0 <= k < t.len() ==> utf8_width(#[trigger] l[k]) == utf8_width(t[k]),
        is_char_boundary(encode_utf8(l), i),
    ensures
        is_char_boundary(encode_utf8(t), i),
        encode_utf8(t).len() == encode_utf8(l).len(),
    decreases t.len(),
{
    vstd::utf8::encode_utf8_valid_utf8(t);
    vstd::utf8::encode_utf8_valid_utf8(l);
    if t.len() == 0 {
        assert(t =~= l);
    } else {
        let et = encode_utf8(t);
        let el = encode_utf8(l);
        vstd::utf8::encode_utf8_first_scalar(t);
        vstd::utf8::encode_utf8_first_scalar(l);
        lemma_width_is_encoding_length(t[0]);
        lemma_width_is_encoding_length(l[0]);
        let w = utf8_width(t[0]);
        assert(vstd::utf8::pop_first_scalar(et) =~= encode_utf8(t.drop_first()));
        assert(vstd::utf8::pop_first_scalar(el) =~= encode_utf8(l.drop_first()));
        assert forall|k: int| 0 <= k < t.drop_first().len() implies utf8_width(#[trigger] l.drop_first()[k])
            == utf8_width(t.drop_first()[k]) by {
            assert(l.drop_first()[k] == l[k + 1] && t.drop_first()[k] == t[k + 1]);
        }
        if i == 0 {
            vstd::utf8::is_char_boundary_start_end_of_seq(et);
            lemma_len_tail(t.drop_first(), l.drop_first());
        } else {
            reveal_with_fuel(is_char_boundary, 2);
            assert(is_char_boundary(encode_utf8(l.drop_first()), i - w));
            lemma_aligned_boundaries(t.drop_first(), l.drop_first(), i - w);
        }
    }
}

proof fn lemma_len_tail(t: Seq<char>, l: Seq<char>)
    requires
        t.len() == l.len(),
        forall|k: int| 0 <= k < t.len() ==> utf8_width(#[trigger] l[k]) == utf8_width(t[k]),
    ensures
        encode_utf8(t).len() == encode_utf8(l).len(),
    decreases t.len(),
{
    if t.len() > 0 {
        lemma_width_is_encoding_length(t[0]);
        lemma_width_is_encoding_length(l[0]);
        assert forall|k: int| 0 <= k < t.drop_first().len() implies utf8_width(#[trigger] l.drop_first()[k])
            == utf8_width(t.drop_first()[k]) by {
            assert(l.drop_first()[k] == l[k + 1] && t.drop_first()[k] == t[k + 1]);
        }
        lemma_len_tail(t.drop_first(), l.drop_first());
    }
}

/// Every end of every occurrence is a boundary of the text itself.
proof fn lemma_all_spans_on_boundaries(text: Seq<char>, terms: Seq<Seq<char>>)
    ensures
        forall|i: int|
            0 <= i < all_spans(text, terms).len() ==> is_char_boundary(encode_utf8(text), (#[trigger] all_spans(text, terms)[i]).0)
                && is_char_boundary(encode_utf8(text), all_spans(text, terms)[i].1),
    decreases terms.len(),
{
    if terms.len() > 0 {
        lemma_all_spans_on_boundaries(text, terms.drop_last());
        let h = hay_of(text);
        let n = needle_of(text, terms.last());
        vstd::utf8::encode_utf8_valid_utf8(text);
        vstd::utf8::encode_utf8_valid_utf8(lowercase(text));
        vstd::utf8::encode_utf8_valid_utf8(lowercase(terms.last()));
        vstd::utf8::encode_utf8_valid_utf8(terms.last());
        lemma_occurrences_on_boundaries(h, n, 0);
        let a = all_spans(text, terms.drop_last());
        let o = occurrences(h, n, 0);
        assert forall|i: int| 0 <= i < (a + o).len() implies is_char_boundary(encode_utf8(text), (#[trigger] (a + o)[i]).0)
            && is_char_boundary(encode_utf8(text), (a + o)[i].1) by {
            if i < a.len() {
                assert((a + o)[i] == a[i]);
            } else {
                assert((a + o)[i] == o[i - a.len()]);
                if aligned(text) {
                    lemma_aligned_boundaries(text, lowercase(text), o[i - a.len()].0);
                    lemma_aligned_boundaries(text, lowercase(text), o[i - a.len()].1);
                }
            }
        }
    }
}

proof fn lemma_merge_ends(s: Seq<(int, int)>)
    ensures
        forall|i: int| 0 <= i < merge_runs(s).len() ==> exists|j: int| 0 <= j < s.len() && s[j].1 == (#[trigger] merge_runs(s)[i]).1,
    decreases s.len(),
{
    if s.len() > 0 {
        let d = s.drop_last();
        lemma_merge_ends(d);
        let m = merge_runs(d);
        let x = s.last();
        let r = merge_runs(s);
        assert forall|i: int| 0 <= i < r.len() implies exists|j: int| 0 <= j < s.len() && s[j].1 == (#[trigger] r[i]).1 by {
            if i < m.len() && !(m.len() > 0 && x.0 <= m.last().1 && i == m.len() - 1 && m.last().1 < x.1) {
                let j = choose|j: int| 0 <= j < d.len() && d[j].1 == m[i].1;
                assert(s[j] == d[j]);
                assert(r[i].1 == m[i].1);
            } else {
                assert(s[s.len() - 1].1 == r[i].1);
            }
        }
    }
}

/// Every run found in a text starts and ends on one of its character
/// boundaries, so it can always be cut out: a term occurs in the (lowered
/// or original) text only as whole characters, and lowering that keeps
/// each character's width keeps every boundary where it was.
pub proof fn law_runs_cut_cleanly(text: Seq<char>, terms: Seq<Seq<char>>)
    ensures
        split_ok(text, terms),
{
    assert forall|r: Seq<(int, int)>| spec_match_ranges(text, terms, r) implies runs_cut_cleanly(text, r) by {
        let sorted = choose|sorted: Seq<(int, int)>|
            sorted.to_multiset() == all_spans(text, terms).to_multiset() && sorted_pairs(sorted) && r == merge_runs(sorted);
        let all = all_spans(text, terms);
        lemma_all_spans_on_boundaries(text, terms);
        lemma_all_spans_within(text, terms);
        lemma_sorted_within(sorted, all, hay_of(text).len() as int);
        lemma_merge_runs(sorted, hay_of(text).len() as int);
        lemma_merge_ends(sorted);
        assert forall|k: int| 0 <= k < sorted.len() implies is_char_boundary(encode_utf8(text), (#[trigger] sorted[k]).0)
            && is_char_boundary(encode_utf8(text), sorted[k].1) by {
            vstd::seq_lib::to_multiset_contains(sorted, sorted[k]);
            vstd::seq_lib::to_multiset_contains(all, sorted[k]);
            assert(sorted.contains(sorted[k]));
            let j = choose|j: int| 0 <= j < all.len() && all[j] == sorted[k];
        }
        assert forall|i: int| 0 <= i < r.len() implies is_char_boundary(encode_utf8(text), (#[trigger] r[i]).0)
            && is_char_boundary(encode_utf8(text), r[i].1) by {
            let j0 = choose|j: int| 0 <= j < sorted.len() && sorted[j].0 == r[i].0;
            let j1 = choose|j: int| 0 <= j < sorted.len() && sorted[j].1 == r[i].1;
        }
    }
}

/// The runs found in `text` can be cut out of it: every end is on a
/// character boundary (lowercasing that keeps the length can still move
/// the boundaries).
pub open spec fn runs_cut_cleanly(text: Seq<char>, rs: Seq<(int, int)>) -> bool {
    forall|i: int|
        0 <= i < rs.len() ==> is_char_boundary(encode_utf8(text), (#[trigger] rs[i]).0) && is_char_boundary(
            encode_utf8(text),
            rs[i].1,
        )
}

pub open spec fn split_ok(text: Seq<char>, terms: Seq<Seq<char>>) -> bool {
    forall|r: Seq<(int, int)>| spec_match_ranges(text, terms, r) ==> runs_cut_cleanly(text, r)
}

pub open spec fn pieces_view(v: Seq<(&str, bool)>) -> Seq<(Seq<u8>, bool)> {
    v.map_values(|p: (&str, bool)| (encode_utf8(p.0@), p.1))
}

proof fn lemma_tail_boundary(bytes: Seq<u8>, a: int, b: int)
    requires
        vstd::utf8::valid_utf8(bytes),
        0 <= a <= b <= bytes.len(),
        is_char_boundary(bytes, a),
        is_char_boundary(bytes, b),
    ensures
        vstd::utf8::valid_utf8(bytes.subrange(a, bytes.len() as int)),
        is_char_boundary(bytes.subrange(a, bytes.len() as int), b - a),
{
    let tail = bytes.subrange(a, bytes.len() as int);
    vstd::utf8::valid_utf8_split(bytes, a);
    if b == bytes.len() {
        vstd::utf8::is_char_boundary_start_end_of_seq(tail);
    } else {
        vstd::utf8::is_char_boundary_iff_not_is_continuation_byte(bytes, b);
        vstd::utf8::is_char_boundary_iff_not_is_continuation_byte(tail, b - a);
        assert(tail[b - a] == bytes[b]);
    }
}

/// The bytes `a..b` of `text`, as a slice of it.
fn byte_slice<'a>(text: &'a str, a: usize, b: usize) -> (r: &'a str)
    requires
        a <= b <= encode_utf8(text@).len(),
        is_char_boundary(encode_utf8(text@), a as int),
        is_char_boundary(encode_utf8(text@), b as int),
    ensures
        encode_utf8(r@) == encode_utf8(text@).subrange(a as int, b as int),
{
    proof {
        vstd::utf8::encode_utf8_valid_utf8(text@);
        lemma_tail_boundary(encode_utf8(text@), a as int, b as int);
    }
    let (_, tail) = text.split_at(a);
    let (mid, _) = tail.split_at(b - a);
    assert(encode_utf8(mid@) =~= encode_utf8(text@).subrange(a as int, b as int));
    mid
}

/// Split `text` into `(piece, marked)` runs on `terms`. Pieces are never
/// empty, and run together they give `text` back.
pub fn split_on_terms<'a>(text: &'a str, terms: &[&str]) -> (out: Vec<(&'a str, bool)>)
    ensures
        exists|r: Seq<(int, int)>|
            spec_match_ranges(text@, terms_view(terms@), r) && pieces_view(out@) == pieces_from(
                encode_utf8(text@),
                r,
                0,
            ),
        joined(pieces_view(out@)) == encode_utf8(text@),
        forall|k: int| 0 <= k < out.len() ==> (#[trigger] out@[k]).0@.len() > 0,
{
    let ranges = match_ranges(text, terms);
    let ghost rv = ranges_view(ranges@);
    let ghost t = encode_utf8(text@);
    proof {
        law_runs_cut_cleanly(text@, terms_view(terms@));
        vstd::utf8::encode_utf8_valid_utf8(text@);
        vstd::utf8::is_char_boundary_start_end_of_seq(t);
        let sorted = choose|sorted: Seq<(int, int)>|
            sorted.to_multiset() == all_spans(text@, terms_view(terms@)).to_multiset() && sorted_pairs(sorted)
                && rv == merge_runs(sorted);
        lemma_all_spans_within(text@, terms_view(terms@));
        assert(hay_of(text@).len() == t.len());
        lemma_sorted_within(sorted, all_spans(text@, terms_view(terms@)), t.len() as int);
        lemma_merge_runs(sorted, t.len() as int);
        assert(runs_cut_cleanly(text@, rv));
    }
    let n = text.as_bytes().len();
    let mut out: Vec<(&'a str, bool)> = Vec::new();
    let mut at: usize = 0;
    let mut k: usize = 0;
    assert(rv.skip(0) =~= rv);
    while k < ranges.len()
        invariant
            k <= ranges.len(),
            rv == ranges_view(ranges@),
            t == encode_utf8(text@),
            n == t.len(),
            runs_within(rv, n as int),
            runs_apart(rv),
            runs_cut_cleanly(text@, rv),
            at <= n,
            is_char_boundary(t, at as int),
            k < ranges.len() ==> at <= rv[k as int].0,
            pieces_from(t, rv, 0) == pieces_view(out@) + pieces_from(t, rv.skip(k as int), at as int),
        decreases ranges.len() - k,
    {
        let (a, b) = ranges[k];
        assert(rv[k as int] == (a as int, b as int));
        assert(rv.skip(k as int)[0] == rv[k as int]);
        assert(rv.skip(k as int).drop_first() =~= rv.skip(k + 1));
        let ghost before = pieces_view(out@);
        if a > at {
            out.push((byte_slice(text, at, a), false));
        }
        out.push((byte_slice(text, a, b), true));
        assert(pieces_view(out@) =~= before + (if a > at {
            seq![(t.subrange(at as int, a as int), false)]
        } else {
            Seq::empty()
        }) + seq![(t.subrange(a as int, b as int), true)]);
        if k + 1 < ranges.len() {
            assert(rv[k as int].1 < rv[k + 1].0);
        }
        at = b;
        k += 1;
    }
    if at < n {
        let ghost before = pieces_view(out@);
        proof {
            vstd::utf8::encode_utf8_valid_utf8(text@);
            vstd::utf8::is_char_boundary_start_end_of_seq(t);
        }
        out.push((byte_slice(text, at, n), false));
        assert(pieces_view(out@) =~= before + seq![(t.subrange(at as int, t.len() as int), false)]);
    } else {
        assert(pieces_view(out@) =~= pieces_view(out@) + Seq::<(Seq<u8>, bool)>::empty());
    }
    proof {
        law_pieces_nonempty(t, rv, 0);
        assert forall|k: int| 0 <= k < out.len() implies (#[trigger] out@[k]).0@.len() > 0 by {
            assert(pieces_view(out@)[k] == pieces_from(t, rv, 0)[k]);
            if out@[k].0@.len() == 0 {
                assert(out@[k].0@ =~= Seq::<char>::empty());
                assert(encode_utf8(out@[k].0@) =~= Seq::<u8>::empty());
            }
        }
        law_pieces_rejoin(t, rv, 0);
        assert(t.subrange(0, t.len() as int) =~= t);
    }
    out
}

/// `split_on_terms`, when the runs can be cut out of the text; `None`
/// where some run would end inside a character.
pub fn split_on_terms_checked<'a>(text: &'a str, terms: &[&str]) -> (out: Option<Vec<(&'a str, bool)>>)
    ensures
        out is Some <==> split_ok(text@, terms_view(terms@)),
        out is Some,
        out is Some ==> exists|r: Seq<(int, int)>|
            spec_match_ranges(text@, terms_view(terms@), r) && pieces_view(out->Some_0@) == pieces_from(
                encode_utf8(text@),
                r,
                0,
            ),
{
    proof {
        law_runs_cut_cleanly(text@, terms_view(terms@));
    }
    let ranges = match_ranges(text, terms);
    let ghost rv = ranges_view(ranges@);
    let mut k: usize = 0;
    while k < ranges.len()
        invariant
            k <= ranges.len(),
            rv == ranges_view(ranges@),
            spec_match_ranges(text@, terms_view(terms@), rv),
            split_ok(text@, terms_view(terms@)),
            forall|i: int|
                0 <= i < k ==> is_char_boundary(encode_utf8(text@), (#[trigger] rv[i]).0) && is_char_boundary(
                    encode_utf8(text@),
                    rv[i].1,
                ),
        decreases ranges.len() - k,
    {
        let (a, b) = ranges[k];
        assert(rv[k as int] == (a as int, b as int));
        if !text.is_char_boundary(a) || !text.is_char_boundary(b) {
            proof {
                assert(!(is_char_boundary(encode_utf8(text@), rv[k as int].0) && is_char_boundary(
                    encode_utf8(text@),
                    rv[k as int].1,
                )));
                assert(!runs_cut_cleanly(text@, rv));
                assert(!split_ok(text@, terms_view(terms@)));
            }
            return None;
        }
        k += 1;
    }
    proof {
        lemma_match_ranges_unique(text@, terms_view(terms@), rv);
        law_runs_cut_cleanly(text@, terms_view(terms@));
    }
    Some(split_on_terms(text, terms))
}

/// Two sorted arrangements of the same runs are the same sequence.
proof fn lemma_sorted_unique(s1: Seq<(int, int)>, s2: Seq<(int, int)>)
    requires
        sorted_pairs(s1),
        sorted_pairs(s2),
        s1.to_multiset() == s2.to_multiset(),
    ensures
        s1 == s2,
    decreases s1.len(),
{
    vstd::seq_lib::to_multiset_len(s1);
    vstd::seq_lib::to_multiset_len(s2);
    if s1.len() == 0 {
        assert(s1 =~= s2);
    } else {
        let x = s1[0];
        let y = s2[0];
        vstd::seq_lib::to_multiset_contains(s1, y);
        vstd::seq_lib::to_multiset_contains(s2, x);
        vstd::seq_lib::to_multiset_contains(s1, x);
        vstd::seq_lib::to_multiset_contains(s2, y);
        assert(s1.contains(x));
        assert(s2.contains(y));
        let i = choose|i: int| 0 <= i < s1.len() && s1[i] == y;
        let j = choose|j: int| 0 <= j < s2.len() && s2[j] == x;
        assert(pair_le(x, y)) by {
            if i > 0 {
                assert(pair_le(s1[0], s1[i]));
            }
        }
        assert(pair_le(y, x)) by {
            if j > 0 {
                assert(pair_le(s2[0], s2[j]));
            }
        }
        assert(x == y);
        vstd::seq_lib::to_multiset_remove(s1, 0);
        vstd::seq_lib::to_multiset_remove(s2, 0);
        assert(s1.remove(0) =~= s1.drop_first());
        assert(s2.remove(0) =~= s2.drop_first());
        let d1 = s1.drop_first();
        let d2 = s2.drop_first();
        assert(sorted_pairs(d1)) by {
            assert forall|a: int, b: int| 0 <= a < b < d1.len() implies pair_le(#[trigger] d1[a], #[trigger] d1[b]) by {
                assert(d1[a] == s1[a + 1] && d1[b] == s1[b + 1]);
            }
        }
        assert(sorted_pairs(d2)) by {
            assert forall|a: int, b: int| 0 <= a < b < d2.len() implies pair_le(#[trigger] d2[a], #[trigger] d2[b]) by {
                assert(d2[a] == s2[a + 1] && d2[b] == s2[b + 1]);
            }
        }
        lemma_sorted_unique(d1, d2);
        assert(s1 =~= seq![x] + d1);
        assert(s2 =~= seq![y] + d2);
    }
}

/// The merged runs of a text are determined by it and the terms.
proof fn lemma_match_ranges_unique(text: Seq<char>, terms: Seq<Seq<char>>, r: Seq<(int, int)>)
    requires
        spec_match_ranges(text, terms, r),
    ensures
        forall|r2: Seq<(int, int)>| #[trigger] spec_match_ranges(text, terms, r2) ==> r2 == r,
{
    assert forall|r2: Seq<(int, int)>| #[trigger] spec_match_ranges(text, terms, r2) implies r2 == r by {
        let s1 = choose|s: Seq<(int, int)>|
            s.to_multiset() == all_spans(text, terms).to_multiset() && sorted_pairs(s) && r == merge_runs(s);
        let s2 = choose|s: Seq<(int, int)>|
            s.to_multiset() == all_spans(text, terms).to_multiset() && sorted_pairs(s) && r2 == merge_runs(s);
        lemma_sorted_unique(s1, s2);
    }
}

} // verus!
