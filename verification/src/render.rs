//! Scrapbox notation, line by line: indentation, where `code:` and `table:`
//! blocks run, which code blocks are really pictures (Mermaid diagrams,
//! LaTeX formulas), and how page titles are compared. Scrapbox is not
//! markdown: structure is per line, and indent is nesting depth.
use vstd::prelude::*;
pub use crate::page::{render_lines, render_lines_checked, render_lines_with, Block, Drawing, InlinePart, RenderOutput};
use crate::outline::{spec_depth, depth_from, depth, is_indent_char};
use crate::text::{
    spec_trim, trim, ascii_lower_seq, to_ascii_lower, has_prefix, str_eq, chars_of, string_of,
    starts_with, unicode_whitespace, is_whitespace,
};

verus! {

// ---------------------------------------------------------------------------
// Indentation
// ---------------------------------------------------------------------------

pub(crate) proof fn lemma_depth_from_bounds(s: Seq<char>, i: int)
    requires
        0 <= i <= s.len(),
    ensures
        i + depth_from(s, i) <= s.len(),
        forall|k: int| i <= k < i + depth_from(s, i) ==> is_indent_char(#[trigger] s[k]),
    decreases s.len() - i,
{
    if i < s.len() && is_indent_char(s[i]) {
        lemma_depth_from_bounds(s, i + 1);
    }
}

/// Indent of a line: every leading space, tab or full-width space is one
/// level (runs are not collapsed). Returns the level, the number of
/// whitespace characters (the same), and the rest of the line.
pub fn indent_info(raw: &str) -> (r: (usize, usize, &str))
    ensures
        r.0 == spec_depth(raw@),
        r.1 == spec_depth(raw@),
        r.2@ == raw@.skip(spec_depth(raw@) as int),
{
    let n = depth(raw);
    proof {
        lemma_depth_from_bounds(raw@, 0);
    }
    let rest = raw.substring_char(n, raw.unicode_len());
    assert(rest@ =~= raw@.skip(n as int));
    (n, n, rest)
}

/// Strip up to `n` leading whitespace characters (space, tab, full-width
/// space), keeping any deeper indentation.
pub fn strip_leading_ws(raw: &str, n: usize) -> (s: String)
    ensures
        s@ == raw@.skip(if n < spec_depth(raw@) { n as int } else { spec_depth(raw@) as int }),
{
    let d = depth(raw);
    proof {
        lemma_depth_from_bounds(raw@, 0);
    }
    let k = if n < d { n } else { d };
    let s = raw.substring_char(k, raw.unicode_len()).to_owned();
    assert(s@ =~= raw@.skip(k as int));
    s
}

/// Two display columns per nesting step: level 1 is flush left, level 2
/// starts at column 2, and so on.
pub fn bullet_indent_width(level: usize) -> (w: usize)
    requires
        level <= usize::MAX / 2,
    ensures
        w == (if level == 0 { 0 } else { (level - 1) * 2 }),
{
    if level == 0 {
        0
    } else {
        (level - 1) * 2
    }
}

/// Where the text of a line at this level starts: the indent plus the
/// `• ` marker an indented line wears.
pub fn text_column(level: usize) -> (c: usize)
    requires
        level <= usize::MAX / 2,
    ensures
        c == (if level == 0 { 0 } else { (level - 1) * 2 + 2 }),
{
    if level == 0 {
        0
    } else {
        bullet_indent_width(level) + 2
    }
}

// ---------------------------------------------------------------------------
// Block kinds
// ---------------------------------------------------------------------------

/// The part after the last `.`, if there is one.
pub open spec fn last_dot(s: Seq<char>, k: int) -> Option<int>
    decreases k,
{
    if k <= 0 || k > s.len() {
        None
    } else if s[k - 1] == '.' {
        Some(k - 1)
    } else {
        last_dot(s, k - 1)
    }
}

/// A `code:` label names one of `names`, outright (`code:tex`) or as the
/// extension of a file name (`code:proof.tex`), ignoring ASCII case and
/// surrounding whitespace.
pub open spec fn spec_lang_is(lang: Seq<char>, names: Seq<Seq<char>>) -> bool {
    let name = ascii_lower_seq(spec_trim(lang));
    name.len() > 0 && (names.contains(name) || match last_dot(name, name.len() as int) {
        Some(d) => names.contains(name.skip(d + 1)),
        None => false,
    })
}

pub open spec fn spec_mermaid_lang(lang: Seq<char>) -> bool {
    spec_lang_is(lang, seq!["mmd"@, "mermaid"@])
}

pub open spec fn spec_math_lang(lang: Seq<char>) -> bool {
    spec_lang_is(lang, seq!["tex"@, "latex"@])
}

proof fn lemma_last_dot(s: Seq<char>, k: int)
    requires
        0 <= k <= s.len(),
    ensures
        last_dot(s, k) is Some ==> 0 <= last_dot(s, k)->Some_0 < k && s[last_dot(s, k)->Some_0] == '.',
    decreases k,
{
    if k > 0 && s[k - 1] != '.' {
        lemma_last_dot(s, k - 1);
    }
}

fn lang_is(lang: &str, a: &str, b: &str) -> (r: bool)
    ensures
        r == spec_lang_is(lang@, seq![a@, b@]),
{
    let t = trim(lang);
    let name = to_ascii_lower(t.as_str());
    if name.len() == 0 {
        return false;
    }
    let name_s = string_of(name.as_slice());
    let ghost names = seq![a@, b@];
    proof {
        assert(names.contains(name@) <==> (name@ == a@ || name@ == b@)) by {
            if name@ == a@ {
                assert(names[0] == name@);
            }
            if name@ == b@ {
                assert(names[1] == name@);
            }
        }
    }
    if str_eq(name_s.as_str(), a) || str_eq(name_s.as_str(), b) {
        return true;
    }
    let mut k = name.len();
    while k > 0 && name[k - 1] != '.'
        invariant
            k <= name.len(),
            last_dot(name@, name@.len() as int) == last_dot(name@, k as int),
        decreases k,
    {
        k -= 1;
    }
    if k == 0 {
        return false;
    }
    proof {
        lemma_last_dot(name@, name@.len() as int);
    }
    let ext = string_of(&name.as_slice()[k..name.len()]);
    assert(ext@ =~= name@.skip(k as int));
    proof {
        assert(names.contains(ext@) <==> (ext@ == a@ || ext@ == b@)) by {
            if ext@ == a@ {
                assert(names[0] == ext@);
            }
            if ext@ == b@ {
                assert(names[1] == ext@);
            }
        }
    }
    str_eq(ext.as_str(), a) || str_eq(ext.as_str(), b)
}

/// Does a `code:` block's language name mark a Mermaid diagram? `mmd`,
/// `mermaid`, or a file name with either extension.
pub fn mermaid_lang(lang: &str) -> (b: bool)
    ensures
        b == spec_mermaid_lang(lang@),
{
    lang_is(lang, "mmd", "mermaid")
}

/// Is this `code:` block a LaTeX formula? `tex`, `latex`, or a file name
/// with either extension.
pub fn math_lang(lang: &str) -> (b: bool)
    ensures
        b == spec_math_lang(lang@),
{
    lang_is(lang, "tex", "latex")
}

/// How deep a Mermaid block may nest and still be drawn as a diagram.
pub const MERMAID_MAX_INDENT: usize = 2;

/// A formula stops at the left margin.
pub const MATH_MAX_INDENT: usize = 0;

/// A `code:` header nested deeper than its kind survives: past the limit it
/// and every line under it are ordinary list items.
pub open spec fn too_deep(header_indent: int, lang: Seq<char>) -> bool {
    if spec_mermaid_lang(lang) {
        header_indent > MERMAID_MAX_INDENT
    } else if spec_math_lang(lang) {
        header_indent > MATH_MAX_INDENT
    } else {
        false
    }
}

pub(crate) fn artifact_too_deep(header_indent: usize, lang: &str) -> (b: bool)
    ensures
        b == too_deep(header_indent as int, lang@),
{
    if mermaid_lang(lang) {
        header_indent > MERMAID_MAX_INDENT
    } else if math_lang(lang) {
        header_indent > MATH_MAX_INDENT
    } else {
        false
    }
}

/// What an artifact block is a picture of.
#[derive(Clone, Copy, PartialEq, Eq, Debug, Structural)]
pub enum ArtifactKind {
    /// `code:mmd`: a Mermaid diagram.
    Mermaid,
    /// `code:tex`: a LaTeX formula.
    Math,
}

/// What the browser can draw for the viewer.
#[derive(Clone, Copy, PartialEq, Eq, Debug, Structural)]
pub enum WebKind {
    Mermaid,
}

impl ArtifactKind {
    /// The browser fallback for this kind, where there is one: formulas
    /// stop at text and source.
    pub fn web(self) -> (w: Option<WebKind>)
        ensures
            w == (match self {
                ArtifactKind::Mermaid => Some(WebKind::Mermaid),
                ArtifactKind::Math => None,
            }),
    {
        match self {
            ArtifactKind::Mermaid => Some(WebKind::Mermaid),
            ArtifactKind::Math => None,
        }
    }
}

// ---------------------------------------------------------------------------
// Code and table blocks
// ---------------------------------------------------------------------------

/// Where a `code:` block sits in the source: its header line and the
/// indent depth of its header.
#[derive(Clone, Copy, PartialEq, Eq, Debug, Structural)]
pub struct CodeSpan {
    /// Source index of the header line.
    pub header: usize,
    /// Whitespace width of the header's own indent.
    pub header_indent: usize,
    /// This lookup points at a Mermaid header itself.
    pub mermaid_header: bool,
}

impl CodeSpan {
    /// The indent a line must carry to belong to this block: one step
    /// deeper than the header.
    pub fn body_indent(&self) -> (s: String)
        requires
            self.header_indent < usize::MAX,
        ensures
            s@ == Seq::new((self.header_indent + 1) as nat, |i: int| ' '),
    {
        let n = self.header_indent + 1;
        let mut v: Vec<char> = Vec::new();
        let mut i: usize = 0;
        while i < n
            invariant
                i <= n,
                v@ == Seq::new(i as nat, |k: int| ' '),
            decreases n - i,
        {
            v.push(' ');
            i += 1;
            assert(v@ =~= Seq::new(i as nat, |k: int| ' '));
        }
        string_of(v.as_slice())
    }

    /// Leading whitespace characters stripped from a body line before it
    /// is drawn.
    pub fn strip_chars(&self) -> (n: usize)
        requires
            self.header_indent < usize::MAX,
        ensures
            n == self.header_indent + 1,
    {
        self.header_indent + 1
    }

    /// Does the line wear a bullet instead of a code gutter? Only a nested
    /// Mermaid header does.
    pub fn outline_header(&self) -> (b: bool)
        ensures
            b == (self.mermaid_header && self.header_indent > 0),
    {
        self.mermaid_header && self.header_indent > 0
    }

    /// Display columns before the code: the header's own nesting plus the
    /// block's two-cell gutter.
    pub fn gutter_cols(&self) -> (n: usize)
        requires
            self.header_indent <= usize::MAX / 2,
        ensures
            n == (if self.header_indent == 0 { 0 } else { (self.header_indent - 1) * 2 }) + 2,
    {
        bullet_indent_width(self.header_indent) + 2
    }
}

/// The end (exclusive) of a block whose header is `hi` deep: every
/// following line indented deeper belongs to it.
pub open spec fn block_end(ls: Seq<Seq<char>>, hi: int, j: int) -> int
    decreases ls.len() - j,
{
    if 0 <= j < ls.len() && spec_depth(ls[j]) > hi {
        block_end(ls, hi, j + 1)
    } else {
        j
    }
}

/// A `code:` header that is drawn as a block.
pub open spec fn is_code_header(l: Seq<char>) -> bool {
    let n = spec_depth(l);
    let body = l.skip(n as int);
    has_prefix(body, "code:"@) && !too_deep(n as int, body.skip(5))
}

pub open spec fn is_table_header(l: Seq<char>) -> bool {
    has_prefix(l.skip(spec_depth(l) as int), "table:"@)
}

/// The block that line `i` lies in, scanning headers from `k` on: blocks
/// are found in order and never overlap.
pub open spec fn span_from(ls: Seq<Seq<char>>, i: int, k: int, table: bool) -> Option<CodeSpan>
    decreases ls.len() - k,
{
    if k < 0 || k >= ls.len() {
        None
    } else if !(if table { is_table_header(ls[k]) } else { is_code_header(ls[k]) }) {
        span_from(ls, i, k + 1, table)
    } else {
        let hi = spec_depth(ls[k]);
        let j = block_end(ls, hi as int, k + 1);
        if k <= i < j {
            Some(
                CodeSpan {
                    header: k as usize,
                    header_indent: hi as usize,
                    mermaid_header: !table && i == k && spec_mermaid_lang(ls[k].skip(hi as int).skip(5)),
                },
            )
        } else if i < k || j <= k || j > ls.len() {
            None
        } else {
            span_from(ls, i, j, table)
        }
    }
}

pub open spec fn lines_view(lines: Seq<&str>) -> Seq<Seq<char>> {
    lines.map_values(|l: &str| l@)
}

proof fn lemma_block_end(ls: Seq<Seq<char>>, hi: int, j: int)
    requires
        0 <= j <= ls.len(),
    ensures
        j <= block_end(ls, hi, j) <= ls.len(),
    decreases ls.len() - j,
{
    if j < ls.len() && spec_depth(ls[j]) > hi {
        lemma_block_end(ls, hi, j + 1);
    }
}

/// Is the line a header of the kind asked for?
fn header_kind(line: &str, table: bool) -> (r: bool)
    ensures
        r == (if table { is_table_header(line@) } else { is_code_header(line@) }),
{
    let (n, _, body) = indent_info(line);
    if table {
        return starts_with(body, "table:");
    }
    if !starts_with(body, "code:") {
        return false;
    }
    proof {
        reveal_strlit("code:");
    }
    let lang = body.substring_char(5, body.unicode_len());
    assert(lang@ =~= body@.skip(5));
    !artifact_too_deep(n, lang)
}

fn span_at(lines: &[&str], i: usize, table: bool) -> (r: Option<CodeSpan>)
    ensures
        r == span_from(lines_view(lines@), i as int, 0, table),
{
    let ghost ls = lines_view(lines@);
    let mut k: usize = 0;
    while k < lines.len()
        invariant
            k <= lines.len(),
            ls == lines_view(lines@),
            span_from(ls, i as int, 0, table) == span_from(ls, i as int, k as int, table),
        decreases lines.len() - k,
    {
        assert(ls[k as int] == lines@[k as int]@);
        if !header_kind(lines[k], table) {
            k += 1;
            continue;
        }
        let (hi, _, body) = indent_info(lines[k]);
        let mut j = k + 1;
        while j < lines.len() && depth(lines[j]) > hi
            invariant
                k < j <= lines.len(),
                ls == lines_view(lines@),
                block_end(ls, hi as int, k + 1) == block_end(ls, hi as int, j as int),
            decreases lines.len() - j,
        {
            assert(ls[j as int] == lines@[j as int]@);
            j += 1;
        }
        proof {
            if j < lines.len() {
                assert(ls[j as int] == lines@[j as int]@);
            }
        }
        if i >= k && i < j {
            let mermaid_header = if !table && i == k {
                proof {
                    reveal_strlit("code:");
                }
                let lang = body.substring_char(5, body.unicode_len());
                assert(lang@ =~= body@.skip(5));
                mermaid_lang(lang)
            } else {
                false
            };
            return Some(CodeSpan { header: k, header_indent: hi, mermaid_header });
        }
        if i < k {
            return None;
        }
        k = j;
    }
    None
}

/// Is line `i` inside a `code:` block (header included)? A block's
/// children are the lines indented deeper than its header; a truly empty
/// line has no indent and ends the block.
pub fn code_span_at(lines: &[&str], i: usize) -> (r: Option<CodeSpan>)
    ensures
        r == span_from(lines_view(lines@), i as int, 0, false),
{
    span_at(lines, i, false)
}

/// Is line `i` inside a `table:` block (header included)?
pub fn table_span_at(lines: &[&str], i: usize) -> (r: Option<CodeSpan>)
    ensures
        r == span_from(lines_view(lines@), i as int, 0, true),
{
    span_at(lines, i, true)
}

/// Which source lines are the body of a `code:` block, in one map for the
/// whole page: exactly the lines `code_span_at` places in a block whose
/// header they are not.
pub fn code_line_flags(lines: &[&str]) -> (flags: Vec<bool>)
    ensures
        flags.len() == lines.len(),
        forall|x: int|
            0 <= x < lines.len() ==> #[trigger] flags@[x] == (match span_from(lines_view(lines@), x, 0, false) {
                Some(s) => s.header != x,
                None => false,
            }),
{
    let mut flags: Vec<bool> = Vec::new();
    let mut x: usize = 0;
    while x < lines.len()
        invariant
            x <= lines.len(),
            flags.len() == x,
            forall|y: int|
                0 <= y < x ==> #[trigger] flags@[y] == (match span_from(lines_view(lines@), y, 0, false) {
                    Some(s) => s.header != y,
                    None => false,
                }),
        decreases lines.len() - x,
    {
        let f = match code_span_at(lines, x) {
            Some(s) => s.header != x,
            None => false,
        };
        flags.push(f);
        x += 1;
    }
    flags
}

// ---------------------------------------------------------------------------
// Page titles and what is known of them
// ---------------------------------------------------------------------------

/// What `char::to_lowercase` gives for one character (Unicode's lowercase
/// mapping; one to three characters).
pub uninterp spec fn char_lower(c: char) -> Seq<char>;

/// `char::to_lowercase`, collected. Its result is named, not stated: the
/// mapping is a table.
#[verifier::external_body]
fn char_lowercase(c: char) -> (r: Vec<char>)
    ensures
        r@ == char_lower(c),
{
    c.to_lowercase().collect()
}

/// Whitespace read as `_`.
pub open spec fn fold_ws(s: Seq<char>) -> Seq<char> {
    s.map_values(|c: char| if unicode_whitespace(c) { '_' } else { c })
}

/// Cosense's `titleLc`: each character lowercased, whitespace read as `_`.
pub open spec fn spec_title_lc(t: Seq<char>) -> Seq<char>
    decreases t.len(),
{
    if t.len() == 0 {
        Seq::empty()
    } else {
        spec_title_lc(t.drop_last()) + fold_ws(char_lower(t.last()))
    }
}

/// The form two page titles are compared in: lower case, whitespace folded
/// to `_`. `[AI supported coding]` and `[ai_supported_coding]` are one page.
pub fn title_lc(title: &str) -> (s: String)
    ensures
        s@ == spec_title_lc(title@),
{
    let cs = chars_of(title);
    let mut out: Vec<char> = Vec::new();
    let mut i: usize = 0;
    while i < cs.len()
        invariant
            i <= cs.len(),
            cs@ == title@,
            out@ == spec_title_lc(title@.take(i as int)),
        decreases cs.len() - i,
    {
        assert(title@.take(i + 1).drop_last() =~= title@.take(i as int));
        let low = char_lowercase(cs[i]);
        let ghost before = out@;
        let mut j: usize = 0;
        while j < low.len()
            invariant
                j <= low.len(),
                out@ == before + fold_ws(low@.take(j as int)),
            decreases low.len() - j,
        {
            let c = low[j];
            if is_whitespace(c) {
                out.push('_');
            } else {
                out.push(c);
            }
            j += 1;
            assert(fold_ws(low@.take(j as int)) =~= fold_ws(low@.take(j - 1)).push(
                if unicode_whitespace(c) { '_' } else { c },
            ));
        }
        assert(low@.take(low.len() as int) =~= low@);
        i += 1;
    }
    assert(title@.take(cs.len() as int) =~= title@);
    string_of(out.as_slice())
}

/// The answers held, as a map from folded title to "exists".
pub open spec fn answers(v: Seq<(String, bool)>) -> Map<Seq<char>, bool>
    decreases v.len(),
{
    if v.len() == 0 {
        Map::empty()
    } else {
        answers(v.drop_last()).insert(v.last().0@, v.last().1)
    }
}

/// No title is held twice.
pub open spec fn keys_unique(v: Seq<(String, bool)>) -> bool {
    forall|a: int, b: int| 0 <= a < b < v.len() ==> (#[trigger] v[a]).0@ != (#[trigger] v[b]).0@
}

/// What is known about the pages a page links to, by folded title: exists,
/// does not exist, or (absent) not known yet.
#[derive(Debug, Clone)]
pub struct LinkTruth {
    known: Vec<(String, bool)>,
}

impl Default for LinkTruth {
    /// Nothing known yet.
    fn default() -> (m: Self)
        ensures
            m.wf(),
            m@ == Map::<Seq<char>, bool>::empty(),
    {
        LinkTruth::new()
    }
}

impl View for LinkTruth {
    type V = Map<Seq<char>, bool>;

    closed spec fn view(&self) -> Map<Seq<char>, bool> {
        answers(self.known@)
    }
}

proof fn lemma_answers_dom(v: Seq<(String, bool)>)
    ensures
        forall|k: Seq<char>|
            #[trigger] answers(v).contains_key(k) <==> exists|i: int| 0 <= i < v.len() && v[i].0@ == k,
    decreases v.len(),
{
    if v.len() > 0 {
        lemma_answers_dom(v.drop_last());
        assert forall|k: Seq<char>| #[trigger] answers(v).contains_key(k) implies exists|i: int|
            0 <= i < v.len() && v[i].0@ == k by {
            if k != v.last().0@ {
                assert(answers(v.drop_last()).contains_key(k));
                let i = choose|i: int| 0 <= i < v.drop_last().len() && v.drop_last()[i].0@ == k;
                assert(v[i] == v.drop_last()[i]);
            } else {
                assert(v[v.len() - 1].0@ == k);
            }
        }
        assert forall|k: Seq<char>| (exists|i: int| 0 <= i < v.len() && v[i].0@ == k) implies #[trigger] answers(
            v,
        ).contains_key(k) by {
            let i = choose|i: int| 0 <= i < v.len() && v[i].0@ == k;
            if i < v.len() - 1 {
                assert(v.drop_last()[i] == v[i]);
                assert(answers(v.drop_last()).contains_key(k));
            }
        }
    }
}

proof fn lemma_answers_at(v: Seq<(String, bool)>, i: int)
    requires
        keys_unique(v),
        0 <= i < v.len(),
    ensures
        answers(v).contains_key(v[i].0@),
        answers(v)[v[i].0@] == v[i].1,
    decreases v.len(),
{
    if i < v.len() - 1 {
        assert(v.drop_last()[i] == v[i]);
        assert(keys_unique(v.drop_last())) by {
            assert forall|a: int, b: int| 0 <= a < b < v.drop_last().len() implies (#[trigger] v.drop_last()[a]).0@
                != (#[trigger] v.drop_last()[b]).0@ by {
                assert(v.drop_last()[a] == v[a] && v.drop_last()[b] == v[b]);
            }
        }
        lemma_answers_at(v.drop_last(), i);
        assert(v[i].0@ != v.last().0@);
    }
}

proof fn lemma_answers_update(v: Seq<(String, bool)>, i: int, val: bool)
    requires
        keys_unique(v),
        0 <= i < v.len(),
    ensures
        answers(v.update(i, (v[i].0, val))) == answers(v).insert(v[i].0@, val),
    decreases v.len(),
{
    let w = v.update(i, (v[i].0, val));
    if i == v.len() - 1 {
        assert(w.drop_last() =~= v.drop_last());
        assert(answers(w) =~= answers(v).insert(v[i].0@, val));
    } else {
        assert(keys_unique(v.drop_last())) by {
            assert forall|a: int, b: int| 0 <= a < b < v.drop_last().len() implies (#[trigger] v.drop_last()[a]).0@
                != (#[trigger] v.drop_last()[b]).0@ by {
                assert(v.drop_last()[a] == v[a] && v.drop_last()[b] == v[b]);
            }
        }
        lemma_answers_update(v.drop_last(), i, val);
        assert(w.drop_last() =~= v.drop_last().update(i, (v[i].0, val)));
        assert(v[i].0@ != v.last().0@);
        assert(answers(w) =~= answers(v).insert(v[i].0@, val));
    }
}

impl LinkTruth {
    pub closed spec fn wf(&self) -> bool {
        keys_unique(self.known@)
    }

    /// Nothing known yet.
    pub fn new() -> (m: Self)
        ensures
            m.wf(),
            m@ == Map::<Seq<char>, bool>::empty(),
    {
        let m = LinkTruth { known: Vec::new() };
        assert(m@ =~= Map::<Seq<char>, bool>::empty());
        m
    }

    /// The position holding folded title `key`, if any.
    fn find(&self, key: &str) -> (r: Option<usize>)
        requires
            self.wf(),
        ensures
            match r {
                Some(i) => i < self.known.len() && self.known@[i as int].0@ == key@,
                None => !self@.contains_key(key@),
            },
    {
        let mut i: usize = 0;
        while i < self.known.len()
            invariant
                i <= self.known.len(),
                forall|k: int| 0 <= k < i ==> self.known@[k].0@ != key@,
            decreases self.known.len() - i,
        {
            if str_eq(self.known[i].0.as_str(), key) {
                return Some(i);
            }
            i += 1;
        }
        proof {
            lemma_answers_dom(self.known@);
        }
        None
    }

    /// Set the answer for folded title `key`, later answers winning.
    fn put(&mut self, key: String, exists: bool, keep: bool)
        requires
            old(self).wf(),
        ensures
            final(self).wf(),
            final(self)@ == (if keep && old(self)@.contains_key(key@) {
                old(self)@
            } else {
                old(self)@.insert(key@, exists)
            }),
    {
        match self.find(key.as_str()) {
            Some(i) => {
                proof {
                    lemma_answers_at(self.known@, i as int);
                }
                if !keep {
                    let ghost before = self.known@;
                    let name = self.known[i].0.clone();
                    self.known.set(i, (name, exists));
                    proof {
                        assert(self.known@ =~= before.update(i as int, (before[i as int].0, exists)));
                        lemma_answers_update(before, i as int, exists);
                        assert forall|a: int, b: int| 0 <= a < b < self.known@.len() implies (#[trigger] self.known@[a]).0@
                            != (#[trigger] self.known@[b]).0@ by {
                            assert(self.known@[a].0@ == before[a].0@);
                            assert(self.known@[b].0@ == before[b].0@);
                        }
                    }
                } else {
                    assert(answers(self.known@).insert(key@, self.known@[i as int].1) =~= answers(self.known@));
                }
            },
            None => {
                let ghost before = self.known@;
                self.known.push((key, exists));
                proof {
                    assert(self.known@.drop_last() =~= before);
                    lemma_answers_dom(before);
                    assert forall|a: int, b: int| 0 <= a < b < self.known@.len() implies (#[trigger] self.known@[a]).0@
                        != (#[trigger] self.known@[b]).0@ by {
                        if b == self.known@.len() - 1 {
                            assert(self.known@[a] == before[a]);
                            assert(answers(before).contains_key(before[a].0@));
                        } else {
                            assert(self.known@[a] == before[a] && self.known@[b] == before[b]);
                        }
                    }
                }
            },
        }
    }

    /// Read a page response: every title in `existing` exists; every link
    /// not among them was never written.
    pub fn seed(links: &[&str], existing: &[&str]) -> (m: Self)
        ensures
            m.wf(),
            forall|k: Seq<char>|
                #[trigger] m@.contains_key(k) <==> ((exists|i: int|
                    0 <= i < existing@.len() && spec_title_lc(existing@[i]@) == k) || (exists|i: int|
                    0 <= i < links@.len() && spec_title_lc(links@[i]@) == k)),
            forall|k: Seq<char>|
                #[trigger] m@.contains_key(k) ==> (m@[k] <==> exists|i: int|
                    0 <= i < existing@.len() && spec_title_lc(existing@[i]@) == k),
    {
        let mut m = LinkTruth { known: Vec::new() };
        let mut i: usize = 0;
        while i < existing.len()
            invariant
                i <= existing.len(),
                m.wf(),
                forall|k: Seq<char>|
                    #[trigger] m@.contains_key(k) <==> exists|j: int|
                        0 <= j < i && spec_title_lc(existing@[j]@) == k,
                forall|k: Seq<char>| #[trigger] m@.contains_key(k) ==> m@[k],
            decreases existing.len() - i,
        {
            let key = title_lc(existing[i]);
            m.put(key, true, false);
            proof {
                assert forall|k: Seq<char>| #[trigger] m@.contains_key(k) <==> exists|j: int|
                    0 <= j < i + 1 && spec_title_lc(existing@[j]@) == k by {
                    if m@.contains_key(k) && k != spec_title_lc(existing@[i as int]@) {
                        let j = choose|j: int| 0 <= j < i && spec_title_lc(existing@[j]@) == k;
                    }
                }
            }
            i += 1;
        }
        let mut l: usize = 0;
        while l < links.len()
            invariant
                l <= links.len(),
                m.wf(),
                forall|k: Seq<char>|
                    #[trigger] m@.contains_key(k) <==> ((exists|j: int|
                        0 <= j < existing@.len() && spec_title_lc(existing@[j]@) == k) || (exists|j: int|
                        0 <= j < l && spec_title_lc(links@[j]@) == k)),
                forall|k: Seq<char>|
                    #[trigger] m@.contains_key(k) ==> (m@[k] <==> exists|j: int|
                        0 <= j < existing@.len() && spec_title_lc(existing@[j]@) == k),
            decreases links.len() - l,
        {
            let key = title_lc(links[l]);
            let ghost kk = key@;
            let ghost before = m@;
            m.put(key, false, true);
            proof {
                if !before.contains_key(kk) {
                    assert(!(exists|j: int| 0 <= j < existing@.len() && spec_title_lc(existing@[j]@) == kk));
                }
                assert forall|k: Seq<char>| #[trigger] m@.contains_key(k) <==> ((exists|j: int|
                    0 <= j < existing@.len() && spec_title_lc(existing@[j]@) == k) || (exists|j: int|
                    0 <= j < l + 1 && spec_title_lc(links@[j]@) == k)) by {
                    if k == kk {
                        assert(spec_title_lc(links@[l as int]@) == k);
                    } else if m@.contains_key(k) {
                        assert(before.contains_key(k));
                    }
                }
            }
            l += 1;
        }
        m
    }

    /// Record one answer. A later answer wins: pages are written and
    /// deleted while the viewer is open.
    pub fn learn(&mut self, title: &str, exists: bool)
        requires
            old(self).wf(),
        ensures
            final(self).wf(),
            final(self)@ == old(self)@.insert(spec_title_lc(title@), exists),
    {
        let key = title_lc(title);
        self.put(key, exists, false);
    }

    /// Fold another set of answers in, letting `other` win.
    pub fn absorb(&mut self, other: LinkTruth)
        requires
            old(self).wf(),
            other.wf(),
        ensures
            final(self).wf(),
            final(self)@ == old(self)@.union_prefer_right(other@),
    {
        let mut i: usize = 0;
        let ghost start = self@;
        while i < other.known.len()
            invariant
                i <= other.known.len(),
                self.wf(),
                other.wf(),
                self@ == start.union_prefer_right(answers(other.known@.take(i as int))),
            decreases other.known.len() - i,
        {
            let (k, v) = (other.known[i].0.clone(), other.known[i].1);
            assert(other.known@.take(i + 1).drop_last() =~= other.known@.take(i as int));
            self.put(k, v, false);
            assert(self@ =~= start.union_prefer_right(answers(other.known@.take(i + 1))));
            i += 1;
        }
        assert(other.known@.take(other.known.len() as int) =~= other.known@);
    }

    /// Forget every "does not exist" before reading another page: an answer
    /// of live travels, an answer of dead does not.
    pub fn forget_dead(&mut self)
        requires
            old(self).wf(),
        ensures
            final(self).wf(),
            forall|k: Seq<char>|
                #[trigger] final(self)@.contains_key(k) <==> (old(self)@.contains_key(k) && old(self)@[k]),
            forall|k: Seq<char>| #[trigger] final(self)@.contains_key(k) ==> final(self)@[k],
    {
        let ghost before = self.known@;
        proof {
            lemma_answers_dom(before);
        }
        let mut kept: Vec<(String, bool)> = Vec::new();
        let mut i: usize = 0;
        while i < self.known.len()
            invariant
                i <= self.known.len(),
                before == self.known@,
                keys_unique(before),
                keys_unique(kept@),
                forall|a: int| 0 <= a < kept.len() ==> (#[trigger] kept@[a]).1,
                forall|a: int|
                    0 <= a < kept.len() ==> exists|b: int| 0 <= b < i && before[b] == #[trigger] kept@[a],
                forall|b: int|
                    0 <= b < i && (#[trigger] before[b]).1 ==> exists|a: int| 0 <= a < kept.len() && kept@[a] == before[b],
            decreases self.known.len() - i,
        {
            if self.known[i].1 {
                let ghost kb = kept@;
                let name = self.known[i].0.clone();
                kept.push((name, true));
                proof {
                    assert(kept@[kb.len() as int] == before[i as int]);
                    assert forall|a: int, b: int| 0 <= a < b < kept@.len() implies (#[trigger] kept@[a]).0@
                        != (#[trigger] kept@[b]).0@ by {
                        if b == kb.len() {
                            let c = choose|c: int| 0 <= c < i && before[c] == kb[a];
                            assert(kept@[a] == kb[a]);
                        } else {
                            assert(kept@[a] == kb[a] && kept@[b] == kb[b]);
                        }
                    }
                    assert forall|a: int| 0 <= a < kept.len() implies exists|b: int|
                        0 <= b < i + 1 && before[b] == #[trigger] kept@[a] by {
                        if a < kb.len() {
                            assert(kept@[a] == kb[a]);
                            let c = choose|c: int| 0 <= c < i && before[c] == kb[a];
                        } else {
                            assert(before[i as int] == kept@[a]);
                        }
                    }
                    assert forall|b: int| 0 <= b < i + 1 && (#[trigger] before[b]).1 implies exists|a: int|
                        0 <= a < kept.len() && kept@[a] == before[b] by {
                        if b < i {
                            let a = choose|a: int| 0 <= a < kb.len() && kb[a] == before[b];
                            assert(kept@[a] == kb[a]);
                        } else {
                            assert(kept@[kb.len() as int] == before[b]);
                        }
                    }
                }
            }
            i += 1;
        }
        self.known = kept;
        proof {
            lemma_answers_dom(self.known@);
            assert forall|k: Seq<char>| #[trigger] self@.contains_key(k) <==> (answers(before).contains_key(k)
                && answers(before)[k]) by {
                if self@.contains_key(k) {
                    let a = choose|a: int| 0 <= a < self.known@.len() && self.known@[a].0@ == k;
                    let b = choose|b: int| 0 <= b < before.len() && before[b] == self.known@[a];
                    lemma_answers_at(before, b);
                }
                if answers(before).contains_key(k) && answers(before)[k] {
                    let b = choose|b: int| 0 <= b < before.len() && before[b].0@ == k;
                    lemma_answers_at(before, b);
                    let a = choose|a: int| 0 <= a < self.known@.len() && self.known@[a] == before[b];
                }
            }
            assert forall|k: Seq<char>| #[trigger] self@.contains_key(k) implies self@[k] by {
                let a = choose|a: int| 0 <= a < self.known@.len() && self.known@[a].0@ == k;
                lemma_answers_at(self.known@, a);
            }
        }
    }

    /// `None` = nobody has looked yet.
    pub fn page_exists(&self, title: &str) -> (r: Option<bool>)
        requires
            self.wf(),
        ensures
            r == (if self@.contains_key(spec_title_lc(title@)) {
                Some(self@[spec_title_lc(title@)])
            } else {
                None
            }),
    {
        if self.known.len() == 0 {
            return None;
        }
        let key = title_lc(title);
        match self.find(key.as_str()) {
            Some(i) => {
                proof {
                    lemma_answers_at(self.known@, i as int);
                }
                Some(self.known[i].1)
            },
            None => None,
        }
    }

    /// The one state worth colouring: known not to exist.
    pub fn missing(&self, title: &str) -> (b: bool)
        requires
            self.wf(),
        ensures
            b == (self@.contains_key(spec_title_lc(title@)) && !self@[spec_title_lc(title@)]),
    {
        match self.page_exists(title) {
            Some(e) => !e,
            None => false,
        }
    }

    pub fn is_empty(&self) -> (b: bool)
        requires
            self.wf(),
        ensures
            b == (self@.dom().len() == 0),
    {
        proof {
            lemma_answers_dom(self.known@);
            lemma_answers_finite(self.known@);
            if self.known@.len() > 0 {
                assert(self@.contains_key(self.known@[0].0@));
            } else {
                assert(self@ =~= Map::<Seq<char>, bool>::empty());
            }
        }
        self.known.len() == 0
    }
}

proof fn lemma_answers_finite(v: Seq<(String, bool)>)
    ensures
        answers(v).dom().finite(),
    decreases v.len(),
{
    if v.len() > 0 {
        lemma_answers_finite(v.drop_last());
    }
}

// ---------------------------------------------------------------------------
// What a rendered line leads to
// ---------------------------------------------------------------------------

/// Links and images found while rendering, for navigation and prefetch.
#[derive(Debug, Default, Clone)]
pub struct Extracted {
    pub links: Vec<String>,
    pub images: Vec<String>,
}

/// One followable thing on a rendered line: which span of the line it is,
/// and what following it does.
#[derive(Debug, Clone, PartialEq, Eq)]
pub struct Hit {
    /// Index into the rendered line's spans.
    pub span: usize,
    pub target: HitTarget,
}

/// What a hit leads to, close to the notation.
#[derive(Debug, Clone, PartialEq, Eq)]
pub enum HitTarget {
    /// The text inside a page link's brackets, or a `#tag` without its `#`.
    Page(String),
    Url { label: String, url: String },
    /// A `code:name` / `table:name` header, served as a file.
    BlockLabel,
}

} // verus!
