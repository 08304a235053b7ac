//! Line selection and review comments for Cosense pages.
//!
//! A comment anchors to a run of a page's lines and carries both the exact
//! line text and the Cosense line ids, so its export can be acted on by an
//! agent that edits lines by their exact text and deep-links by line id
//! (`https://scrapbox.io/{project}/{title}#{lineId}`).
use vstd::prelude::*;
use crate::text::{dec_str, seq_less, lemma_seq_less_asym, lemma_seq_less_trans, lemma_seq_less_total, split_on, without_char, spec_trim_end, spec_trim, join_with, replace_char, prefixed, to_decimal, chars_of, string_of, remove_char, split_str, trim_end, trim, join_strs, replace_chars, str_less, str_eq};
use crate::clock::{format_stamp, spec_stamp};

verus! {

/// A range selection over a page's lines (0-based), anchored where it was
/// started and extended from there.
#[derive(Clone, Copy, PartialEq, Eq, Debug, Structural)]
pub struct Selection {
    pub anchor: usize,
    pub cursor: usize,
}

impl Selection {
    pub fn new(anchor: usize) -> (s: Self)
        ensures
            s.anchor == anchor,
            s.cursor == anchor,
    {
        Selection { anchor, cursor: anchor }
    }

    /// Inclusive 0-based range, normalized so start <= end.
    pub fn range(&self) -> (r: (usize, usize))
        ensures
            r.0 == (if self.anchor <= self.cursor { self.anchor } else { self.cursor }),
            r.1 == (if self.anchor <= self.cursor { self.cursor } else { self.anchor }),
    {
        if self.anchor <= self.cursor {
            (self.anchor, self.cursor)
        } else {
            (self.cursor, self.anchor)
        }
    }

    pub fn contains(&self, line: usize) -> (b: bool)
        ensures
            b == ((self.anchor <= line || self.cursor <= line) && (line <= self.anchor || line
                <= self.cursor)),
    {
        let (a, b) = self.range();
        a <= line && line <= b
    }
}

/// The page revision a comment was written on, when it was not the live
/// page: a Page History snapshot.
#[derive(Clone, PartialEq, Eq, Debug)]
pub struct Revision {
    /// The snapshot's id.
    pub snapshot_id: String,
    /// The snapshot's time, epoch seconds.
    pub created: i64,
}

/// A comment anchored to a run of a page's lines.
#[derive(Clone, PartialEq, Eq, Debug)]
pub struct Comment {
    pub project: String,
    pub title: String,
    /// The page's immutable id. Empty for a page that does not exist yet.
    pub page_id: String,
    /// `None` = written on the live page.
    pub revision: Option<Revision>,
    /// 0-based first/last line index into the page's line list.
    pub start: usize,
    pub end: usize,
    /// The exact text of each anchored line.
    pub line_texts: Vec<String>,
    /// The Cosense line ids of each anchored line.
    pub line_ids: Vec<String>,
    /// The comment body: what is asked of the lines.
    pub text: String,
}

// ---------------------------------------------------------------------------
// What the texts are
// ---------------------------------------------------------------------------

/// One character of a title in a readable link: spaces become `_`, and
/// only `%`, `/`, `?` and `#` are percent-encoded.
pub open spec fn url_char(c: char) -> Seq<char> {
    if c == '%' {
        seq!['%', '2', '5']
    } else if c == '/' {
        seq!['%', '2', 'F']
    } else if c == '?' {
        seq!['%', '3', 'F']
    } else if c == '#' {
        seq!['%', '2', '3']
    } else if c == ' ' {
        seq!['_']
    } else {
        seq![c]
    }
}

pub open spec fn spec_encode_title(s: Seq<char>) -> Seq<char>
    decreases s.len(),
{
    if s.len() == 0 {
        Seq::empty()
    } else {
        spec_encode_title(s.drop_last()) + url_char(s.last())
    }
}

/// `12-14` or `31`: the 1-based line range.
pub open spec fn spec_range_label(start: nat, end: nat) -> Seq<char> {
    if start == end {
        dec_str(start + 1)
    } else {
        dec_str(start + 1) + seq!['-'] + dec_str(end + 1)
    }
}

/// The deep link: the page, and the first anchored line when it has an id.
pub open spec fn spec_edit_url(c: Comment) -> Seq<char> {
    let page = "https://scrapbox.io/"@ + c.project@ + seq!['/'] + spec_encode_title(c.title@);
    if c.line_ids@.len() > 0 && c.line_ids@[0]@.len() > 0 {
        page + seq!['#'] + c.line_ids@[0]@
    } else {
        page
    }
}

/// The location line, and for a past revision the snapshot line below it.
pub open spec fn spec_location(c: Comment, utc_offset: int) -> Seq<char> {
    let head = spec_edit_url(c) + " L"@ + spec_range_label(c.start as nat, c.end as nat);
    match c.revision {
        Some(r) => head + "\nSnapshot: "@ + r.snapshot_id@ + " ("@ + spec_stamp(r.created + utc_offset)
            + ") — cosense readPageSnapshot https://scrapbox.io/"@ + c.project@ + " "@ + c.page_id@
            + " "@ + r.snapshot_id@,
        None => head,
    }
}

/// The `i`-th quoted line: `> text`, and `  # id` when the line has one.
pub open spec fn quote_line(c: Comment, i: int) -> Seq<char> {
    if i < c.line_ids@.len() && c.line_ids@[i]@.len() > 0 {
        "> "@ + c.line_texts@[i]@ + "  # "@ + c.line_ids@[i]@
    } else {
        "> "@ + c.line_texts@[i]@
    }
}

/// The quote block's lines; a comment with no lines quotes an empty one.
pub open spec fn quote_lines(c: Comment) -> Seq<Seq<char>> {
    if c.line_texts@.len() == 0 {
        seq!["> "@]
    } else {
        Seq::new(c.line_texts@.len(), |i: int| quote_line(c, i))
    }
}

/// The lines of a comment body that are kept: carriage returns dropped,
/// each line without trailing whitespace, blank lines left out.
pub open spec fn kept_lines(pieces: Seq<Seq<char>>) -> Seq<Seq<char>>
    decreases pieces.len(),
{
    if pieces.len() == 0 {
        Seq::empty()
    } else {
        let rest = kept_lines(pieces.drop_last());
        let l = spec_trim_end(pieces.last());
        if spec_trim(l).len() > 0 {
            rest.push(l)
        } else {
            rest
        }
    }
}

pub open spec fn body_lines(text: Seq<char>) -> Seq<Seq<char>> {
    kept_lines(split_on(without_char(text, '\r'), '\n'))
}

/// The comment body as exported: its kept lines, one per line.
pub open spec fn spec_normalize(text: Seq<char>) -> Seq<char> {
    join_with(body_lines(text), "\n"@)
}

/// One comment as a chat reply reads: where it is, the quoted lines, a
/// blank line, then the comment. As item `n` of several, the number goes
/// in front of the location and the rest is indented under it.
pub open spec fn spec_format(c: Comment, number: Option<nat>, utc_offset: int) -> Seq<char> {
    let location = spec_location(c, utc_offset);
    match number {
        None => location + "\n"@ + join_with(quote_lines(c), "\n"@) + "\n\n"@ + spec_normalize(
            c.text@,
        ),
        Some(n) => dec_str(n) + ". "@ + replace_char(location, '\n', "\n   "@) + prefixed(
            quote_lines(c),
            "\n   "@,
        ) + "\n"@ + prefixed(body_lines(c.text@), "\n    "@),
    }
}

/// The order comments are exported in: by project, then title, then first
/// line.
pub open spec fn comment_before(a: Comment, b: Comment) -> bool {
    ||| seq_less(a.project@, b.project@)
    ||| a.project@ == b.project@ && seq_less(a.title@, b.title@)
    ||| a.project@ == b.project@ && a.title@ == b.title@ && a.start < b.start
}

/// `i` comes before `j` in the export: by the comments' order, and by their
/// place in the input when neither comes first (the sort is stable).
pub open spec fn index_before(cs: Seq<Comment>, i: int, j: int) -> bool {
    comment_before(cs[i], cs[j]) || (!comment_before(cs[j], cs[i]) && i < j)
}

/// `ord` lists every index of `cs` once, in export order.
pub open spec fn export_order(cs: Seq<Comment>, ord: Seq<int>) -> bool {
    &&& ord.len() == cs.len()
    &&& forall|k: int| 0 <= k < ord.len() ==> 0 <= #[trigger] ord[k] < cs.len()
    &&& forall|k: int, l: int| 0 <= k < l < ord.len() ==> index_before(cs, #[trigger] ord[k], #[trigger] ord[l])
}

/// Several comments, one blank line between blocks; two or more are
/// numbered in export order.
pub open spec fn spec_format_all(cs: Seq<Comment>, ord: Seq<int>, utc_offset: int) -> Seq<char> {
    let blocks = Seq::new(
        ord.len(),
        |k: int|
            spec_format(
                cs[ord[k]],
                if ord.len() > 1 { Some((k + 1) as nat) } else { None },
                utc_offset,
            ),
    );
    join_with(blocks, "\n\n"@)
}

proof fn lemma_before_order(a: Comment, b: Comment, c: Comment)
    ensures
        !comment_before(a, a),
        comment_before(a, b) ==> !comment_before(b, a),
        comment_before(a, b) && comment_before(b, c) ==> comment_before(a, c),
{
    lemma_seq_less_asym(a.project@, b.project@);
    lemma_seq_less_asym(a.title@, b.title@);
    if comment_before(a, b) && comment_before(b, c) {
        if seq_less(a.project@, b.project@) && seq_less(b.project@, c.project@) {
            lemma_seq_less_trans(a.project@, b.project@, c.project@);
        }
        if seq_less(a.title@, b.title@) && seq_less(b.title@, c.title@) {
            lemma_seq_less_trans(a.title@, b.title@, c.title@);
        }
    }
}

proof fn lemma_index_before_trans(cs: Seq<Comment>, i: int, j: int, k: int)
    requires
        0 <= i < cs.len(),
        0 <= j < cs.len(),
        0 <= k < cs.len(),
        index_before(cs, i, j),
        index_before(cs, j, k),
    ensures
        index_before(cs, i, k),
{
    lemma_before_order(cs[i], cs[j], cs[k]);
    lemma_before_order(cs[j], cs[k], cs[i]);
    lemma_before_order(cs[k], cs[i], cs[j]);
    lemma_before_order(cs[i], cs[k], cs[j]);
    lemma_before_order(cs[j], cs[i], cs[k]);
    lemma_before_order(cs[k], cs[j], cs[i]);
    lemma_seq_less_total(cs[i].project@, cs[k].project@);
    lemma_seq_less_total(cs[i].title@, cs[k].title@);
    lemma_seq_less_total(cs[i].project@, cs[j].project@);
    lemma_seq_less_total(cs[i].title@, cs[j].title@);
    lemma_seq_less_total(cs[j].project@, cs[k].project@);
    lemma_seq_less_total(cs[j].title@, cs[k].title@);
}

// ---------------------------------------------------------------------------
// The functions
// ---------------------------------------------------------------------------

impl Comment {
    /// 1-based inline card title, e.g. `12-14` or `31`.
    pub fn range_label(&self) -> (s: String)
        requires
            self.start < usize::MAX,
            self.end < usize::MAX,
        ensures
            s@ == spec_range_label(self.start as nat, self.end as nat),
    {
        let a = to_decimal(self.start as u128 + 1);
        if self.start == self.end {
            a
        } else {
            let mut s = a;
            s.append("-");
            s.append(to_decimal(self.end as u128 + 1).as_str());
            proof {
                reveal_strlit("-");
            }
            s
        }
    }

    /// Deep link to the first anchored line, or to the page when that line
    /// has no id.
    pub fn edit_url(&self) -> (s: String)
        ensures
            s@ == spec_edit_url(*self),
    {
        let title = encode_title_for_url(self.title.as_str());
        let mut s = String::new();
        s.append("https://scrapbox.io/");
        s.append(self.project.as_str());
        s.append("/");
        s.append(title.as_str());
        proof {
            reveal_strlit("/");
            reveal_strlit("#");
        }
        if self.line_ids.len() > 0 && !self.line_ids[0].as_str().is_empty() {
            s.append("#");
            s.append(self.line_ids[0].as_str());
        }
        s
    }

    pub fn covers(&self, line: usize) -> (b: bool)
        ensures
            b == (self.start <= line && line <= self.end),
    {
        self.start <= line && line <= self.end
    }

    /// The snapshot this comment belongs to, `None` for the live page.
    pub fn snapshot_id(&self) -> (r: Option<&str>)
        ensures
            match self.revision {
                Some(rev) => r is Some && r->Some_0@ == rev.snapshot_id@,
                None => r is None,
            },
    {
        match &self.revision {
            Some(r) => Some(r.snapshot_id.as_str()),
            None => None,
        }
    }

    /// The revision's time as shown on cards and in the list (shifted to
    /// local time by `utc_offset` seconds), `None` for the live page.
    pub fn revision_label(&self, utc_offset: i64) -> (r: Option<String>)
        ensures
            match self.revision {
                Some(rev) => r is Some && r->Some_0@ == spec_stamp(rev.created + utc_offset),
                None => r is None,
            },
    {
        match &self.revision {
            Some(r) => Some(format_stamp(r.created, utc_offset)),
            None => None,
        }
    }
}

/// A page title as Cosense's readable link writes it: Unicode stays raw,
/// spaces become `_`, and only `%` `/` `?` `#` are percent-encoded.
pub fn encode_title_for_url(title: &str) -> (s: String)
    ensures
        s@ == spec_encode_title(title@),
{
    let cs = chars_of(title);
    let mut out: Vec<char> = Vec::new();
    let mut i: usize = 0;
    while i < cs.len()
        invariant
            i <= cs.len(),
            cs@ == title@,
            out@ == spec_encode_title(title@.take(i as int)),
        decreases cs.len() - i,
    {
        let c = cs[i];
        assert(title@.take(i + 1).drop_last() =~= title@.take(i as int));
        let ghost before = out@;
        if c == '%' {
            out.push('%');
            out.push('2');
            out.push('5');
        } else if c == '/' {
            out.push('%');
            out.push('2');
            out.push('F');
        } else if c == '?' {
            out.push('%');
            out.push('3');
            out.push('F');
        } else if c == '#' {
            out.push('%');
            out.push('2');
            out.push('3');
        } else if c == ' ' {
            out.push('_');
        } else {
            out.push(c);
        }
        assert(out@ =~= before + url_char(c));
        i += 1;
    }
    assert(title@.take(cs.len() as int) =~= title@);
    string_of(out.as_slice())
}

/// The kept lines of a comment body.
fn normalized_lines(text: &str) -> (lines: Vec<String>)
    ensures
        lines.deep_view() == body_lines(text@),
{
    let flat = remove_char(text, '\r');
    let pieces = split_str(flat.as_str(), '\n');
    let ghost ps = pieces.deep_view();
    let mut out: Vec<String> = Vec::new();
    let mut i: usize = 0;
    while i < pieces.len()
        invariant
            i <= pieces.len(),
            ps == pieces.deep_view(),
            ps == split_on(without_char(text@, '\r'), '\n'),
            out.deep_view() == kept_lines(ps.take(i as int)),
        decreases pieces.len() - i,
    {
        assert(ps.take(i + 1).drop_last() =~= ps.take(i as int));
        assert(ps.take(i + 1).last() == pieces[i as int]@);
        let l = trim_end(pieces[i].as_str());
        let t = trim(l.as_str());
        if !t.as_str().is_empty() {
            let ghost before = out.deep_view();
            out.push(l);
            assert(out.deep_view() =~= before.push(l@));
        }
        i += 1;
    }
    assert(ps.take(pieces.len() as int) =~= ps);
    out
}

/// Comment body cleanup: carriage returns dropped, trailing space trimmed,
/// blank lines dropped, so a body cannot introduce a block separator.
fn normalize_text(text: &str) -> (s: String)
    ensures
        s@ == spec_normalize(text@),
{
    let lines = normalized_lines(text);
    join_strs(lines.as_slice(), "\n")
}

/// The quote block's lines.
fn quote_block(c: &Comment) -> (q: Vec<String>)
    ensures
        q.deep_view() == quote_lines(*c),
{
    let mut q: Vec<String> = Vec::new();
    let mut i: usize = 0;
    while i < c.line_texts.len()
        invariant
            i <= c.line_texts.len(),
            q.len() == i,
            forall|k: int| 0 <= k < i ==> #[trigger] q@[k]@ == quote_line(*c, k),
        decreases c.line_texts.len() - i,
    {
        let mut line = String::new();
        line.append("> ");
        line.append(c.line_texts[i].as_str());
        if i < c.line_ids.len() && !c.line_ids[i].as_str().is_empty() {
            line.append("  # ");
            line.append(c.line_ids[i].as_str());
        }
        q.push(line);
        i += 1;
    }
    if q.len() == 0 {
        q.push("> ".to_string());
        assert(q.deep_view() =~= quote_lines(*c));
    } else {
        assert(q.deep_view() =~= quote_lines(*c));
    }
    q
}

/// The location line (and the snapshot line of a past revision).
fn location_of(c: &Comment, utc_offset: i64) -> (s: String)
    requires
        c.start < usize::MAX,
        c.end < usize::MAX,
    ensures
        s@ == spec_location(*c, utc_offset as int),
{
    let mut s = c.edit_url();
    s.append(" L");
    s.append(c.range_label().as_str());
    match &c.revision {
        Some(r) => {
            s.append("\nSnapshot: ");
            s.append(r.snapshot_id.as_str());
            s.append(" (");
            s.append(format_stamp(r.created, utc_offset).as_str());
            s.append(") — cosense readPageSnapshot https://scrapbox.io/");
            s.append(c.project.as_str());
            s.append(" ");
            s.append(c.page_id.as_str());
            s.append(" ");
            s.append(r.snapshot_id.as_str());
        },
        None => {},
    }
    s
}

/// Run the pieces together, each preceded by `pre`.
fn append_prefixed(out: &mut String, parts: &Vec<String>, pre: &str)
    ensures
        final(out)@ == old(out)@ + prefixed(parts.deep_view(), pre@),
{
    let ghost start = out@;
    let mut i: usize = 0;
    while i < parts.len()
        invariant
            i <= parts.len(),
            out@ == start + prefixed(parts.deep_view().take(i as int), pre@),
        decreases parts.len() - i,
    {
        assert(parts.deep_view().take(i + 1).drop_last() =~= parts.deep_view().take(i as int));
        out.append(pre);
        out.append(parts[i].as_str());
        i += 1;
    }
    assert(parts.deep_view().take(parts.len() as int) =~= parts.deep_view());
}

/// One comment, numbered when it is one of several.
fn format_comment_numbered(c: &Comment, number: Option<usize>, utc_offset: i64) -> (s: String)
    requires
        c.start < usize::MAX,
        c.end < usize::MAX,
    ensures
        s@ == spec_format(
            *c,
            match number {
                Some(n) => Some(n as nat),
                None => None,
            },
            utc_offset as int,
        ),
{
    let location = location_of(c, utc_offset);
    let quote = quote_block(c);
    match number {
        None => {
            let mut s = location;
            s.append("\n");
            s.append(join_strs(quote.as_slice(), "\n").as_str());
            s.append("\n\n");
            s.append(normalize_text(c.text.as_str()).as_str());
            s
        },
        Some(n) => {
            let mut s = to_decimal(n as u128);
            s.append(". ");
            s.append(replace_chars(location.as_str(), '\n', "\n   ").as_str());
            append_prefixed(&mut s, &quote, "\n   ");
            s.append("\n");
            let lines = normalized_lines(c.text.as_str());
            append_prefixed(&mut s, &lines, "\n    ");
            s
        },
    }
}

/// Format one comment the way a reply reads in chat: the location (a deep
/// link and the line range), the quoted lines, a blank line, then the
/// comment.
pub fn format_comment(c: &Comment, utc_offset: i64) -> (s: String)
    requires
        c.start < usize::MAX,
        c.end < usize::MAX,
    ensures
        s@ == spec_format(*c, None, utc_offset as int),
{
    format_comment_numbered(c, None, utc_offset)
}

/// The indices of `cs` in export order (a stable insertion sort).
fn export_indices(cs: &[Comment]) -> (ord: Vec<usize>)
    ensures
        export_order(cs@, ord@.map_values(|k: usize| k as int)),
        forall|k: int, l: int| 0 <= k < l < ord.len() ==> ord@[k] != ord@[l],
{
    let mut ord: Vec<usize> = Vec::new();
    let mut i: usize = 0;
    while i < cs.len()
        invariant
            i <= cs.len(),
            ord.len() == i,
            forall|k: int| 0 <= k < ord.len() ==> #[trigger] ord@[k] < i,
            forall|k: int, l: int| 0 <= k < l < ord.len() ==> ord@[k] != ord@[l],
            forall|k: int, l: int|
                0 <= k < l < ord.len() ==> index_before(cs@, #[trigger] ord@[k] as int, #[trigger] ord@[l] as int),
        decreases cs.len() - i,
    {
        // Find where `i` goes: after every comment it does not come before.
        let mut j: usize = ord.len();
        while j > 0 && comment_less(&cs[i], &cs[ord[j - 1]])
            invariant
                j <= ord.len() == i < cs.len(),
                forall|k: int| 0 <= k < ord.len() ==> #[trigger] ord@[k] < i,
                forall|k: int| j <= k < ord.len() ==> comment_before(cs@[i as int], cs@[#[trigger] ord@[k] as int]),
            decreases j,
        {
            j -= 1;
        }
        proof {
            if j > 0 {
                let p = ord@[j - 1] as int;
                lemma_before_order(cs@[i as int], cs@[p], cs@[p]);
                assert(index_before(cs@, p, i as int));
                assert forall|k: int| 0 <= k < j - 1 implies index_before(cs@, ord@[k] as int, i as int) by {
                    assert(index_before(cs@, ord@[k] as int, p));
                    lemma_index_before_trans(cs@, ord@[k] as int, p, i as int);
                }
            }
            assert forall|k: int| j <= k < ord.len() implies index_before(cs@, i as int, ord@[k] as int) by {
                assert(comment_before(cs@[i as int], cs@[ord@[k] as int]));
            }
        }
        let ghost old_ord = ord@;
        ord.insert(j, i);
        proof {
            assert forall|k: int, l: int|
                0 <= k < l < ord.len() implies index_before(cs@, #[trigger] ord@[k] as int, #[trigger] ord@[l] as int) by {
                if k < j && l < j {
                    assert(ord@[k] == old_ord[k] && ord@[l] == old_ord[l]);
                } else if k < j && l == j {
                } else if k < j {
                    assert(ord@[l] == old_ord[l - 1]);
                    assert(index_before(cs@, old_ord[k] as int, i as int));
                } else if k == j {
                    assert(ord@[l] == old_ord[l - 1]);
                } else {
                    assert(ord@[k] == old_ord[k - 1] && ord@[l] == old_ord[l - 1]);
                }
            }
            assert forall|k: int, l: int| 0 <= k < l < ord.len() implies ord@[k] != ord@[l] by {
                if k < j && l < j {
                    assert(ord@[k] == old_ord[k] && ord@[l] == old_ord[l]);
                } else if k < j && l > j {
                    assert(ord@[k] == old_ord[k] && ord@[l] == old_ord[l - 1]);
                } else if k > j {
                    assert(ord@[k] == old_ord[k - 1] && ord@[l] == old_ord[l - 1]);
                } else if k == j {
                    assert(ord@[l] == old_ord[l - 1]);
                } else {
                    assert(ord@[k] == old_ord[k]);
                }
            }
            assert forall|k: int| 0 <= k < ord.len() implies #[trigger] ord@[k] < i + 1 by {
                if k < j {
                    assert(ord@[k] == old_ord[k]);
                } else if k > j {
                    assert(ord@[k] == old_ord[k - 1]);
                }
            }
        }
        i += 1;
    }
    let ghost m = ord@.map_values(|k: usize| k as int);
    assert forall|k: int, l: int| 0 <= k < l < m.len() implies index_before(cs@, #[trigger] m[k], #[trigger] m[l]) by {
        assert(m[k] == ord@[k] as int && m[l] == ord@[l] as int);
    }
    ord
}

/// Does `a` come before `b` in the export (by project, title, first line)?
fn comment_less(a: &Comment, b: &Comment) -> (r: bool)
    ensures
        r == comment_before(*a, *b),
{
    if str_less(a.project.as_str(), b.project.as_str()) {
        return true;
    }
    if !str_eq(a.project.as_str(), b.project.as_str()) {
        return false;
    }
    if str_less(a.title.as_str(), b.title.as_str()) {
        return true;
    }
    if !str_eq(a.title.as_str(), b.title.as_str()) {
        return false;
    }
    a.start < b.start
}

/// Many comments, sorted by page then start line, one blank line between
/// blocks. Two or more are numbered so they read as separate points; one
/// stays a plain remark.
pub fn format_all(comments: &[Comment], utc_offset: i64) -> (s: String)
    requires
        forall|k: int| 0 <= k < comments@.len() ==> #[trigger] comments@[k].start < usize::MAX
            && comments@[k].end < usize::MAX,
    ensures
        exists|ord: Seq<int>| export_order(comments@, ord) && s@ == spec_format_all(comments@, ord, utc_offset as int),
{
    let ord = export_indices(comments);
    let ghost m = ord@.map_values(|k: usize| k as int);
    let numbered = ord.len() > 1;
    let mut blocks: Vec<String> = Vec::new();
    let mut k: usize = 0;
    while k < ord.len()
        invariant
            k <= ord.len() == comments.len(),
            m == ord@.map_values(|k: usize| k as int),
            export_order(comments@, m),
            numbered == (ord.len() > 1),
            forall|q: int| 0 <= q < comments@.len() ==> #[trigger] comments@[q].start < usize::MAX
                && comments@[q].end < usize::MAX,
            blocks.len() == k,
            forall|q: int| 0 <= q < k ==> #[trigger] blocks@[q]@ == spec_format(
                comments@[m[q]],
                if ord.len() > 1 { Some((q + 1) as nat) } else { None },
                utc_offset as int,
            ),
        decreases ord.len() - k,
    {
        let idx = ord[k];
        assert(m[k as int] == idx as int);
        assert(0 <= m[k as int] < comments@.len());
        assert(comments@[idx as int].start < usize::MAX);
        let number = if numbered { Some(k + 1) } else { None };
        let b = format_comment_numbered(&comments[idx], number, utc_offset);
        blocks.push(b);
        k += 1;
    }
    let s = join_strs(blocks.as_slice(), "\n\n");
    assert(blocks.deep_view() =~= Seq::new(
        m.len(),
        |q: int|
            spec_format(
                comments@[m[q]],
                if m.len() > 1 { Some((q + 1) as nat) } else { None },
                utc_offset as int,
            ),
    ));
    s
}

} // verus!
