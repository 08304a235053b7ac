//! Formulas drawn as text: readying a formula for the drawing, reading the
//! drawing back (and declining output the drawing could not finish, or that
//! does not fit), and setting several drawn formulas side by side on a
//! shared baseline. The drawing itself (term-maths, guarded against its
//! panics) is the caller's.
use vstd::prelude::*;
use crate::text::{
    spec_trim_end, trim_end, chars_of, spec_trim, trim, split_on, split_str, join_with, join_strs,
    string_of, find_from, find_chars, has_suffix, ends_with, lemma_find_from_bounds,
};

verus! {

/// The display width of a string in terminal columns, as the
/// `unicode-width` crate measures it.
pub uninterp spec fn display_width(s: Seq<char>) -> nat;

/// `UnicodeWidthStr::width`. Its result is named, not stated: the width
/// of each character is a table.
#[verifier::external_body]
pub(crate) fn str_width(s: &str) -> (w: usize)
    ensures
        w == display_width(s@),
{
    unicode_width::UnicodeWidthStr::width(s)
}

/// A formula set as rows of text.
#[derive(Debug)]
pub struct Rendered {
    /// Each row; all the same display width.
    pub rows: Vec<String>,
    /// The row that lines up with the text around it (from 0).
    pub baseline: usize,
    /// Display width, in terminal columns.
    pub width: usize,
}

/// Row `off` (relative to the shared baseline) of one formula: its own row
/// there, or blank columns as wide as it is.
pub open spec fn row_part(b: Rendered, off: int) -> Seq<char> {
    let idx = b.baseline + off;
    if 0 <= idx < b.rows@.len() {
        b.rows@[idx]@
    } else {
        Seq::new(b.width as nat, |i: int| ' ')
    }
}

/// Row `off` of every formula, left to right.
pub open spec fn joined_row(bs: Seq<Rendered>, off: int) -> Seq<char>
    decreases bs.len(),
{
    if bs.len() == 0 {
        Seq::empty()
    } else {
        joined_row(bs.drop_last(), off) + row_part(bs.last(), off)
    }
}

/// How far the tallest formula reaches above, and below, its baseline.
pub open spec fn max_above(bs: Seq<Rendered>) -> int
    decreases bs.len(),
{
    if bs.len() == 0 {
        0
    } else {
        let m = max_above(bs.drop_last());
        if bs.last().baseline > m { bs.last().baseline as int } else { m }
    }
}

pub open spec fn below_of(b: Rendered) -> int {
    if b.rows@.len() > 1 + b.baseline { b.rows@.len() - 1 - b.baseline } else { 0 }
}

pub open spec fn max_below(bs: Seq<Rendered>) -> int
    decreases bs.len(),
{
    if bs.len() == 0 {
        0
    } else {
        let m = max_below(bs.drop_last());
        if below_of(bs.last()) > m { below_of(bs.last()) } else { m }
    }
}

pub open spec fn max_width(rows: Seq<Seq<char>>) -> nat
    decreases rows.len(),
{
    if rows.len() == 0 {
        0
    } else {
        let m = max_width(rows.drop_last());
        if display_width(rows.last()) > m { display_width(rows.last()) } else { m }
    }
}

/// The rows of formulas set side by side on a shared baseline, each row
/// without trailing space.
pub open spec fn joined_rows(bs: Seq<Rendered>) -> Seq<Seq<char>> {
    Seq::new(
        (max_above(bs) + max_below(bs) + 1) as nat,
        |k: int| spec_trim_end(joined_row(bs, k - max_above(bs))),
    )
}

/// Small enough to count its rows with an `i32`.
pub open spec fn small_block(b: Rendered) -> bool {
    b.baseline <= 0x7FFF_FFFF && b.rows@.len() <= 0x7FFF_FFFF
}

proof fn lemma_max_bounds(bs: Seq<Rendered>)
    requires
        forall|i: int| 0 <= i < bs.len() ==> small_block(#[trigger] bs[i]),
    ensures
        0 <= max_above(bs) <= 0x7FFF_FFFF,
        0 <= max_below(bs) <= 0x7FFF_FFFF,
    decreases bs.len(),
{
    if bs.len() > 0 {
        assert forall|i: int| 0 <= i < bs.drop_last().len() implies small_block(#[trigger] bs.drop_last()[i]) by {
            assert(bs.drop_last()[i] == bs[i]);
        }
        lemma_max_bounds(bs.drop_last());
        assert(small_block(bs[bs.len() - 1]));
    }
}

/// Set several formulas side by side, each baseline on one row: a one-row
/// formula stands on that row, a fraction straddles it. `None` for none.
pub fn join_beside(blocks: &[Rendered]) -> (r: Option<Rendered>)
    requires
        forall|i: int| 0 <= i < blocks@.len() ==> small_block(#[trigger] blocks@[i]),
        max_above(blocks@) + max_below(blocks@) <= 0x7FFF_FFFF,
    ensures
        blocks@.len() == 0 ==> r is None,
        blocks@.len() > 0 ==> r is Some && r->Some_0.rows.deep_view() == joined_rows(blocks@)
            && r->Some_0.baseline == max_above(blocks@) && r->Some_0.width == max_width(joined_rows(blocks@)),
{
    if blocks.len() == 0 {
        return None;
    }
    proof {
        lemma_max_bounds(blocks@);
    }
    let mut above: usize = 0;
    let mut below: usize = 0;
    let mut i: usize = 0;
    while i < blocks.len()
        invariant
            i <= blocks.len(),
            forall|q: int| 0 <= q < blocks@.len() ==> small_block(#[trigger] blocks@[q]),
            above == max_above(blocks@.take(i as int)),
            below == max_below(blocks@.take(i as int)),
        decreases blocks.len() - i,
    {
        assert(blocks@.take(i + 1).drop_last() =~= blocks@.take(i as int));
        assert(small_block(blocks@[i as int]));
        let b = &blocks[i];
        if b.baseline > above {
            above = b.baseline;
        }
        let bl = if b.rows.len() > 1 + b.baseline { b.rows.len() - 1 - b.baseline } else { 0 };
        if bl > below {
            below = bl;
        }
        i += 1;
    }
    assert(blocks@.take(blocks.len() as int) =~= blocks@);
    let total = above + below + 1;
    let mut rows: Vec<String> = Vec::new();
    let mut k: usize = 0;
    while k < total
        invariant
            k <= total == max_above(blocks@) + max_below(blocks@) + 1,
            above == max_above(blocks@),
            above <= 0x7FFF_FFFF,
            max_below(blocks@) <= 0x7FFF_FFFF,
            max_above(blocks@) + max_below(blocks@) <= 0x7FFF_FFFF,
            forall|q: int| 0 <= q < blocks@.len() ==> small_block(#[trigger] blocks@[q]),
            rows.len() == k,
            forall|q: int| 0 <= q < k ==> #[trigger] rows@[q]@ == joined_rows(blocks@)[q],
        decreases total - k,
    {
        let off: i64 = k as i64 - above as i64;
        assert(off as int == k as int - above as int);
        let mut line: Vec<char> = Vec::new();
        let mut j: usize = 0;
        while j < blocks.len()
            invariant
                j <= blocks.len(),
                -0x7FFF_FFFF <= off <= 0x7FFF_FFFF,
                forall|q: int| 0 <= q < blocks@.len() ==> small_block(#[trigger] blocks@[q]),
                line@ == joined_row(blocks@.take(j as int), off as int),
            decreases blocks.len() - j,
        {
            assert(blocks@.take(j + 1).drop_last() =~= blocks@.take(j as int));
            assert(small_block(blocks@[j as int]));
            let b = &blocks[j];
            let idx: i64 = b.baseline as i64 + off;
            let ghost before = line@;
            if 0 <= idx && idx < b.rows.len() as i64 {
                let cs = chars_of(b.rows[idx as usize].as_str());
                let mut c: usize = 0;
                while c < cs.len()
                    invariant
                        c <= cs.len(),
                        line@ == before + cs@.take(c as int),
                    decreases cs.len() - c,
                {
                    line.push(cs[c]);
                    c += 1;
                    assert(line@ =~= before + cs@.take(c as int));
                }
                assert(cs@.take(cs.len() as int) =~= cs@);
            } else {
                let mut c: usize = 0;
                while c < b.width
                    invariant
                        c <= b.width,
                        line@ == before + Seq::new(c as nat, |x: int| ' '),
                    decreases b.width - c,
                {
                    line.push(' ');
                    c += 1;
                    assert(line@ =~= before + Seq::new(c as nat, |x: int| ' '));
                }
            }
            j += 1;
        }
        assert(blocks@.take(blocks.len() as int) =~= blocks@);
        let joined = crate::text::string_of(line.as_slice());
        rows.push(trim_end(joined.as_str()));
        k += 1;
    }
    assert(rows.deep_view() =~= joined_rows(blocks@));
    let mut width: usize = 0;
    let mut q: usize = 0;
    while q < rows.len()
        invariant
            q <= rows.len(),
            width == max_width(rows.deep_view().take(q as int)),
        decreases rows.len() - q,
    {
        assert(rows.deep_view().take(q + 1).drop_last() =~= rows.deep_view().take(q as int));
        let w = str_width(rows[q].as_str());
        if w > width {
            width = w;
        }
        q += 1;
    }
    assert(rows.deep_view().take(rows.len() as int) =~= rows.deep_view());
    Some(Rendered { rows, baseline: above, width })
}

/// `join_beside` where its rows can be counted with an `i32`: `None` for
/// no formulas, or for a block or a joined height past that.
pub fn join_beside_checked(blocks: &[Rendered]) -> (r: Option<Rendered>)
    ensures
        r is Some <==> (blocks@.len() > 0 && (forall|i: int| 0 <= i < blocks@.len() ==> small_block(#[trigger] blocks@[i]))
            && max_above(blocks@) + max_below(blocks@) <= 0x7FFF_FFFF),
        r matches Some(v) ==> v.rows.deep_view() == joined_rows(blocks@) && v.baseline == max_above(blocks@)
            && v.width == max_width(joined_rows(blocks@)),
{
    let mut above: usize = 0;
    let mut below: usize = 0;
    let mut i: usize = 0;
    while i < blocks.len()
        invariant
            i <= blocks.len(),
            forall|q: int| 0 <= q < i ==> small_block(#[trigger] blocks@[q]),
            above == max_above(blocks@.take(i as int)),
            below == max_below(blocks@.take(i as int)),
        decreases blocks.len() - i,
    {
        assert(blocks@.take(i + 1).drop_last() =~= blocks@.take(i as int));
        let b = &blocks[i];
        if b.baseline > 0x7FFF_FFFF || b.rows.len() > 0x7FFF_FFFF {
            assert(!small_block(blocks@[i as int]));
            return None;
        }
        if b.baseline > above {
            above = b.baseline;
        }
        let bl = if b.rows.len() > 1 + b.baseline { b.rows.len() - 1 - b.baseline } else { 0 };
        if bl > below {
            below = bl;
        }
        i += 1;
    }
    assert(blocks@.take(blocks.len() as int) =~= blocks@);
    if blocks.len() == 0 || above as u128 + below as u128 > 0x7FFF_FFFF {
        return None;
    }
    join_beside(blocks)
}

/// Output the drawing could not finish: a backslash followed by an ASCII
/// letter is a LaTeX command left as it was written.
pub open spec fn spec_looks_unparsed(s: Seq<char>) -> bool {
    exists|i: int| 0 <= i < s.len() - 1 && s[i] == '\\' && #[trigger] is_ascii_alpha(s[i + 1])
}

pub open spec fn is_ascii_alpha(c: char) -> bool {
    ('a' <= c <= 'z') || ('A' <= c <= 'Z')
}

pub fn looks_unparsed(rendered: &str) -> (b: bool)
    ensures
        b == spec_looks_unparsed(rendered@),
{
    let cs = chars_of(rendered);
    let mut i: usize = 0;
    while cs.len() > 0 && i < cs.len() - 1
        invariant
            cs@ == rendered@,
            forall|k: int| 0 <= k < i && k < cs.len() - 1 ==> !(cs@[k] == '\\' && #[trigger] is_ascii_alpha(cs@[k + 1])),
        decreases cs.len() - i,
    {
        let c = cs[i + 1];
        if cs[i] == '\\' && (('a' <= c && c <= 'z') || ('A' <= c && c <= 'Z')) {
            assert(is_ascii_alpha(cs@[i + 1]));
            return true;
        }
        i += 1;
    }
    false
}

/// A formula that is only blank lines has nothing to draw.
pub open spec fn spec_is_blank(code: Seq<char>) -> bool {
    forall|i: int| 0 <= i < code.len() ==> (code[i] == '\n' || crate::text::unicode_whitespace(#[trigger] code[i]))
}

pub fn is_blank(code: &str) -> (b: bool)
    ensures
        b == spec_is_blank(code@),
{
    let cs = chars_of(code);
    let mut i: usize = 0;
    while i < cs.len()
        invariant
            i <= cs.len(),
            cs@ == code@,
            forall|k: int| 0 <= k < i ==> (cs@[k] == '\n' || crate::text::unicode_whitespace(#[trigger] cs@[k])),
        decreases cs.len() - i,
    {
        if !(cs[i] == '\n' || crate::text::is_whitespace(cs[i])) {
            assert(!(code@[i as int] == '\n' || crate::text::unicode_whitespace(code@[i as int])));
            return false;
        }
        i += 1;
    }
    true
}

// ---------------------------------------------------------------------------
// Lines of text
// ---------------------------------------------------------------------------

/// A line without its carriage return.
pub open spec fn strip_cr(l: Seq<char>) -> Seq<char> {
    if l.len() > 0 && l.last() == '\r' { l.drop_last() } else { l }
}

/// What `str::lines` gives: the pieces between line feeds, each that a
/// line feed ends without a carriage return before it; a last piece that
/// is empty is no line.
pub open spec fn str_lines(s: Seq<char>) -> Seq<Seq<char>> {
    let ps = split_on(s, '\n');
    Seq::new((ps.len() - 1) as nat, |i: int| strip_cr(ps[i])) + if ps.last().len() == 0 {
        Seq::<Seq<char>>::empty()
    } else {
        seq![ps.last()]
    }
}

fn strip_cr_exec(l: &str) -> (r: String)
    ensures
        r@ == strip_cr(l@),
{
    let cs = chars_of(l);
    if cs.len() > 0 && cs[cs.len() - 1] == '\r' {
        assert(cs@.subrange(0, cs.len() - 1) =~= l@.drop_last());
        string_of(&cs.as_slice()[0..cs.len() - 1])
    } else {
        string_of(cs.as_slice())
    }
}

/// `str::lines`.
pub fn lines_of(s: &str) -> (ls: Vec<String>)
    ensures
        ls.deep_view() == str_lines(s@),
{
    let parts = split_str(s, '\n');
    let ghost ps = split_on(s@, '\n');
    proof {
        crate::text::lemma_split_on_nonempty(s@, '\n');
    }
    let n = parts.len();
    let mut out: Vec<String> = Vec::new();
    let mut i: usize = 0;
    while i + 1 < n
        invariant
            n == parts.len() == ps.len() >= 1,
            parts.deep_view() == ps,
            i <= n - 1,
            out.len() == i,
            forall|k: int| 0 <= k < i ==> #[trigger] out@[k]@ == strip_cr(ps[k]),
        decreases n - i,
    {
        assert(parts.deep_view()[i as int] == parts@[i as int]@);
        out.push(strip_cr_exec(parts[i].as_str()));
        i += 1;
    }
    assert(parts.deep_view()[n - 1] == parts@[n - 1]@);
    let ghost front = out.deep_view();
    assert(front =~= Seq::new((ps.len() - 1) as nat, |k: int| strip_cr(ps[k])));
    if parts[n - 1].as_str().unicode_len() > 0 {
        out.push(copy_string(&parts[n - 1]));
        assert(out.deep_view() =~= front + seq![ps.last()]);
    } else {
        assert(out.deep_view() =~= front + Seq::<Seq<char>>::empty());
    }
    out
}

fn copy_string(s: &String) -> (r: String)
    ensures
        r@ == s@,
{
    crate::text::copy_str(s.as_str())
}

/// The lines that hold more than whitespace, in order.
pub open spec fn nonblank(ls: Seq<Seq<char>>) -> Seq<Seq<char>>
    decreases ls.len(),
{
    if ls.len() == 0 {
        Seq::empty()
    } else if spec_trim(ls.last()).len() > 0 {
        nonblank(ls.drop_last()).push(ls.last())
    } else {
        nonblank(ls.drop_last())
    }
}

// ---------------------------------------------------------------------------
// Splitting on a word
// ---------------------------------------------------------------------------

/// `s` cut at every occurrence of `p`, left to right, `p` itself dropped
/// (what `str::split` gives for a non-empty pattern).
pub open spec fn split_pat(s: Seq<char>, p: Seq<char>) -> Seq<Seq<char>>
    decreases s.len(),
{
    if p.len() == 0 {
        seq![s]
    } else {
        match find_from(s, p, 0) {
            Some(i) => {
                proof {
                    lemma_find_from_bounds(s, p, 0);
                }
                seq![s.take(i)] + split_pat(s.skip(i + p.len()), p)
            },
            None => seq![s],
        }
    }
}

pub(crate) fn split_pattern(s: &str, p: &[char]) -> (parts: Vec<String>)
    requires
        p.len() > 0,
    ensures
        parts.deep_view() == split_pat(s@, p@),
{
    let mut rest: Vec<char> = chars_of(s);
    let mut out: Vec<String> = Vec::new();
    loop
        invariant
            p.len() > 0,
            out.deep_view() + split_pat(rest@, p@) == split_pat(s@, p@),
        decreases rest.len(),
    {
        match find_chars(rest.as_slice(), p, 0) {
            Some(i) => {
                proof {
                    lemma_find_from_bounds(rest@, p@, 0);
                }
                let piece = string_of(&rest.as_slice()[0..i]);
                let ghost before = out.deep_view();
                out.push(piece);
                assert(out.deep_view() =~= before.push(rest@.take(i as int)));
                let mut next: Vec<char> = Vec::new();
                let mut k: usize = i + p.len();
                while k < rest.len()
                    invariant
                        i + p.len() <= k <= rest.len(),
                        next@ == rest@.subrange(i + p.len(), k as int),
                    decreases rest.len() - k,
                {
                    next.push(rest[k]);
                    k += 1;
                    assert(next@ =~= rest@.subrange(i + p.len(), k as int));
                }
                assert(next@ =~= rest@.skip(i + p.len()));
                assert(split_pat(rest@, p@) == seq![rest@.take(i as int)] + split_pat(next@, p@));
                assert(before + split_pat(rest@, p@) =~= out.deep_view() + split_pat(next@, p@));
                rest = next;
            },
            None => {
                let last = string_of(rest.as_slice());
                let ghost before = out.deep_view();
                out.push(last);
                assert(out.deep_view() =~= before + split_pat(rest@, p@));
                return out;
            },
        }
    }
}

// ---------------------------------------------------------------------------
// Before and after the drawing
// ---------------------------------------------------------------------------

/// `\end{`, where an environment closes.
pub open spec fn end_env() -> Seq<char> {
    seq!['\\', 'e', 'n', 'd', '{']
}

/// A chunk without the row break (`\\`) that would end it, and without
/// the whitespace around that break.
pub open spec fn drop_row_break(c: Seq<char>) -> Seq<char> {
    let t = spec_trim_end(c);
    if has_suffix(t, seq!['\\', '\\']) {
        spec_trim_end(t.take(t.len() - 2))
    } else {
        t
    }
}

/// The formula as the drawing should get it: the blank lines the writer
/// typed dropped, and no row break left where it means nothing (at the
/// very end and right before `\end{`).
pub open spec fn spec_prepare_latex(code: Seq<char>) -> Seq<char> {
    let joined = join_with(nonblank(str_lines(code)), seq!['\n']);
    join_with(split_pat(joined, end_env()).map_values(|c: Seq<char>| drop_row_break(c)), seq!['\n'] + end_env())
}

fn drop_row_break_exec(c: &str) -> (r: String)
    ensures
        r@ == drop_row_break(c@),
{
    let t = trim_end(c);
    let brk = string_of(&['\\', '\\']);
    assert(brk@ =~= seq!['\\', '\\']);
    if ends_with(t.as_str(), brk.as_str()) {
        let cs = chars_of(t.as_str());
        let head = string_of(&cs.as_slice()[0..cs.len() - 2]);
        assert(head@ =~= t@.take(t@.len() - 2));
        trim_end(head.as_str())
    } else {
        t
    }
}

/// Ready a formula for drawing: drop blank lines, then drop the row break
/// (`\\`) at the end of the formula and before each `\end{`, where it would
/// only draw an empty row.
pub fn prepare_latex(code: &str) -> (r: String)
    ensures
        r@ == spec_prepare_latex(code@),
{
    let lines = lines_of(code);
    let ghost ls = lines.deep_view();
    let mut kept: Vec<String> = Vec::new();
    let mut i: usize = 0;
    while i < lines.len()
        invariant
            i <= lines.len(),
            ls == lines.deep_view(),
            kept.deep_view() == nonblank(ls.take(i as int)),
        decreases lines.len() - i,
    {
        assert(ls.take(i + 1).drop_last() =~= ls.take(i as int));
        assert(ls.take(i + 1).last() == lines@[i as int]@);
        let t = trim(lines[i].as_str());
        if t.unicode_len() > 0 {
            let ghost before = kept.deep_view();
            kept.push(copy_string(&lines[i]));
            assert(kept.deep_view() =~= before.push(lines@[i as int]@));
        }
        i += 1;
    }
    assert(ls.take(lines.len() as int) =~= ls);
    let nl = string_of(&['\n']);
    assert(nl@ =~= seq!['\n']);
    let joined = join_strs(kept.as_slice(), nl.as_str());
    let endp: Vec<char> = vec!['\\', 'e', 'n', 'd', '{'];
    assert(endp@ =~= end_env());
    let chunks = split_pattern(joined.as_str(), endp.as_slice());
    let ghost cv = chunks.deep_view();
    let mut dropped: Vec<String> = Vec::new();
    let mut k: usize = 0;
    while k < chunks.len()
        invariant
            k <= chunks.len(),
            cv == chunks.deep_view(),
            dropped.len() == k,
            forall|x: int| 0 <= x < k ==> #[trigger] dropped@[x]@ == drop_row_break(cv[x]),
        decreases chunks.len() - k,
    {
        assert(cv[k as int] == chunks@[k as int]@);
        dropped.push(drop_row_break_exec(chunks[k].as_str()));
        k += 1;
    }
    assert(dropped.deep_view() =~= cv.map_values(|c: Seq<char>| drop_row_break(c)));
    let sep = string_of(&['\n', '\\', 'e', 'n', 'd', '{']);
    assert(sep@ =~= seq!['\n'] + end_env());
    join_strs(dropped.as_slice(), sep.as_str())
}

/// No line holds more than whitespace.
pub open spec fn all_blank(ls: Seq<Seq<char>>) -> bool {
    forall|i: int| 0 <= i < ls.len() ==> spec_trim(#[trigger] ls[i]).len() == 0
}

/// Rows from what the drawing gave for an inline formula: `None` for
/// output that still holds a LaTeX command, or that has no row with more
/// than whitespace; the baseline kept on a row.
pub fn rows_from_drawing(rendered: &str, baseline: usize, width: usize) -> (r: Option<Rendered>)
    ensures
        match r {
            None => spec_looks_unparsed(rendered@) || all_blank(str_lines(rendered@)),
            Some(b) => {
                &&& !spec_looks_unparsed(rendered@)
                &&& !all_blank(str_lines(rendered@))
                &&& b.rows.deep_view() == str_lines(rendered@)
                &&& b.baseline == (if baseline < b.rows.len() { baseline as int } else { b.rows.len() - 1 })
                &&& b.width == width
            },
        },
{
    if looks_unparsed(rendered) {
        return None;
    }
    let rows = lines_of(rendered);
    let ghost rv = rows.deep_view();
    let mut i: usize = 0;
    while i < rows.len()
        invariant
            i <= rows.len(),
            rv == rows.deep_view(),
            rv == str_lines(rendered@),
            !spec_looks_unparsed(rendered@),
            forall|k: int| 0 <= k < i ==> spec_trim(#[trigger] rv[k]).len() == 0,
        decreases rows.len() - i,
    {
        assert(rv[i as int] == rows@[i as int]@);
        if trim(rows[i].as_str()).unicode_len() > 0 {
            assert(spec_trim(rv[i as int]).len() > 0);
            assert(!all_blank(rv));
            let b = if baseline < rows.len() { baseline } else { rows.len() - 1 };
            return Some(Rendered { baseline: b, width, rows });
        }
        i += 1;
    }
    None
}

/// Lines from what the drawing gave for a block formula: `None` for output
/// that is only whitespace, still holds a LaTeX command, or has a line
/// wider than the pane (at least one column).
pub fn lines_from_drawing(rendered: &str, width: usize) -> (r: Option<Vec<String>>)
    ensures
        match r {
            None => spec_trim(rendered@).len() == 0 || spec_looks_unparsed(rendered@)
                || str_lines(rendered@).len() == 0
                || exists|i: int| 0 <= i < str_lines(rendered@).len()
                    && display_width(#[trigger] str_lines(rendered@)[i]) > (if width > 1 { width as int } else { 1 }),
            Some(ls) => {
                &&& spec_trim(rendered@).len() > 0
                &&& !spec_looks_unparsed(rendered@)
                &&& ls.deep_view() == str_lines(rendered@)
                &&& ls.len() > 0
                &&& forall|i: int| 0 <= i < ls.len()
                    ==> display_width(#[trigger] str_lines(rendered@)[i]) <= (if width > 1 { width as int } else { 1 })
            },
        },
{
    if trim(rendered).unicode_len() == 0 || looks_unparsed(rendered) {
        return None;
    }
    let lines = lines_of(rendered);
    if lines.len() == 0 {
        return None;
    }
    let ghost lv = lines.deep_view();
    let cap: usize = if width > 1 { width } else { 1 };
    let mut i: usize = 0;
    while i < lines.len()
        invariant
            i <= lines.len(),
            lv == lines.deep_view(),
            lv == str_lines(rendered@),
            cap == (if width > 1 { width as int } else { 1 }),
            forall|k: int| 0 <= k < i ==> display_width(#[trigger] lv[k]) <= cap,
        decreases lines.len() - i,
    {
        assert(lv[i as int] == lines@[i as int]@);
        if str_width(lines[i].as_str()) > cap {
            return None;
        }
        i += 1;
    }
    Some(lines)
}

/// A drawn formula that fits on the line as one string: it has one row,
/// and that row is more than whitespace (trimmed).
pub fn inline_from_rows(r: &Rendered) -> (s: Option<String>)
    ensures
        match s {
            Some(t) => r.rows.len() == 1 && t@ == spec_trim(r.rows@[0]@) && t@.len() > 0,
            None => r.rows.len() != 1 || spec_trim(r.rows@[0]@).len() == 0,
        },
{
    if r.rows.len() != 1 {
        return None;
    }
    let only = trim(r.rows[0].as_str());
    if only.unicode_len() == 0 {
        None
    } else {
        Some(only)
    }
}

} // verus!
