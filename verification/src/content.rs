//! Layout decisions of the page view that do not depend on the terminal:
//! how a wrapped segment of the caret line is cut into its dim bullet
//! prefix, its selected stretch and the rest, and the rows of the related
//! pages listed under the page.
use vstd::prelude::*;
use vstd::utf8::{encode_utf8, is_char_boundary};
use crate::math::{display_width, str_width};
use crate::page::{Block, RenderOutput};
use crate::table::{PageTable, spec_layout, drawn_view, RunModel, char_cols, char_width};
use crate::inline_layout::{fit_from, lemma_fit_from};
use crate::text::{chars_of, string_of, unicode_whitespace, is_whitespace};

verus! {

/// The largest character boundary of `b` at or before `i` (0 when none is).
pub open spec fn floor_boundary_spec(b: Seq<u8>, i: int) -> int
    decreases i,
{
    if i <= 0 {
        0
    } else if is_char_boundary(b, i) {
        i
    } else {
        floor_boundary_spec(b, i - 1)
    }
}

proof fn lemma_floor_boundary(b: Seq<u8>, i: int)
    requires
        0 <= i,
        vstd::utf8::valid_utf8(b),
    ensures
        0 <= floor_boundary_spec(b, i) <= i,
        i <= b.len() ==> is_char_boundary(b, floor_boundary_spec(b, i)),
    decreases i,
{
    if i > 0 && !is_char_boundary(b, i) {
        lemma_floor_boundary(b, i - 1);
    }
}

/// The largest character boundary of `s` at or before byte `i`.
pub fn floor_boundary(s: &str, i: usize) -> (r: usize)
    requires
        i <= encode_utf8(s@).len(),
    ensures
        r == floor_boundary_spec(encode_utf8(s@), i as int),
        r <= i,
        is_char_boundary(encode_utf8(s@), r as int),
{
    proof {
        vstd::utf8::encode_utf8_valid_utf8(s@);
        lemma_floor_boundary(encode_utf8(s@), i as int);
    }
    let mut j = i;
    while j > 0 && !s.is_char_boundary(j)
        invariant
            j <= i,
            floor_boundary_spec(encode_utf8(s@), i as int) == floor_boundary_spec(encode_utf8(s@), j as int),
        decreases j,
    {
        j -= 1;
    }
    proof {
        vstd::utf8::encode_utf8_valid_utf8(s@);
        lemma_floor_boundary(encode_utf8(s@), j as int);
    }
    j
}

/// One drawn piece of a segment: bytes `from..to`, whether they are
/// selected, and whether they are the dim bullet prefix.
#[derive(Debug, Clone, Copy, PartialEq, Eq, Structural)]
pub struct Piece {
    pub from: usize,
    pub to: usize,
    pub selected: bool,
    pub dim: bool,
}

pub open spec fn sat_sub(a: int, b: int) -> int {
    if a > b { a - b } else { 0 }
}

pub open spec fn min_int(a: int, b: int) -> int {
    if a < b { a } else { b }
}

pub open spec fn clamp_int(x: int, lo: int, hi: int) -> int {
    if x < lo { lo } else if x > hi { hi } else { x }
}

/// `from..to` cut at the dim prefix's end: the dim part, then the rest,
/// each only when it holds something.
pub open spec fn split_dim(from: int, to: int, dim_to: int, selected: bool) -> Seq<Piece> {
    if from >= to {
        Seq::empty()
    } else {
        let cut = clamp_int(dim_to, from, to);
        (if from < cut {
            seq![Piece { from: from as usize, to: cut as usize, selected, dim: true }]
        } else {
            Seq::empty()
        }) + (if cut < to {
            seq![Piece { from: cut as usize, to: to as usize, selected, dim: false }]
        } else {
            Seq::empty()
        })
    }
}

/// A segment of `seg`'s bytes that starts at display byte `seg_start` of
/// the caret line, cut into before / selected / after (the selection `sel`
/// in display bytes of the whole line, clipped to the segment and moved
/// back to character boundaries), each cut again where the dim bullet
/// prefix (its first `dim_to` bytes) ends.
pub open spec fn spec_pieces(seg: Seq<u8>, seg_start: int, sel: Option<(usize, usize)>, dim_to: int) -> Seq<Piece> {
    let n = seg.len() as int;
    let (lo0, hi0) = match sel {
        Some((a, b)) => (min_int(sat_sub(a as int, seg_start), n), min_int(sat_sub(b as int, seg_start), n)),
        None => (n, n),
    };
    let lo = floor_boundary_spec(seg, lo0);
    let hi = floor_boundary_spec(seg, hi0);
    split_dim(0, lo, dim_to, false) + split_dim(lo, hi, dim_to, true) + split_dim(hi, n, dim_to, false)
}

fn push_split(out: &mut Vec<Piece>, from: usize, to: usize, dim_to: usize, selected: bool)
    ensures
        final(out)@ == old(out)@ + split_dim(from as int, to as int, dim_to as int, selected),
{
    if from >= to {
        assert(out@ =~= out@ + split_dim(from as int, to as int, dim_to as int, selected));
        return;
    }
    let cut = if dim_to < from {
        from
    } else if dim_to > to {
        to
    } else {
        dim_to
    };
    let ghost before = out@;
    if from < cut {
        out.push(Piece { from, to: cut, selected, dim: true });
    }
    if cut < to {
        out.push(Piece { from: cut, to, selected, dim: false });
    }
    assert(out@ =~= before + split_dim(from as int, to as int, dim_to as int, selected));
}

/// The pieces of one wrapped segment of the caret line.
pub fn segment_pieces(seg: &str, seg_start: usize, sel: Option<(usize, usize)>, dim_to: usize) -> (out: Vec<Piece>)
    ensures
        out@ == spec_pieces(encode_utf8(seg@), seg_start as int, sel, dim_to as int),
{
    let n = seg.as_bytes().len();
    let (lo0, hi0) = match sel {
        Some((a, b)) => {
            let x = if a > seg_start { a - seg_start } else { 0 };
            let y = if b > seg_start { b - seg_start } else { 0 };
            (if x < n { x } else { n }, if y < n { y } else { n })
        },
        None => (n, n),
    };
    let ghost b = encode_utf8(seg@);
    let ghost n0 = b.len() as int;
    assert(n as int == n0);
    let ghost want: (int, int) = match sel {
        Some((a, c)) => (min_int(sat_sub(a as int, seg_start as int), n0), min_int(sat_sub(c as int, seg_start as int), n0)),
        None => (n0, n0),
    };
    assert(lo0 as int == want.0 && hi0 as int == want.1);
    let lo = floor_boundary(seg, lo0);
    let hi = floor_boundary(seg, hi0);
    let mut out: Vec<Piece> = Vec::new();
    push_split(&mut out, 0, lo, dim_to, false);
    push_split(&mut out, lo, hi, dim_to, true);
    push_split(&mut out, hi, n, dim_to, false);
    assert(out@ =~= spec_pieces(encode_utf8(seg@), seg_start as int, sel, dim_to as int));
    out
}

/// A row of the related-pages region below the page frame.
#[derive(Debug, Clone, Copy, PartialEq, Eq, Structural)]
pub enum RelatedRow {
    /// The line that names the standing sort.
    SortLine,
    /// Section `sec`'s heading, followed by `fill` rule characters.
    Heading { sec: usize, fill: usize },
    /// Entry `entry` of section `sec`, addressed as virtual source line
    /// `vsrc`.
    Entry { sec: usize, entry: usize, vsrc: usize },
    /// The blank line closing a section.
    Gap,
}

/// The heading rule's fill: the text width less the heading's own width,
/// never below zero.
pub open spec fn heading_fill(text_w: int, head_w: int) -> int {
    if text_w > head_w { text_w - head_w } else { 0 }
}

/// The entries `0..m` of section `sec`, numbered from `vsrc`.
pub open spec fn entry_rows(sec: int, m: int, vsrc: int) -> Seq<RelatedRow>
    decreases m,
{
    if m <= 0 {
        Seq::empty()
    } else {
        entry_rows(sec, m - 1, vsrc).push(
            RelatedRow::Entry { sec: sec as usize, entry: (m - 1) as usize, vsrc: (vsrc + m - 1) as usize },
        )
    }
}

/// The total entries of sections `0..k`.
pub open spec fn entries_before(counts: Seq<usize>, k: int) -> int
    decreases k,
{
    if k <= 0 { 0 } else { entries_before(counts, k - 1) + counts[k - 1] }
}

/// The rows of sections `0..k`: each heading, its entries (virtual source
/// lines counting on from `first`), and a gap.
pub open spec fn sections_rows(counts: Seq<usize>, head_widths: Seq<usize>, text_w: int, first: int, k: int) -> Seq<RelatedRow>
    decreases k,
{
    if k <= 0 {
        Seq::empty()
    } else {
        let s = k - 1;
        sections_rows(counts, head_widths, text_w, first, s).push(
            RelatedRow::Heading { sec: s as usize, fill: heading_fill(text_w, head_widths[s] as int) as usize },
        ) + entry_rows(s, counts[s] as int, first + entries_before(counts, s)).push(RelatedRow::Gap)
    }
}

/// The related region: nothing when there are no sections, else the sort
/// line and every section.
pub open spec fn spec_related_rows(counts: Seq<usize>, head_widths: Seq<usize>, text_w: int, first: int) -> Seq<RelatedRow> {
    if counts.len() == 0 {
        Seq::empty()
    } else {
        seq![RelatedRow::SortLine] + sections_rows(counts, head_widths, text_w, first, counts.len() as int)
    }
}

/// `── {heading} `, as the section's heading row begins.
pub open spec fn heading_text(h: Seq<char>) -> Seq<char> {
    "── "@ + h + " "@
}

/// The rows of the related pages: `headings[s]` names section `s` and
/// `counts[s]` is how many entries it lists; the entries are addressed as
/// virtual source lines counting on from `first` (the page's line count).
pub fn related_rows(headings: &[String], counts: &[usize], text_w: usize, first: usize) -> (rows: Vec<RelatedRow>)
    requires
        headings.len() == counts.len(),
        first + entries_before(counts@, counts.len() as int) <= usize::MAX,
    ensures
        rows@ == spec_related_rows(
            counts@,
            Seq::new(headings.len() as nat, |s: int| display_width(heading_text(headings@[s]@)) as usize),
            text_w as int,
            first as int,
        ),
{
    let ghost widths = Seq::new(headings.len() as nat, |s: int| display_width(heading_text(headings@[s]@)) as usize);
    let mut rows: Vec<RelatedRow> = Vec::new();
    if counts.len() == 0 {
        return rows;
    }
    rows.push(RelatedRow::SortLine);
    let mut vsrc = first;
    let mut s: usize = 0;
    while s < counts.len()
        invariant
            s <= counts.len(),
            headings.len() == counts.len(),
            widths == Seq::new(headings.len() as nat, |s: int| display_width(heading_text(headings@[s]@)) as usize),
            vsrc == first + entries_before(counts@, s as int),
            first + entries_before(counts@, counts.len() as int) <= usize::MAX,
            rows@ == seq![RelatedRow::SortLine] + sections_rows(counts@, widths, text_w as int, first as int, s as int),
        decreases counts.len() - s,
    {
        proof {
            lemma_entries_before_mono(counts@, s as int + 1, counts.len() as int);
        }
        let mut head = String::new();
        head.append("── ");
        head.append(headings[s].as_str());
        head.append(" ");
        assert(head@ == heading_text(headings@[s as int]@));
        let used = str_width(head.as_str());
        let fill = if text_w > used { text_w - used } else { 0 };
        let ghost before = rows@;
        rows.push(RelatedRow::Heading { sec: s, fill });
        let ghost mid = rows@;
        let mut e: usize = 0;
        while e < counts[s]
            invariant
                s < counts.len(),
                e <= counts[s as int],
                vsrc == first + entries_before(counts@, s as int),
                vsrc + counts[s as int] <= usize::MAX,
                rows@ == mid + entry_rows(s as int, e as int, vsrc as int),
            decreases counts[s as int] - e,
        {
            rows.push(RelatedRow::Entry { sec: s, entry: e, vsrc: vsrc + e });
            assert(rows@ =~= mid + entry_rows(s as int, e + 1, vsrc as int));
            e += 1;
        }
        rows.push(RelatedRow::Gap);
        assert(rows@ =~= seq![RelatedRow::SortLine] + sections_rows(counts@, widths, text_w as int, first as int, s + 1));
        vsrc = vsrc + counts[s];
        s += 1;
    }
    rows
}

proof fn lemma_entries_before_mono(counts: Seq<usize>, a: int, b: int)
    requires
        0 <= a <= b <= counts.len(),
    ensures
        entries_before(counts, a) <= entries_before(counts, b),
    decreases b - a,
{
    if a < b {
        lemma_entries_before_mono(counts, a, b - 1);
    }
}


// ---------------------------------------------------------------------------
// The page's rows
// ---------------------------------------------------------------------------

/// What drawing an artifact (a diagram or a formula) as text came to.
#[derive(Debug, Clone, Copy, PartialEq, Eq, Structural)]
pub enum TextDrawing {
    /// It was drawn.
    Drawn,
    /// The pane is too narrow: it needs this many columns.
    TooNarrow(usize),
    /// It cannot be drawn as text.
    Declined,
}

/// A picture's state.
#[derive(Debug, Clone, Copy, PartialEq, Eq, Structural)]
pub enum PictureState {
    Ready,
    Failed,
    Loading,
}

/// What the viewer knows of one block that the page alone does not say:
/// whether its kind is drawn as text, what that drawing came to, whether
/// its picture is at hand, whether the live preview under its source drew,
/// and, for a picture block, how its picture stands.
#[derive(Debug, Clone, Copy, PartialEq, Eq, Structural)]
pub struct BlockFacts {
    pub text_tier: bool,
    pub drawing: TextDrawing,
    pub has_picture: bool,
    pub live_preview: bool,
    pub picture: PictureState,
}

/// One stretch of the page as it is drawn, with the source line it answers
/// to. The text of a `Raw`, `Text`, `Drawn` or `Code` stretch is wrapped to
/// the pane by the drawer, one or more rows.
#[derive(Debug, Clone, Copy, PartialEq, Eq, Structural)]
pub enum ContentRow {
    /// The caret's line, as its raw source.
    Raw { src: usize },
    /// The caret line's inline formulas, drawn under it.
    FormulaPreview { src: usize },
    /// Text block `block`.
    Text { block: usize, src: usize },
    Blank { src: usize },
    /// Line `row` of table block `block`, laid out for the pane.
    TableRow { block: usize, row: usize, src: usize },
    /// Artifact `block` drawn as text.
    Drawn { block: usize, src: usize },
    /// Artifact `block` as its picture.
    Picture { block: usize, src: usize, indent: usize },
    /// The note that the drawing needs `needed` columns and has `have`.
    TooNarrow { block: usize, needed: usize, have: usize },
    /// Source row `row` of artifact `block`.
    Code { block: usize, row: usize, src: usize },
    /// The drawing of artifact `block`'s source as it is being edited.
    LivePreview { block: usize },
    /// Text and pictures on one line, block `block`.
    Inline { block: usize, src: usize, indent: usize, item: bool },
    /// Picture block `block`.
    Image { block: usize, src: usize, indent: usize, item: bool, state: PictureState },
}

/// A block's start, kept four columns short of the pane's edge.
pub open spec fn clamp_indent(indent: int, text_w: int) -> int {
    let lim = if text_w > 4 { text_w - 4 } else { 0 };
    if indent < lim { indent } else { lim }
}

pub open spec fn caret_at(edit: Option<(usize, bool)>, src: int) -> bool {
    match edit {
        Some((l, _)) => l == src,
        None => false,
    }
}

/// A table's laid-out lines from `k` on: the caret's line (once) as raw
/// source, the others as they are laid out.
pub open spec fn table_rows(lines: Seq<(Seq<RunModel>, usize)>, block: int, edit: Option<(usize, bool)>, k: int, emitted: bool) -> Seq<ContentRow>
    decreases lines.len() - k,
{
    if k < 0 || k >= lines.len() {
        Seq::empty()
    } else {
        let s = lines[k].1;
        if caret_at(edit, s as int) {
            if emitted {
                table_rows(lines, block, edit, k + 1, true)
            } else {
                seq![ContentRow::Raw { src: s }] + table_rows(lines, block, edit, k + 1, true)
            }
        } else {
            seq![ContentRow::TableRow { block: block as usize, row: k as usize, src: s }] + table_rows(lines, block, edit, k + 1, emitted)
        }
    }
}

/// An artifact's source rows from `k` on, the caret's line raw.
pub open spec fn code_rows(rows: Seq<(usize, Vec<crate::table::Run>)>, block: int, edit: Option<(usize, bool)>, k: int) -> Seq<ContentRow>
    decreases rows.len() - k,
{
    if k < 0 || k >= rows.len() {
        Seq::empty()
    } else {
        let s = rows[k].0;
        (if caret_at(edit, s as int) {
            seq![ContentRow::Raw { src: s }]
        } else {
            seq![ContentRow::Code { block: block as usize, row: k as usize, src: s }]
        }) + code_rows(rows, block, edit, k + 1)
    }
}

pub open spec fn editing_in(rows: Seq<(usize, Vec<crate::table::Run>)>, edit: Option<(usize, bool)>) -> bool {
    exists|k: int| 0 <= k < rows.len() && caret_at(edit, (#[trigger] rows[k]).0 as int)
}

/// The stretches block `i` (from source line `src`) is drawn as.
pub open spec fn block_rows(b: Block, i: int, src: int, f: BlockFacts, text_w: int, edit: Option<(usize, bool)>, preview_fits: bool) -> Seq<ContentRow> {
    if caret_at(edit, src) && !(b is Table) && !(b is Artifact) {
        seq![ContentRow::Raw { src: src as usize }] + (if edit->Some_0.1 == false && preview_fits {
            seq![ContentRow::FormulaPreview { src: src as usize }]
        } else {
            Seq::empty()
        })
    } else {
        match b {
            Block::Text(_) => seq![ContentRow::Text { block: i as usize, src: src as usize }],
            Block::Blank => seq![ContentRow::Blank { src: src as usize }],
            Block::Table(t) => table_rows(spec_layout(t, text_w), i, edit, 0, false),
            Block::Artifact { rows, last_src, indent, .. } => {
                let here = editing_in(rows@, edit);
                if !here && f.text_tier && f.drawing == TextDrawing::Drawn {
                    seq![ContentRow::Drawn { block: i as usize, src: last_src }]
                } else if !here && f.has_picture {
                    seq![ContentRow::Picture { block: i as usize, src: last_src, indent }]
                } else {
                    (match f.drawing {
                        TextDrawing::TooNarrow(n) => if !here && f.text_tier {
                            seq![ContentRow::TooNarrow {
                                block: i as usize,
                                needed: n,
                                have: (if text_w > indent { text_w - indent } else { 0 }) as usize,
                            }]
                        } else {
                            Seq::empty()
                        },
                        _ => Seq::empty(),
                    }) + code_rows(rows@, i, edit, 0) + (if edit is Some && f.live_preview {
                        seq![ContentRow::LivePreview { block: i as usize }]
                    } else {
                        Seq::empty()
                    })
                }
            },
            Block::Inline { indent, item, .. } => seq![ContentRow::Inline {
                block: i as usize,
                src: src as usize,
                indent: clamp_indent(indent as int, text_w) as usize,
                item,
            }],
            Block::Image { indent, item, .. } => seq![ContentRow::Image {
                block: i as usize,
                src: src as usize,
                indent: clamp_indent(indent as int, text_w) as usize,
                item,
                state: f.picture,
            }],
        }
    }
}

/// The stretches of the first `n` blocks.
pub open spec fn rows_upto(blocks: Seq<Block>, srcs: Seq<usize>, facts: Seq<BlockFacts>, n: int, text_w: int, edit: Option<(usize, bool)>, preview_fits: bool) -> Seq<ContentRow>
    decreases n,
{
    if n <= 0 {
        Seq::empty()
    } else {
        rows_upto(blocks, srcs, facts, n - 1, text_w, edit, preview_fits) + block_rows(
            blocks[n - 1],
            n - 1,
            srcs[n - 1] as int,
            facts[n - 1],
            text_w,
            edit,
            preview_fits,
        )
    }
}

pub open spec fn min_len(a: int, b: int) -> int {
    if a < b { a } else { b }
}

pub open spec fn spec_content_rows(out: RenderOutput, facts: Seq<BlockFacts>, text_w: int, edit: Option<(usize, bool)>, preview_fits: bool) -> Seq<ContentRow> {
    rows_upto(out.blocks@, out.srcs@, facts, min_len(out.blocks@.len() as int, out.srcs@.len() as int), text_w, edit, preview_fits)
}

fn at_caret(edit: Option<(usize, bool)>, src: usize) -> (b: bool)
    ensures
        b == caret_at(edit, src as int),
{
    match edit {
        Some((l, _)) => l == src,
        None => false,
    }
}

fn push_table_rows(out: &mut Vec<ContentRow>, t: &PageTable, block: usize, text_w: usize, edit: Option<(usize, bool)>)
    ensures
        final(out)@ == old(out)@ + table_rows(spec_layout(*t, text_w as int), block as int, edit, 0, false),
{
    let lines = t.layout(text_w);
    let ghost lv = drawn_view(lines@);
    let ghost start = out@;
    let mut emitted = false;
    let mut k: usize = 0;
    while k < lines.len()
        invariant
            k <= lines.len(),
            lv == drawn_view(lines@),
            lv == spec_layout(*t, text_w as int),
            start + table_rows(lv, block as int, edit, 0, false) == out@ + table_rows(lv, block as int, edit, k as int, emitted),
        decreases lines.len() - k,
    {
        let s = lines[k].1;
        assert(lv[k as int].1 == s);
        let ghost before = out@;
        if at_caret(edit, s) {
            if !emitted {
                out.push(ContentRow::Raw { src: s });
                assert(before + table_rows(lv, block as int, edit, k as int, emitted) =~= out@ + table_rows(lv, block as int, edit, k + 1, true));
            }
            emitted = true;
        } else {
            out.push(ContentRow::TableRow { block, row: k, src: s });
            assert(before + table_rows(lv, block as int, edit, k as int, emitted) =~= out@ + table_rows(lv, block as int, edit, k + 1, emitted));
        }
        k += 1;
    }
    assert(out@ + table_rows(lv, block as int, edit, k as int, emitted) =~= out@);
}

fn push_code_rows(out: &mut Vec<ContentRow>, rows: &Vec<(usize, Vec<crate::table::Run>)>, block: usize, edit: Option<(usize, bool)>)
    ensures
        final(out)@ == old(out)@ + code_rows(rows@, block as int, edit, 0),
{
    let ghost start = out@;
    let mut k: usize = 0;
    while k < rows.len()
        invariant
            k <= rows.len(),
            start + code_rows(rows@, block as int, edit, 0) == out@ + code_rows(rows@, block as int, edit, k as int),
        decreases rows.len() - k,
    {
        let s = rows[k].0;
        let ghost before = out@;
        if at_caret(edit, s) {
            out.push(ContentRow::Raw { src: s });
        } else {
            out.push(ContentRow::Code { block, row: k, src: s });
        }
        assert(before + code_rows(rows@, block as int, edit, k as int) =~= out@ + code_rows(rows@, block as int, edit, k + 1));
        k += 1;
    }
    assert(out@ + code_rows(rows@, block as int, edit, k as int) =~= out@);
}

fn editing_in_exec(rows: &Vec<(usize, Vec<crate::table::Run>)>, edit: Option<(usize, bool)>) -> (b: bool)
    ensures
        b == editing_in(rows@, edit),
{
    let mut k: usize = 0;
    while k < rows.len()
        invariant
            k <= rows.len(),
            forall|q: int| 0 <= q < k ==> !caret_at(edit, (#[trigger] rows@[q]).0 as int),
        decreases rows.len() - k,
    {
        if at_caret(edit, rows[k].0) {
            assert(caret_at(edit, rows@[k as int].0 as int));
            return true;
        }
        k += 1;
    }
    false
}

/// The page's rows for a pane whose text is `text_w` columns wide: each
/// block as its stretches, tagged with the source line it came from, with
/// the caret's line (`edit`: the caret's source line, and whether it is
/// inside a code block) drawn as raw source and, outside code, its inline
/// formulas previewed under it when the preview fits (`preview_fits`).
/// `facts` says, block by block, what the viewer knows beyond the page.
#[verifier::spinoff_prover]
#[verifier::rlimit(40)]
pub fn content_rows(out: &RenderOutput, facts: &[BlockFacts], text_w: usize, edit: Option<(usize, bool)>, preview_fits: bool) -> (rows: Vec<ContentRow>)
    requires
        facts.len() >= out.blocks.len(),
    ensures
        rows@ == spec_content_rows(*out, facts@, text_w as int, edit, preview_fits),
{
    let n = if out.blocks.len() < out.srcs.len() { out.blocks.len() } else { out.srcs.len() };
    let mut rows: Vec<ContentRow> = Vec::new();
    let mut i: usize = 0;
    while i < n
        invariant
            i <= n == min_len(out.blocks@.len() as int, out.srcs@.len() as int),
            facts.len() >= out.blocks.len(),
            rows@ == rows_upto(out.blocks@, out.srcs@, facts@, i as int, text_w as int, edit, preview_fits),
        decreases n - i,
    {
        let b = &out.blocks[i];
        let src = out.srcs[i];
        let f = facts[i];
        let ghost before = rows@;
        let ghost want = block_rows(*b, i as int, src as int, f, text_w as int, edit, preview_fits);
        let is_table = match b {
            Block::Table(_) => true,
            _ => false,
        };
        let is_artifact = match b {
            Block::Artifact { .. } => true,
            _ => false,
        };
        if at_caret(edit, src) && !is_table && !is_artifact {
            rows.push(ContentRow::Raw { src });
            let in_code = match edit {
                Some((_, c)) => c,
                None => false,
            };
            if !in_code && preview_fits {
                rows.push(ContentRow::FormulaPreview { src });
            }
            assert(rows@ =~= before + want);
        } else {
            match b {
                Block::Text(_) => {
                    rows.push(ContentRow::Text { block: i, src });
                    assert(rows@ =~= before + want);
                },
                Block::Blank => {
                    rows.push(ContentRow::Blank { src });
                    assert(rows@ =~= before + want);
                },
                Block::Table(t) => {
                    push_table_rows(&mut rows, t, i, text_w, edit);
                },
                Block::Artifact { rows: code, last_src, indent, .. } => {
                    let here = editing_in_exec(code, edit);
                    if !here && f.text_tier && f.drawing == TextDrawing::Drawn {
                        rows.push(ContentRow::Drawn { block: i, src: *last_src });
                        assert(rows@ =~= before + want);
                    } else if !here && f.has_picture {
                        rows.push(ContentRow::Picture { block: i, src: *last_src, indent: *indent });
                        assert(rows@ =~= before + want);
                    } else {
                        let ghost b0 = rows@;
                        match f.drawing {
                            TextDrawing::TooNarrow(needed) => if !here && f.text_tier {
                                let have = if text_w > *indent { text_w - *indent } else { 0 };
                                rows.push(ContentRow::TooNarrow { block: i, needed, have });
                            },
                            _ => {},
                        }
                        let ghost b1 = rows@;
                        push_code_rows(&mut rows, code, i, edit);
                        let ghost b2 = rows@;
                        if edit.is_some() && f.live_preview {
                            rows.push(ContentRow::LivePreview { block: i });
                        }
                        assert(rows@ =~= before + want);
                    }
                },
                Block::Inline { indent, item, .. } => {
                    let lim = if text_w > 4 { text_w - 4 } else { 0 };
                    let ind = if *indent < lim { *indent } else { lim };
                    rows.push(ContentRow::Inline { block: i, src, indent: ind, item: *item });
                    assert(rows@ =~= before + want);
                },
                Block::Image { indent, item, .. } => {
                    let lim = if text_w > 4 { text_w - 4 } else { 0 };
                    let ind = if *indent < lim { *indent } else { lim };
                    rows.push(ContentRow::Image { block: i, src, indent: ind, item: *item, state: f.picture });
                    assert(rows@ =~= before + want);
                },
            }
        }
        assert(rows@ == rows_upto(out.blocks@, out.srcs@, facts@, i + 1, text_w as int, edit, preview_fits));
        i += 1;
    }
    rows
}


// ---------------------------------------------------------------------------
// Lines of chrome
// ---------------------------------------------------------------------------

pub open spec fn sat_sub_int(a: int, b: int) -> int {
    if a > b { a - b } else { 0 }
}

/// `s` cut to at most `w` columns, with `…` when it is cut: as many
/// characters as fit in one column less, then the ellipsis.
pub open spec fn spec_truncate_width(s: Seq<char>, w: int) -> Seq<char> {
    if display_width(s) <= w {
        s
    } else {
        s.take(fit_from(s, sat_sub_int(w, 1), 0, 0)) + seq!['…']
    }
}

pub fn truncate_width(s: &str, w: usize) -> (r: String)
    ensures
        r@ == spec_truncate_width(s@, w as int),
{
    if str_width(s) <= w {
        return crate::text::copy_str(s);
    }
    let cs = chars_of(s);
    let room: usize = if w > 1 { w - 1 } else { 0 };
    let mut k: usize = 0;
    let mut used: usize = 0;
    let mut go = true;
    proof {
        lemma_fit_from(cs@, room as int, 0, 0);
    }
    while go && k < cs.len()
        invariant
            k <= cs.len(),
            cs@ == s@,
            fit_from(cs@, room as int, 0, 0) == fit_from(cs@, room as int, k as int, used as int),
            used <= room,
            !go ==> k < cs.len() && used + char_cols(cs@[k as int]) > room,
        decreases cs.len() - k, (if go { 1int } else { 0int }),
    {
        let cw = char_width(cs[k]);
        if (used as u128) + (cw as u128) <= room as u128 {
            used = used + cw;
            k += 1;
        } else {
            go = false;
        }
    }
    assert(fit_from(cs@, room as int, k as int, used as int) == k);
    let mut out: Vec<char> = Vec::new();
    let mut j: usize = 0;
    while j < k
        invariant
            j <= k <= cs.len(),
            out@ == cs@.take(j as int),
        decreases k - j,
    {
        out.push(cs[j]);
        assert(cs@.take(j + 1) =~= cs@.take(j as int).push(cs@[j as int]));
        j += 1;
    }
    out.push('…');
    string_of(out.as_slice())
}

fn spaces(n: usize) -> (r: String)
    ensures
        r@ == Seq::new(n as nat, |i: int| ' '),
{
    let mut v: Vec<char> = Vec::new();
    let mut i: usize = 0;
    while i < n
        invariant
            i <= n,
            v@ == Seq::new(i as nat, |q: int| ' '),
        decreases n - i,
    {
        v.push(' ');
        assert(v@ =~= Seq::new((i + 1) as nat, |q: int| ' '));
        i += 1;
    }
    string_of(v.as_slice())
}

/// The header's text `width` columns wide: ` name / title` on the left,
/// `right` (the badges) flush right after at least one blank. When it does
/// not all fit, the name goes first and whole, then the title is cut.
pub open spec fn spec_header_line(name: Seq<char>, title: Seq<char>, right: Seq<char>, width: int) -> Seq<char> {
    let rw = display_width(right) as int;
    let room = sat_sub_int(width, rw + 1);
    let full = " "@ + name + " / "@ + title;
    let bare = " / "@ + title;
    let left = if display_width(full) <= room {
        full
    } else if display_width(bare) <= room {
        bare
    } else {
        spec_truncate_width(bare, room)
    };
    let pad = sat_sub_int(width, display_width(left) + rw);
    left + Seq::new(pad as nat, |i: int| ' ') + right
}

pub fn header_line(name: &str, title: &str, right: &str, width: u16) -> (r: String)
    ensures
        r@ == spec_header_line(name@, title@, right@, width as int),
{
    let width = width as usize;
    let rw = str_width(right);
    let room: usize = if (width as u128) > (rw as u128) + 1 { width - rw - 1 } else { 0 };
    let mut full = String::new();
    full.append(" ");
    full.append(name);
    full.append(" / ");
    full.append(title);
    let mut bare = String::new();
    bare.append(" / ");
    bare.append(title);
    assert(full@ =~= " "@ + name@ + " / "@ + title@);
    assert(bare@ =~= " / "@ + title@);
    let left = if str_width(full.as_str()) <= room {
        full
    } else if str_width(bare.as_str()) <= room {
        bare
    } else {
        truncate_width(bare.as_str(), room)
    };
    let lw = str_width(left.as_str());
    let pad: usize = if (width as u128) > (lw as u128) + (rw as u128) { width - lw - rw } else { 0 };
    let mut out = left;
    let sp = spaces(pad);
    out.append(sp.as_str());
    out.append(right);
    out
}

/// The lead-in of an indented picture placeholder: the bullet where the
/// picture's own bullet goes, then the column the picture starts at.
pub open spec fn spec_bullet_pad(indent: int, item: bool) -> Seq<char> {
    if item && indent >= 2 {
        Seq::new((indent - 2) as nat, |i: int| ' ') + seq!['\u{2022}', ' ']
    } else {
        Seq::new(indent as nat, |i: int| ' ')
    }
}

pub fn bullet_pad(indent: usize, item: bool) -> (r: String)
    ensures
        r@ == spec_bullet_pad(indent as int, item),
{
    if item && indent >= 2 {
        let mut s = spaces(indent - 2);
        s.append("\u{2022} ");
        proof {
            reveal_strlit("\u{2022} ");
        }
        assert(s@ =~= Seq::new((indent - 2) as nat, |i: int| ' ') + seq!['\u{2022}', ' ']);
        s
    } else {
        spaces(indent)
    }
}


// ---------------------------------------------------------------------------
// Placing an uploaded picture in the line
// ---------------------------------------------------------------------------

/// `[url]` with a blank before it unless `before` is empty or ends in
/// whitespace, and one after it unless `after` is empty or starts with
/// whitespace.
pub open spec fn image_piece(before: Seq<char>, after: Seq<char>, url: Seq<char>) -> Seq<char> {
    (if before.len() > 0 && !unicode_whitespace(before.last()) { seq![' '] } else { Seq::empty() }) + seq!['[']
        + url + seq![']'] + (if after.len() > 0 && !unicode_whitespace(after[0]) {
        seq![' ']
    } else {
        Seq::empty()
    })
}

/// Where the picture goes: byte `offset` of `text`, kept inside it and
/// moved back to a character boundary.
pub open spec fn splice_at(text: Seq<char>, offset: int) -> int {
    let b = encode_utf8(text);
    floor_boundary_spec(b, if offset < b.len() { offset } else { b.len() as int })
}

/// `[url]` put into `text` at byte `offset` (see `splice_at`), with a blank
/// either side where its neighbour is not already blank; and how many
/// bytes were put in.
pub open spec fn spec_splice_image(text: Seq<char>, offset: int, url: Seq<char>) -> (Seq<char>, int) {
    let b = encode_utf8(text);
    let at = splice_at(text, offset);
    let before = vstd::utf8::decode_utf8(b.take(at));
    let after = vstd::utf8::decode_utf8(b.skip(at));
    let piece = image_piece(before, after, url);
    (before + piece + after, encode_utf8(piece).len() as int)
}

pub fn splice_image(text: &str, offset: usize, url: &str) -> (r: (String, usize))
    ensures
        r.0@ == spec_splice_image(text@, offset as int, url@).0,
        r.1 == spec_splice_image(text@, offset as int, url@).1,
{
    let n = text.as_bytes().len();
    let start = if offset < n { offset } else { n };
    let at = floor_boundary(text, start);
    let (before, after) = text.split_at(at);
    proof {
        vstd::utf8::encode_utf8_decode_utf8(before@);
        vstd::utf8::encode_utf8_decode_utf8(after@);
        assert(encode_utf8(text@).take(at as int) =~= encode_utf8(text@).subrange(0, at as int));
        assert(encode_utf8(text@).skip(at as int) =~= encode_utf8(text@).subrange(at as int, encode_utf8(text@).len() as int));
    }
    let bc = chars_of(before);
    let ac = chars_of(after);
    let lead = bc.len() > 0 && !is_whitespace(bc[bc.len() - 1]);
    let trail = ac.len() > 0 && !is_whitespace(ac[0]);
    let mut piece = String::new();
    if lead {
        piece.append(" ");
    }
    piece.append("[");
    piece.append(url);
    piece.append("]");
    if trail {
        piece.append(" ");
    }
    proof {
        reveal_strlit(" ");
        reveal_strlit("[");
        reveal_strlit("]");
        assert(piece@ =~= image_piece(before@, after@, url@));
    }
    let len = piece.as_str().as_bytes().len();
    let mut out = crate::text::copy_str(before);
    out.append(piece.as_str());
    out.append(after);
    (out, len)
}


// ---------------------------------------------------------------------------
// Wrapping a draft, with its caret
// ---------------------------------------------------------------------------

/// The wrap of a draft so far: finished rows, the row being filled, its
/// width, and where the caret landed if it has.
pub struct WrapSt {
    pub out: Seq<Seq<char>>,
    pub cur: Seq<char>,
    pub w: int,
    pub caret: Option<(int, int)>,
}

/// One more character (the `i`-th): a line break ends the row; a character
/// that would run past `width` starts a new row unless the row is empty;
/// the caret, after `caret_chars` characters, sits where that character
/// goes.
pub open spec fn wrap_step(st: WrapSt, i: int, ch: char, caret_chars: int, width: int, breaks: bool) -> WrapSt {
    if breaks && ch == '\n' {
        WrapSt {
            out: st.out.push(st.cur),
            cur: Seq::empty(),
            w: 0,
            caret: if i == caret_chars { Some((st.out.len() as int, st.w)) } else { st.caret },
        }
    } else {
        let cw = char_cols(ch) as int;
        let brk = st.w + cw > width && st.cur.len() > 0;
        let out1 = if brk { st.out.push(st.cur) } else { st.out };
        let cur1 = if brk { Seq::empty() } else { st.cur };
        let w1 = if brk { 0 } else { st.w };
        WrapSt {
            out: out1,
            cur: cur1.push(ch),
            w: w1 + cw,
            caret: if i == caret_chars { Some((out1.len() as int, w1)) } else { st.caret },
        }
    }
}

pub open spec fn wrap_prefix(s: Seq<char>, k: int, caret_chars: int, width: int, breaks: bool) -> WrapSt
    decreases k,
{
    if k <= 0 {
        WrapSt { out: Seq::empty(), cur: Seq::empty(), w: 0, caret: None }
    } else {
        wrap_step(wrap_prefix(s, k - 1, caret_chars, width, breaks), k - 1, s[k - 1], caret_chars, width, breaks)
    }
}

/// A draft wrapped to `width` columns (a line break ends a row), and the
/// cell `(row, column)` of the caret after `caret_chars` characters: at the
/// end of the text when it comes after the last character.
pub open spec fn spec_wrap_with_caret(s: Seq<char>, caret_chars: int, width: int) -> (Seq<Seq<char>>, (int, int)) {
    let st = wrap_prefix(s, s.len() as int, caret_chars, width, true);
    (
        st.out.push(st.cur),
        match st.caret {
            Some(c) => c,
            None => (st.out.len() as int, st.w),
        },
    )
}

/// A text wrapped to `width` columns: one empty row for no text, and no
/// empty last row.
pub open spec fn spec_wrap_plain(s: Seq<char>, width: int) -> Seq<Seq<char>> {
    if s.len() == 0 {
        seq![Seq::empty()]
    } else {
        let st = wrap_prefix(s, s.len() as int, -1, width, false);
        if st.cur.len() > 0 { st.out.push(st.cur) } else { st.out }
    }
}

pub open spec fn rows_of(v: Seq<Vec<char>>) -> Seq<Seq<char>> {
    v.map_values(|r: Vec<char>| r@)
}

fn rows_to_strings(v: &Vec<Vec<char>>) -> (r: Vec<String>)
    ensures
        r.deep_view() == rows_of(v@),
{
    let mut r: Vec<String> = Vec::new();
    let mut i: usize = 0;
    while i < v.len()
        invariant
            i <= v.len(),
            r.deep_view() == rows_of(v@).take(i as int),
        decreases v.len() - i,
    {
        let ghost before = r.deep_view();
        r.push(string_of(v[i].as_slice()));
        assert(r.deep_view() =~= before.push(v@[i as int]@));
        assert(rows_of(v@).take(i + 1) =~= rows_of(v@).take(i as int).push(v@[i as int]@));
        i += 1;
    }
    assert(rows_of(v@).take(v.len() as int) =~= rows_of(v@));
    r
}

fn wrap_run(s: &str, caret_chars: usize, width: usize, breaks: bool) -> (r: (Vec<Vec<char>>, Vec<char>, usize, Option<(usize, usize)>))
    ensures
        ({
            let st = wrap_prefix(s@, s@.len() as int, caret_chars as int, width as int, breaks);
            &&& rows_of(r.0@) == st.out
            &&& r.1@ == st.cur
            &&& r.2 == st.w
            &&& match r.3 {
                Some(c) => st.caret == Some((c.0 as int, c.1 as int)),
                None => st.caret is None,
            }
        }),
{
    let cs = chars_of(s);
    let mut out: Vec<Vec<char>> = Vec::new();
    let mut cur: Vec<char> = Vec::new();
    let mut w: usize = 0;
    let mut caret: Option<(usize, usize)> = None;
    let mut i: usize = 0;
    while i < cs.len()
        invariant
            i <= cs.len(),
            cs@ == s@,
            out.len() <= i,
            cur.len() == 0 ==> w == 0,
            ({
                let st = wrap_prefix(s@, i as int, caret_chars as int, width as int, breaks);
                &&& rows_of(out@) == st.out
                &&& cur@ == st.cur
                &&& w == st.w
                &&& match caret {
                    Some(c) => st.caret == Some((c.0 as int, c.1 as int)),
                    None => st.caret is None,
                }
            }),
        decreases cs.len() - i,
    {
        let ch = cs[i];
        let ghost before_out = rows_of(out@);
        if breaks && ch == '\n' {
            if i == caret_chars {
                caret = Some((out.len(), w));
            }
            let done = cur;
            cur = Vec::new();
            out.push(done);
            w = 0;
            assert(rows_of(out@) =~= before_out.push(done@));
        } else {
            let cw = char_width(ch);
            if (w as u128) + (cw as u128) > width as u128 && cur.len() > 0 {
                let done = cur;
                cur = Vec::new();
                out.push(done);
                w = 0;
                assert(rows_of(out@) =~= before_out.push(done@));
            }
            if i == caret_chars {
                caret = Some((out.len(), w));
            }
            assert(cur.len() == 0 ==> w == 0);
            cur.push(ch);
            w = w + cw;
        }
        i += 1;
    }
    assert(cs@.len() == s@.len());
    (out, cur, w, caret)
}


/// A draft wrapped to `width` columns, and the caret's cell (see
/// `spec_wrap_with_caret`).
pub fn wrap_with_caret(s: &str, caret_chars: usize, width: usize) -> (r: (Vec<String>, (usize, usize)))
    ensures
        r.0.deep_view() == spec_wrap_with_caret(s@, caret_chars as int, width as int).0,
        (r.1.0 as int, r.1.1 as int) == spec_wrap_with_caret(s@, caret_chars as int, width as int).1,
{
    let (mut out, cur, w, caret) = wrap_run(s, caret_chars, width, true);
    let c = match caret {
        Some(c) => c,
        None => (out.len(), w),
    };
    let ghost before = rows_of(out@);
    out.push(cur);
    assert(rows_of(out@) =~= before.push(cur@));
    (rows_to_strings(&out), c)
}

/// A text wrapped to `width` columns (see `spec_wrap_plain`).
pub fn wrap_plain(s: &str, width: usize) -> (r: Vec<String>)
    ensures
        r.deep_view() == spec_wrap_plain(s@, width as int),
{
    if s.unicode_len() == 0 {
        let mut r: Vec<String> = Vec::new();
        r.push(String::new());
        assert(r.deep_view() =~= seq![Seq::<char>::empty()]);
        return r;
    }
    let (mut out, cur, _, _) = wrap_run(s, usize::MAX, width, false);
    proof {
        lemma_wrap_prefix_no_caret(s@, s@.len() as int, usize::MAX as int, width as int);
    }
    if cur.len() > 0 {
        let ghost before = rows_of(out@);
        out.push(cur);
        assert(rows_of(out@) =~= before.push(cur@));
    }
    rows_to_strings(&out)
}

/// Without line breaks, where the caret is asked for changes nothing but
/// the caret.
proof fn lemma_wrap_prefix_no_caret(s: Seq<char>, k: int, c: int, width: int)
    requires
        0 <= k <= s.len(),
        c >= s.len(),
    ensures
        wrap_prefix(s, k, c, width, false).out == wrap_prefix(s, k, -1, width, false).out,
        wrap_prefix(s, k, c, width, false).cur == wrap_prefix(s, k, -1, width, false).cur,
        wrap_prefix(s, k, c, width, false).w == wrap_prefix(s, k, -1, width, false).w,
    decreases k,
{
    if k > 0 {
        lemma_wrap_prefix_no_caret(s, k - 1, c, width);
    }
}

/// The rows of a draft the composer shows when it is taller than
/// `max_body`: a window of that many rows around the caret's row, as the
/// first row shown and how many rows are folded away above and below.
pub open spec fn spec_composer_window(rows: int, crow: int, max_body: int) -> (int, int, int) {
    if rows > max_body {
        let half = max_body / 2;
        let a = if crow > half { crow - half } else { 0 };
        let first = if a < rows - max_body { a } else { rows - max_body };
        (first, first, rows - (first + max_body))
    } else {
        (0, 0, 0)
    }
}

pub fn composer_window(rows: usize, crow: usize, max_body: usize) -> (r: (usize, usize, usize))
    ensures
        (r.0 as int, r.1 as int, r.2 as int) == spec_composer_window(rows as int, crow as int, max_body as int),
{
    if rows > max_body {
        let half = max_body / 2;
        let a = if crow > half { crow - half } else { 0 };
        let first = if a < rows - max_body { a } else { rows - max_body };
        (first, first, rows - (first + max_body))
    } else {
        (0, 0, 0)
    }
}

/// The window keeps the caret's row in view and shows exactly `max_body`
/// rows, the folded ones above and below making up the rest.
pub proof fn law_composer_window_shows_the_caret(rows: int, crow: int, max_body: int)
    requires
        0 <= crow < rows,
        1 <= max_body < rows,
    ensures
        ({
            let (first, above, below) = spec_composer_window(rows, crow, max_body);
            &&& first <= crow < first + max_body
            &&& above + max_body + below == rows
            &&& above >= 0 && below >= 0
        }),
{
}

} // verus!
