//! A page's lines read into blocks: blank lines, decorated text lines,
//! pictures, lines that mix text with pictures and tall formulas, tables,
//! code blocks and the diagrams and formulas that code blocks can be.
//! Every block records the source line it came from and what on it can be
//! followed. Drawing a formula is the caller's: it hands over what each
//! formula was drawn as, and a formula with no drawing shows its source.
use vstd::prelude::*;
use crate::decorate::{
    Layer, Piece, PieceModel, Decorated, DecoModel, Goal, goal_of, deco_view, spec_inline, spec_heading,
    copy_layers, inline_exec, hits_in_pieces,
};
use crate::math::Rendered;
use crate::outline::spec_depth;
use crate::render::{
    Extracted, Hit, HitTarget, LinkTruth, ArtifactKind, too_deep, spec_mermaid_lang, spec_math_lang,
};
use crate::table::{Run, RunModel, PageTable, cell_view, plain, repeated, row_cells};
use crate::text::{chars_of, string_of, str_eq, spec_trim, trim, has_prefix};
use crate::inline::{
    scan_brackets, find_char, close_from, find_char_exec, close_at, lemma_find_char, lemma_close_from,
    spec_image_in_bracket, spec_standalone_image, standalone_unreadable, brackets_readable, bracket_readable,
};

verus! {

// ---------------------------------------------------------------------------
// Formulas as they were drawn
// ---------------------------------------------------------------------------

/// What a formula (the LaTeX after `[$`, as written) was drawn as.
pub struct Drawing {
    pub latex: String,
    pub rendered: Rendered,
}

pub struct DrawingModel {
    pub latex: Seq<char>,
    pub rows: Seq<Seq<char>>,
    pub baseline: int,
}

pub open spec fn drawing_view(d: Drawing) -> DrawingModel {
    DrawingModel { latex: d.latex@, rows: d.rendered.rows.deep_view(), baseline: d.rendered.baseline as int }
}

pub open spec fn drawings_view(ds: Seq<Drawing>) -> Seq<DrawingModel> {
    ds.map_values(|d: Drawing| drawing_view(d))
}

/// The first drawing made for `latex`, from the `k`-th on.
pub open spec fn drawing_from(ds: Seq<DrawingModel>, latex: Seq<char>, k: int) -> Option<DrawingModel>
    decreases ds.len() - k,
{
    if k < 0 || k >= ds.len() {
        None
    } else if ds[k].latex == latex {
        Some(ds[k])
    } else {
        drawing_from(ds, latex, k + 1)
    }
}

pub open spec fn drawing_of(ds: Seq<DrawingModel>, latex: Seq<char>) -> Option<DrawingModel> {
    drawing_from(ds, latex, 0)
}

fn find_drawing(ds: &[Drawing], latex: &str) -> (r: Option<usize>)
    ensures
        match r {
            Some(k) => k < ds.len() && drawing_of(drawings_view(ds@), latex@) == Some(drawing_view(ds@[k as int])),
            None => drawing_of(drawings_view(ds@), latex@) is None,
        },
{
    let ghost dv = drawings_view(ds@);
    let mut k: usize = 0;
    while k < ds.len()
        invariant
            k <= ds.len(),
            dv == drawings_view(ds@),
            drawing_of(dv, latex@) == drawing_from(dv, latex@, k as int),
        decreases ds.len() - k,
    {
        if str_eq(ds[k].latex.as_str(), latex) {
            return Some(k);
        }
        k += 1;
    }
    None
}

/// A formula set into a line: its drawing's one row, trimmed, where it was
/// drawn as exactly one row with something on it (in the ink of the text
/// around it); else its source, shown as notation.
pub open spec fn formula_run(ds: Seq<DrawingModel>, latex: Seq<char>, source: Seq<char>, layers: Seq<Layer>) -> RunModel {
    let d = drawing_of(ds, latex);
    if d is Some && d->Some_0.rows.len() == 1 && spec_trim(d->Some_0.rows[0]).len() > 0 {
        RunModel { text: spec_trim(d->Some_0.rows[0]), layers }
    } else {
        RunModel { text: source, layers: layers.push(Layer::Notation) }
    }
}

pub open spec fn piece_run(ds: Seq<DrawingModel>, p: PieceModel) -> RunModel {
    match p {
        PieceModel::Text { text, layers } => RunModel { text, layers },
        PieceModel::Formula { latex, source, layers } => formula_run(ds, latex, source, layers),
    }
}

/// Decorated pieces as they are drawn.
pub open spec fn runs_of(ds: Seq<DrawingModel>, ps: Seq<PieceModel>) -> Seq<RunModel> {
    ps.map_values(|p: PieceModel| piece_run(ds, p))
}

fn piece_to_run(p: &Piece, ds: &[Drawing]) -> (r: Run)
    ensures
        r@ == piece_run(drawings_view(ds@), p@),
{
    match p {
        Piece::Text { text, layers } => Run { text: crate::text::copy_str(text.as_str()), layers: copy_layers(layers) },
        Piece::Formula { latex, source, layers } => {
            let mut ls = copy_layers(layers);
            match find_drawing(ds, latex.as_str()) {
                Some(k) => {
                    match crate::math::inline_from_rows(&ds[k].rendered) {
                        Some(t) => {
                            assert(ds@[k as int].rendered.rows.deep_view()[0] == ds@[k as int].rendered.rows@[0]@);
                            return Run { text: t, layers: ls };
                        },
                        None => {
                            if ds[k].rendered.rows.len() == 1 {
                                assert(ds@[k as int].rendered.rows.deep_view()[0] == ds@[k as int].rendered.rows@[0]@);
                            }
                        },
                    }
                },
                None => {},
            }
            ls.push(Layer::Notation);
            Run { text: crate::text::copy_str(source.as_str()), layers: ls }
        },
    }
}

/// Resolve the pieces from the `from`-th on into runs, onto `out`.
fn push_runs(out: &mut Vec<Run>, ps: &Vec<Piece>, from: usize, ds: &[Drawing])
    requires
        from <= ps.len(),
    ensures
        cell_view(final(out)@) == cell_view(old(out)@) + runs_of(drawings_view(ds@), ps@.map_values(|p: Piece| p@).skip(from as int)),
{
    let ghost pv = ps@.map_values(|p: Piece| p@);
    let ghost base = cell_view(out@);
    let mut k: usize = from;
    while k < ps.len()
        invariant
            from <= k <= ps.len(),
            pv == ps@.map_values(|p: Piece| p@),
            cell_view(out@) == base + runs_of(drawings_view(ds@), pv.subrange(from as int, k as int)),
        decreases ps.len() - k,
    {
        let r = piece_to_run(&ps[k], ds);
        let ghost rv = r@;
        let ghost prev = cell_view(out@);
        out.push(r);
        assert(cell_view(out@) =~= prev.push(rv));
        assert(runs_of(drawings_view(ds@), pv.subrange(from as int, k + 1)) =~= runs_of(drawings_view(ds@), pv.subrange(from as int, k as int)).push(rv));
        k += 1;
    }
    assert(pv.subrange(from as int, ps.len() as int) =~= pv.skip(from as int));
}


// ---------------------------------------------------------------------------
// Blocks
// ---------------------------------------------------------------------------

/// One part of a line that mixes text with pictures or tall formulas, in
/// the order written.
#[derive(Clone, Debug)]
pub enum InlinePart {
    /// A formula drawn over more than one row: its source (shown where the
    /// pane is too narrow for the drawing), its rows and the row that lines
    /// up with the text.
    Formula { source: Run, rows: Vec<String>, baseline: usize },
    Text(Vec<Run>),
    Image(String),
}

/// What a line (or a run of lines) of a page is drawn as.
#[derive(Clone, Debug)]
pub enum Block {
    Text(Vec<Run>),
    /// A blank line, kept.
    Blank,
    /// A picture on a row of its own: where it starts, and whether it is a
    /// list item itself (and wears the bullet).
    Image { url: String, indent: usize, item: bool },
    /// Text and pictures on one line, laid out left to right.
    Inline { indent: usize, item: bool, parts: Vec<InlinePart> },
    /// A table, laid out against the pane when it is drawn.
    Table(PageTable),
    /// A code block that is a picture of something (a diagram, a formula):
    /// its source, the code block it is otherwise drawn as (source line and
    /// line, the header first), the last line of its body, and how far it
    /// is pushed right.
    Artifact { kind: ArtifactKind, code: String, rows: Vec<(usize, Vec<Run>)>, last_src: usize, indent: usize },
}

/// A rendered page: its blocks, the source line of each, the links and
/// pictures found, and what can be followed on each block.
pub struct RenderOutput {
    pub blocks: Vec<Block>,
    pub srcs: Vec<usize>,
    pub extracted: Extracted,
    pub hits: Vec<Vec<Hit>>,
}

pub enum PartModel {
    Formula { source: RunModel, rows: Seq<Seq<char>>, baseline: int },
    Text(Seq<RunModel>),
    Image(Seq<char>),
}

pub struct TableModel {
    pub name: Seq<char>,
    pub name_src: int,
    pub rows: Seq<(int, Seq<Seq<RunModel>>)>,
}

pub enum BlockModel {
    Text(Seq<RunModel>),
    Blank,
    Image { url: Seq<char>, indent: int, item: bool },
    Inline { indent: int, item: bool, parts: Seq<PartModel> },
    Table(TableModel),
    Artifact { kind: ArtifactKind, code: Seq<char>, rows: Seq<(int, Seq<RunModel>)>, last_src: int, indent: int },
}

pub open spec fn part_view(p: InlinePart) -> PartModel {
    match p {
        InlinePart::Formula { source, rows, baseline } => PartModel::Formula {
            source: source@,
            rows: rows.deep_view(),
            baseline: baseline as int,
        },
        InlinePart::Text(runs) => PartModel::Text(cell_view(runs@)),
        InlinePart::Image(u) => PartModel::Image(u@),
    }
}

pub open spec fn table_model(t: PageTable) -> TableModel {
    TableModel {
        name: t.name@,
        name_src: t.name_src as int,
        rows: t.rows@.map_values(|r: (usize, Vec<Vec<Run>>)| (r.0 as int, row_cells(r))),
    }
}

pub open spec fn block_view(b: Block) -> BlockModel {
    match b {
        Block::Text(runs) => BlockModel::Text(cell_view(runs@)),
        Block::Blank => BlockModel::Blank,
        Block::Image { url, indent, item } => BlockModel::Image { url: url@, indent: indent as int, item },
        Block::Inline { indent, item, parts } => BlockModel::Inline {
            indent: indent as int,
            item,
            parts: parts@.map_values(|p: InlinePart| part_view(p)),
        },
        Block::Table(t) => BlockModel::Table(table_model(t)),
        Block::Artifact { kind, code, rows, last_src, indent } => BlockModel::Artifact {
            kind,
            code: code@,
            rows: rows@.map_values(|r: (usize, Vec<Run>)| (r.0 as int, cell_view(r.1@))),
            last_src: last_src as int,
            indent: indent as int,
        },
    }
}

pub open spec fn hits_view(hs: Seq<Hit>) -> Seq<(int, Goal)> {
    hs.map_values(|h: Hit| (h.span as int, goal_of(h.target)))
}

/// A page rendered so far.
pub struct PageModel {
    pub blocks: Seq<BlockModel>,
    pub srcs: Seq<int>,
    pub links: Seq<Seq<char>>,
    pub images: Seq<Seq<char>>,
    pub hits: Seq<Seq<(int, Goal)>>,
}

pub open spec fn empty_page() -> PageModel {
    PageModel { blocks: Seq::empty(), srcs: Seq::empty(), links: Seq::empty(), images: Seq::empty(), hits: Seq::empty() }
}

pub open spec fn output_view(o: RenderOutput) -> PageModel {
    PageModel {
        blocks: o.blocks@.map_values(|b: Block| block_view(b)),
        srcs: o.srcs@.map_values(|s: usize| s as int),
        links: o.extracted.links.deep_view(),
        images: o.extracted.images.deep_view(),
        hits: o.hits@.map_values(|hs: Vec<Hit>| hits_view(hs@)),
    }
}

/// A block from line `src`, with what can be followed on it.
pub open spec fn emit(st: PageModel, b: BlockModel, src: int, hs: Seq<(int, Goal)>) -> PageModel {
    PageModel { blocks: st.blocks.push(b), srcs: st.srcs.push(src), hits: st.hits.push(hs), ..st }
}

/// A block with nothing on it to follow (a code block's body line).
pub open spec fn put_row(st: PageModel, b: BlockModel, src: int) -> PageModel {
    emit(st, b, src, Seq::empty())
}

/// The links and pictures after a decoration.
pub open spec fn after(st: PageModel, d: DecoModel) -> PageModel {
    PageModel { links: d.links, images: d.images, ..st }
}

/// Decorating `s` after the pieces already on its line: a hit then names
/// its piece by its place on the whole line.
#[verifier::opaque]
pub open spec fn deco_after(st: PageModel, prefix: Seq<PieceModel>, s: Seq<char>, outer: Seq<Layer>, known: Map<Seq<char>, bool>) -> Option<DecoModel> {
    spec_inline(DecoModel { pieces: prefix, links: st.links, images: st.images, hits: Seq::empty() }, s, outer, known)
}

struct Acc {
    blocks: Vec<Block>,
    srcs: Vec<usize>,
    links: Vec<String>,
    images: Vec<String>,
    hits: Vec<Vec<Hit>>,
}

spec fn acc_view(a: Acc) -> PageModel {
    PageModel {
        blocks: a.blocks@.map_values(|b: Block| block_view(b)),
        srcs: a.srcs@.map_values(|s: usize| s as int),
        links: a.links.deep_view(),
        images: a.images.deep_view(),
        hits: a.hits@.map_values(|hs: Vec<Hit>| hits_view(hs@)),
    }
}

fn emit_exec(acc: &mut Acc, b: Block, src: usize, hs: Vec<Hit>)
    ensures
        acc_view(*final(acc)) == emit(acc_view(*old(acc)), block_view(b), src as int, hits_view(hs@)),
{
    let ghost before = acc_view(*acc);
    let ghost bv = block_view(b);
    let ghost hv = hits_view(hs@);
    acc.blocks.push(b);
    acc.srcs.push(src);
    acc.hits.push(hs);
    assert(acc_view(*acc).blocks =~= before.blocks.push(bv));
    assert(acc_view(*acc).srcs =~= before.srcs.push(src as int));
    assert(acc_view(*acc).hits =~= before.hits.push(hv));
}

fn put_row_exec(acc: &mut Acc, b: Block, src: usize)
    ensures
        acc_view(*final(acc)) == put_row(acc_view(*old(acc)), block_view(b), src as int),
{
    emit_exec(acc, b, src, no_hits());
}

/// Decorate `s` after the pieces `prefix` already on its line; the page's
/// links and pictures go in and come back out. The line's pieces and hits
/// are returned.
fn deco_exec(acc: &mut Acc, prefix: Vec<Piece>, s: &[char], outer: &Vec<Layer>, known: &LinkTruth) -> (r: Option<(Vec<Piece>, Vec<Hit>)>)
    requires
        known.wf(),
    ensures
        match r {
            Some(ph) => {
                let d = deco_after(acc_view(*old(acc)), prefix@.map_values(|p: Piece| p@), s@, outer@, known@);
                &&& d is Some
                &&& ph.0@.map_values(|p: Piece| p@) == d->Some_0.pieces
                &&& hits_view(ph.1@) == d->Some_0.hits
                &&& acc_view(*final(acc)) == after(acc_view(*old(acc)), d->Some_0)
            },
            None => deco_after(acc_view(*old(acc)), prefix@.map_values(|p: Piece| p@), s@, outer@, known@) is None,
        },
{
    let ghost st = acc_view(*acc);
    proof {
        reveal(deco_after);
    }
    let mut links: Vec<String> = Vec::new();
    let mut images: Vec<String> = Vec::new();
    std::mem::swap(&mut links, &mut acc.links);
    std::mem::swap(&mut images, &mut acc.images);
    let mut d = Decorated { pieces: prefix, links, images, hits: Vec::new() };
    assert(deco_view(d) == (DecoModel { pieces: prefix@.map_values(|p: Piece| p@), links: st.links, images: st.images, hits: Seq::empty() })) by {
        assert(deco_view(d).hits =~= Seq::<(int, Goal)>::empty());
    }
    if !inline_exec(&mut d, s, outer, known) {
        return None;
    }
    let ghost dv = deco_view(d);
    let Decorated { pieces, links: l2, images: i2, hits } = d;
    acc.links = l2;
    acc.images = i2;
    assert(acc_view(*acc) == after(st, dv)) by {
        assert(acc_view(*acc).blocks =~= st.blocks);
        assert(acc_view(*acc).srcs =~= st.srcs);
        assert(acc_view(*acc).hits =~= st.hits);
    }
    assert(hits_view(hits@) =~= dv.hits);
    Some((pieces, hits))
}


// ---------------------------------------------------------------------------
// Lines of text
// ---------------------------------------------------------------------------

/// Two columns of indent per nesting step past the first.
pub open spec fn indent_width(level: int) -> int {
    if level > 0 { (level - 1) * 2 } else { 0 }
}

pub open spec fn indent_of(level: int) -> Seq<char> {
    repeated(' ', indent_width(level))
}

pub open spec fn text_piece(text: Seq<char>, layers: Seq<Layer>) -> PieceModel {
    PieceModel::Text { text, layers }
}

pub open spec fn look(text: Seq<char>, l: Layer) -> RunModel {
    RunModel { text, layers: seq![l] }
}

/// What an indented line wears before its text: its indent and a bullet.
pub open spec fn bullet_prefix(level: int) -> Seq<PieceModel> {
    if level > 0 {
        seq![text_piece(indent_of(level), Seq::empty()), text_piece(seq!['•', ' '], seq![Layer::Bullet])]
    } else {
        Seq::empty()
    }
}

/// What a quote wears before its text: its indent and the quote bar.
pub open spec fn quote_prefix(level: int) -> Seq<PieceModel> {
    seq![text_piece(indent_of(level), Seq::empty()), text_piece(seq!['┃', ' '], seq![Layer::QuoteBar])]
}

/// The runs from the `k`-th on laid in italics.
pub open spec fn italic_from(runs: Seq<RunModel>, k: int) -> Seq<RunModel> {
    Seq::new(
        runs.len(),
        |j: int| if j < k { runs[j] } else { RunModel { text: runs[j].text, layers: runs[j].layers.push(Layer::Italic) } },
    )
}

/// A line of nothing but its indent: an empty bullet.
pub open spec fn empty_bullet_line(level: int) -> Seq<RunModel> {
    seq![plain(indent_of(level)), look(seq!['•'], Layer::Bullet)]
}

/// `$ command` or `% command`.
pub open spec fn command_line(level: int, body: Seq<char>) -> Seq<RunModel> {
    seq![plain(indent_of(level)), look(seq![body[0], ' '], Layer::Sigil), look(body.skip(2), Layer::Command)]
}

pub open spec fn title_line(body: Seq<char>) -> Seq<RunModel> {
    seq![look(body, Layer::Title)]
}

/// `>` quote: its text decorated and laid in italics after the bar.
pub open spec fn quote_branch(st: PageModel, i: int, level: int, body: Seq<char>, known: Map<Seq<char>, bool>, ds: Seq<DrawingModel>) -> Option<PageModel> {
    match deco_after(st, quote_prefix(level), spec_trim(body.skip(1)), Seq::empty(), known) {
        None => None,
        Some(d) => Some(
            emit(
                after(st, d),
                BlockModel::Text(italic_from(runs_of(ds, d.pieces), 2)),
                i,
                d.hits,
            ),
        ),
    }
}

/// A heading line (`[** text]`): its text decorated under the heading look,
/// after the bullet of an indented line.
pub open spec fn heading_branch(st: PageModel, i: int, level: int, stars: int, text: Seq<char>, known: Map<Seq<char>, bool>, ds: Seq<DrawingModel>) -> Option<PageModel> {
    match deco_after(st, bullet_prefix(level), text, seq![Layer::Stars(stars as usize)], known) {
        None => None,
        Some(d) => Some(emit(after(st, d), BlockModel::Text(runs_of(ds, d.pieces)), i, d.hits)),
    }
}

/// Any other line: decorated, after the bullet of an indented line.
pub open spec fn plain_branch(st: PageModel, i: int, level: int, body: Seq<char>, known: Map<Seq<char>, bool>, ds: Seq<DrawingModel>) -> Option<PageModel> {
    match deco_after(st, bullet_prefix(level), body, Seq::empty(), known) {
        None => None,
        Some(d) => Some(emit(after(st, d), BlockModel::Text(runs_of(ds, d.pieces)), i, d.hits)),
    }
}

fn spaces(n: usize) -> (s: String)
    ensures
        s@ == repeated(' ', n as int),
{
    let mut cs: Vec<char> = Vec::new();
    let mut k: usize = 0;
    while k < n
        invariant
            k <= n,
            cs@ == repeated(' ', k as int),
        decreases n - k,
    {
        cs.push(' ');
        k += 1;
        assert(cs@ =~= repeated(' ', k as int));
    }
    string_of(cs.as_slice())
}

fn indent_exec(level: usize) -> (s: String)
    requires
        level <= usize::MAX / 2,
    ensures
        s@ == indent_of(level as int),
{
    let w = if level > 0 { (level - 1) * 2 } else { 0 };
    spaces(w)
}

fn text_of(cs: &[char]) -> (s: String)
    ensures
        s@ == cs@,
{
    string_of(cs)
}

fn one_look(l: Layer) -> (v: Vec<Layer>)
    ensures
        v@ == seq![l],
{
    let mut v: Vec<Layer> = Vec::new();
    v.push(l);
    assert(v@ =~= seq![l]);
    v
}

fn no_look() -> (v: Vec<Layer>)
    ensures
        v@ == Seq::<Layer>::empty(),
{
    let v: Vec<Layer> = Vec::new();
    assert(v@ =~= Seq::<Layer>::empty());
    v
}

fn bullet_prefix_exec(level: usize) -> (ps: Vec<Piece>)
    requires
        level <= usize::MAX / 2,
    ensures
        ps@.map_values(|p: Piece| p@) == bullet_prefix(level as int),
{
    let mut ps: Vec<Piece> = Vec::new();
    if level > 0 {
        ps.push(Piece::Text { text: indent_exec(level), layers: no_look() });
        ps.push(Piece::Text { text: text_of(&['•', ' ']), layers: one_look(Layer::Bullet) });
        assert(ps@.map_values(|p: Piece| p@) =~= bullet_prefix(level as int));
    } else {
        assert(ps@.map_values(|p: Piece| p@) =~= bullet_prefix(level as int));
    }
    ps
}

fn quote_prefix_exec(level: usize) -> (ps: Vec<Piece>)
    requires
        level <= usize::MAX / 2,
    ensures
        ps@.map_values(|p: Piece| p@) == quote_prefix(level as int),
{
    let mut ps: Vec<Piece> = Vec::new();
    ps.push(Piece::Text { text: indent_exec(level), layers: no_look() });
    ps.push(Piece::Text { text: text_of(&['┃', ' ']), layers: one_look(Layer::QuoteBar) });
    assert(ps@.map_values(|p: Piece| p@) =~= quote_prefix(level as int));
    ps
}

fn quote_exec(acc: &mut Acc, i: usize, level: usize, body: &[char], known: &LinkTruth, ds: &[Drawing]) -> (ok: bool)
    requires
        known.wf(),
        level <= usize::MAX / 2,
        body.len() > 0,
    ensures
        ok == quote_branch(acc_view(*old(acc)), i as int, level as int, body@, known@, drawings_view(ds@)) is Some,
        ok ==> acc_view(*final(acc)) == quote_branch(acc_view(*old(acc)), i as int, level as int, body@, known@, drawings_view(ds@))->Some_0,
{
    let q = trim(string_of(&body[1..body.len()]).as_str());
    let qs = chars_of(q.as_str());
    assert(body@.subrange(1, body@.len() as int) =~= body@.skip(1));
    let prefix = quote_prefix_exec(level);
    let (ps, hs) = match deco_exec(acc, prefix, qs.as_slice(), &no_look(), known) {
        Some(r) => r,
        None => {
            return false;
        },
    };
    let ghost pv = ps@.map_values(|p: Piece| p@);
    let ghost want = italic_from(runs_of(drawings_view(ds@), pv), 2);
    let mut runs: Vec<Run> = Vec::new();
    let mut k: usize = 0;
    while k < ps.len()
        invariant
            k <= ps.len(),
            pv == ps@.map_values(|p: Piece| p@),
            want == italic_from(runs_of(drawings_view(ds@), pv), 2),
            cell_view(runs@) == want.take(k as int),
        decreases ps.len() - k,
    {
        let mut r = piece_to_run(&ps[k], ds);
        if k >= 2 {
            r.layers.push(Layer::Italic);
        }
        let ghost rv = r@;
        let ghost prev = cell_view(runs@);
        runs.push(r);
        assert(cell_view(runs@) =~= prev.push(rv));
        assert(want.take(k + 1) =~= want.take(k as int).push(want[k as int]));
        k += 1;
    }
    assert(want.take(ps.len() as int) =~= want);
    emit_exec(acc, Block::Text(runs), i, hs);
    true
}


/// Resolve all the pieces into a text line.
fn runs_all(ps: &Vec<Piece>, ds: &[Drawing]) -> (runs: Vec<Run>)
    ensures
        cell_view(runs@) == runs_of(drawings_view(ds@), ps@.map_values(|p: Piece| p@)),
{
    let mut runs: Vec<Run> = Vec::new();
    assert(cell_view(runs@) =~= Seq::<RunModel>::empty());
    push_runs(&mut runs, ps, 0, ds);
    assert(ps@.map_values(|p: Piece| p@).skip(0) =~= ps@.map_values(|p: Piece| p@));
    assert(Seq::<RunModel>::empty() + runs_of(drawings_view(ds@), ps@.map_values(|p: Piece| p@)) =~= runs_of(drawings_view(ds@), ps@.map_values(|p: Piece| p@)));
    runs
}

fn heading_exec(acc: &mut Acc, i: usize, level: usize, stars: usize, text: &[char], known: &LinkTruth, ds: &[Drawing]) -> (ok: bool)
    requires
        known.wf(),
        level <= usize::MAX / 2,
    ensures
        ok == heading_branch(acc_view(*old(acc)), i as int, level as int, stars as int, text@, known@, drawings_view(ds@)) is Some,
        ok ==> acc_view(*final(acc)) == heading_branch(acc_view(*old(acc)), i as int, level as int, stars as int, text@, known@, drawings_view(ds@))->Some_0,
{
    let prefix = bullet_prefix_exec(level);
    let (ps, hs) = match deco_exec(acc, prefix, text, &one_look(Layer::Stars(stars)), known) {
        Some(r) => r,
        None => {
            return false;
        },
    };
    let runs = runs_all(&ps, ds);
    emit_exec(acc, Block::Text(runs), i, hs);
    true
}

fn plain_exec(acc: &mut Acc, i: usize, level: usize, body: &[char], known: &LinkTruth, ds: &[Drawing]) -> (ok: bool)
    requires
        known.wf(),
        level <= usize::MAX / 2,
    ensures
        ok == plain_branch(acc_view(*old(acc)), i as int, level as int, body@, known@, drawings_view(ds@)) is Some,
        ok ==> acc_view(*final(acc)) == plain_branch(acc_view(*old(acc)), i as int, level as int, body@, known@, drawings_view(ds@))->Some_0,
{
    let prefix = bullet_prefix_exec(level);
    let (ps, hs) = match deco_exec(acc, prefix, body, &no_look(), known) {
        Some(r) => r,
        None => {
            return false;
        },
    };
    let runs = runs_all(&ps, ds);
    emit_exec(acc, Block::Text(runs), i, hs);
    true
}

fn no_hits() -> (v: Vec<Hit>)
    ensures
        hits_view(v@) == Seq::<(int, Goal)>::empty(),
{
    let v: Vec<Hit> = Vec::new();
    assert(hits_view(v@) =~= Seq::<(int, Goal)>::empty());
    v
}

fn empty_bullet_exec(acc: &mut Acc, i: usize, level: usize)
    requires
        level <= usize::MAX / 2,
    ensures
        acc_view(*final(acc)) == emit(acc_view(*old(acc)), BlockModel::Text(empty_bullet_line(level as int)), i as int, Seq::empty()),
{
    let mut runs: Vec<Run> = Vec::new();
    runs.push(Run { text: indent_exec(level), layers: no_look() });
    let dot = text_of(&['•']);
    assert(dot@ =~= seq!['•']);
    runs.push(Run { text: dot, layers: one_look(Layer::Bullet) });
    assert(cell_view(runs@) =~= empty_bullet_line(level as int));
    emit_exec(acc, Block::Text(runs), i, no_hits());
}

fn command_exec(acc: &mut Acc, i: usize, level: usize, body: &[char])
    requires
        level <= usize::MAX / 2,
        body.len() >= 2,
    ensures
        acc_view(*final(acc)) == emit(acc_view(*old(acc)), BlockModel::Text(command_line(level as int, body@)), i as int, Seq::empty()),
{
    let mut runs: Vec<Run> = Vec::new();
    runs.push(Run { text: indent_exec(level), layers: no_look() });
    runs.push(Run { text: text_of(&[body[0], ' ']), layers: one_look(Layer::Sigil) });
    runs.push(Run { text: text_of(&body[2..body.len()]), layers: one_look(Layer::Command) });
    assert(body@.subrange(2, body@.len() as int) =~= body@.skip(2));
    assert(cell_view(runs@) =~= command_line(level as int, body@));
    emit_exec(acc, Block::Text(runs), i, no_hits());
}

fn title_exec(acc: &mut Acc, i: usize, body: &[char])
    ensures
        acc_view(*final(acc)) == emit(acc_view(*old(acc)), BlockModel::Text(title_line(body@)), i as int, Seq::empty()),
{
    let mut runs: Vec<Run> = Vec::new();
    runs.push(Run { text: text_of(body), layers: one_look(Layer::Title) });
    assert(cell_view(runs@) =~= title_line(body@));
    emit_exec(acc, Block::Text(runs), i, no_hits());
}


// ---------------------------------------------------------------------------
// Code blocks
// ---------------------------------------------------------------------------

/// Where the run of lines indented deeper than `ci` from line `j` ends.
pub open spec fn deeper_end(lines: Seq<Seq<char>>, j: int, ci: int) -> int
    decreases lines.len() - j,
{
    if 0 <= j < lines.len() && spec_depth(lines[j]) > ci {
        deeper_end(lines, j + 1, ci)
    } else {
        j
    }
}

/// A code line with the block's own indent taken off; deeper indent stays.
pub open spec fn strip_indent(raw: Seq<char>, n: int) -> Seq<char> {
    raw.skip(if n < spec_depth(raw) { n } else { spec_depth(raw) as int })
}

/// The body lines of a code block whose header is line `i`.
pub open spec fn code_bodies(lines: Seq<Seq<char>>, i: int, end: int, ci: int) -> Seq<Seq<char>> {
    Seq::new((end - i - 1) as nat, |k: int| strip_indent(lines[i + 1 + k], ci + 1))
}

pub open spec fn code_row(level: int, body: Seq<char>) -> Seq<RunModel> {
    seq![plain(indent_of(level) + seq![' ', ' ']), look(body, Layer::CodeBody)]
}

pub open spec fn code_rows(level: int, i: int, bodies: Seq<Seq<char>>) -> Seq<(int, Seq<RunModel>)> {
    Seq::new(bodies.len(), |k: int| (i + 1 + k, code_row(level, bodies[k])))
}

/// A code block's header: its indent, the bullet of a nested block, and
/// its label, which can be followed.
pub open spec fn code_header(level: int, lang: Seq<char>) -> Seq<RunModel> {
    seq![plain(indent_of(level))] + (if level > 0 {
        seq![look(seq!['•', ' '], Layer::Bullet)]
    } else {
        Seq::empty()
    }) + seq![look(seq!['c', 'o', 'd', 'e', ':'] + lang, Layer::BlockLabel)]
}

pub open spec fn artifact_kind(lang: Seq<char>) -> Option<ArtifactKind> {
    if spec_mermaid_lang(lang) {
        Some(ArtifactKind::Mermaid)
    } else if spec_math_lang(lang) {
        Some(ArtifactKind::Math)
    } else {
        None
    }
}

pub open spec fn spec_text_column(level: int) -> int {
    if level == 0 { 0 } else { (level - 1) * 2 + 2 }
}

pub open spec fn put_rows(st: PageModel, rows: Seq<(int, Seq<RunModel>)>) -> PageModel
    decreases rows.len(),
{
    if rows.len() == 0 {
        st
    } else {
        put_row(put_rows(st, rows.drop_last()), BlockModel::Text(rows.last().1), rows.last().0)
    }
}

/// A `code:` block: its header and body lines as code rows; a diagram or
/// formula with a body is one artifact instead, and one without a body
/// keeps its header alone. Also the line after the block.
pub open spec fn code_branch(st: PageModel, lines: Seq<Seq<char>>, i: int, level: int, body: Seq<char>) -> (PageModel, int) {
    let lang = spec_trim(body.skip(5));
    let end = deeper_end(lines, i + 1, level);
    let bodies = code_bodies(lines, i, end, level);
    let rows = code_rows(level, i, bodies);
    let header = code_header(level, lang);
    match artifact_kind(lang) {
        None => (
            put_rows(
                emit(st, BlockModel::Text(header), i, seq![(if level > 0 { 2int } else { 1int }, Goal::BlockLabel)]),
                rows,
            ),
            end,
        ),
        Some(kind) => if bodies.len() > 0 {
            (
                emit(
                    st,
                    BlockModel::Artifact {
                        kind,
                        code: crate::text::join_with(bodies, seq!['\n']),
                        rows: seq![(i, header)] + rows,
                        last_src: end - 1,
                        indent: spec_text_column(level),
                    },
                    i,
                    Seq::empty(),
                ),
                end,
            )
        } else {
            (emit(st, BlockModel::Text(header), i, seq![(1int, Goal::BlockLabel)]), end)
        },
    }
}

fn code_header_exec(level: usize, lang: &String) -> (runs: Vec<Run>)
    requires
        level <= usize::MAX / 2,
    ensures
        cell_view(runs@) == code_header(level as int, lang@),
{
    let mut runs: Vec<Run> = Vec::new();
    runs.push(Run { text: indent_exec(level), layers: no_look() });
    if level > 0 {
        runs.push(Run { text: text_of(&['•', ' ']), layers: one_look(Layer::Bullet) });
    }
    let mut cs: Vec<char> = Vec::new();
    cs.push('c');
    cs.push('o');
    cs.push('d');
    cs.push('e');
    cs.push(':');
    let ls = chars_of(lang.as_str());
    let mut k: usize = 0;
    let ghost pre = cs@;
    while k < ls.len()
        invariant
            k <= ls.len(),
            cs@ == pre + ls@.take(k as int),
        decreases ls.len() - k,
    {
        cs.push(ls[k]);
        k += 1;
        assert(cs@ =~= pre + ls@.take(k as int));
    }
    assert(cs@ =~= seq!['c', 'o', 'd', 'e', ':'] + lang@);
    runs.push(Run { text: string_of(cs.as_slice()), layers: one_look(Layer::BlockLabel) });
    assert(cell_view(runs@) =~= code_header(level as int, lang@));
    runs
}

fn code_row_exec(level: usize, body: &String) -> (runs: Vec<Run>)
    requires
        level <= usize::MAX / 2,
    ensures
        cell_view(runs@) == code_row(level as int, body@),
{
    let ind = indent_exec(level);
    let mut cs = chars_of(ind.as_str());
    cs.push(' ');
    cs.push(' ');
    assert(cs@ =~= indent_of(level as int) + seq![' ', ' ']);
    let mut runs: Vec<Run> = Vec::new();
    runs.push(Run { text: string_of(cs.as_slice()), layers: no_look() });
    runs.push(Run { text: crate::text::copy_str(body.as_str()), layers: one_look(Layer::CodeBody) });
    assert(cell_view(runs@) =~= code_row(level as int, body@));
    runs
}

fn block_label_hit(span: usize) -> (v: Vec<Hit>)
    ensures
        hits_view(v@) == seq![(span as int, Goal::BlockLabel)],
{
    let mut v: Vec<Hit> = Vec::new();
    v.push(Hit { span, target: HitTarget::BlockLabel });
    assert(hits_view(v@) =~= seq![(span as int, Goal::BlockLabel)]);
    v
}

fn code_exec(acc: &mut Acc, lines: &[String], i: usize, level: usize, body: &[char]) -> (next: usize)
    requires
        i < lines.len(),
        level <= usize::MAX / 2,
        body.len() >= 5,
    ensures
        (acc_view(*final(acc)), next as int) == code_branch(acc_view(*old(acc)), lines.deep_view(), i as int, level as int, body@),
        i < next <= lines.len(),
{
    let ghost lv = lines.deep_view();
    let ghost st = acc_view(*acc);
    let lang = trim(string_of(&body[5..body.len()]).as_str());
    assert(body@.subrange(5, body@.len() as int) =~= body@.skip(5));
    let header = code_header_exec(level, &lang);
    let mut bodies: Vec<String> = Vec::new();
    let mut j: usize = i + 1;
    while j < lines.len() && crate::render::indent_info(lines[j].as_str()).0 > level
        invariant
            i < j <= lines.len(),
            lv == lines.deep_view(),
            level <= usize::MAX / 2,
            deeper_end(lv, i + 1, level as int) == deeper_end(lv, j as int, level as int),
            bodies.deep_view() == Seq::new((j - i - 1) as nat, |k: int| strip_indent(lv[i + 1 + k], level + 1)),
        decreases lines.len() - j,
    {
        assert(lv[j as int] == lines@[j as int]@);
        let b = crate::render::strip_leading_ws(lines[j].as_str(), level + 1);
        assert(b@ == strip_indent(lv[j as int], level + 1));
        let ghost prev = bodies.deep_view();
        let ghost bb = b@;
        bodies.push(b);
        assert(bodies.deep_view() =~= prev.push(bb));
        j += 1;
        assert(bodies.deep_view() =~= Seq::new((j - i - 1) as nat, |k: int| strip_indent(lv[i + 1 + k], level + 1)));
    }
    proof {
        if j < lines.len() {
            assert(lv[j as int] == lines@[j as int]@);
        }
    }
    let ghost end = j as int;
    assert(deeper_end(lv, i + 1, level as int) == end);
    let ghost bv = code_bodies(lv, i as int, end, level as int);
    assert(bodies.deep_view() =~= bv);
    let ghost rows = code_rows(level as int, i as int, bv);
    let mermaid = crate::render::mermaid_lang(lang.as_str());
    let math = crate::render::math_lang(lang.as_str());
    if !mermaid && !math {
        let span: usize = if level > 0 { 2 } else { 1 };
        emit_exec(acc, Block::Text(header), i, block_label_hit(span));
        let ghost st1 = acc_view(*acc);
        let mut k: usize = 0;
        while k < bodies.len()
            invariant
                k <= bodies.len(),
                level <= usize::MAX / 2,
                bodies.len() == bv.len(),
                bodies.deep_view() == bv,
                rows == code_rows(level as int, i as int, bv),
                i < j,
                bodies.len() == j - i - 1,
                acc_view(*acc) == put_rows(st1, rows.take(k as int)),
            decreases bodies.len() - k,
        {
            assert(bodies.deep_view()[k as int] == bodies@[k as int]@);
            let row = code_row_exec(level, &bodies[k]);
            put_row_exec(acc, Block::Text(row), i + 1 + k);
            assert(rows.take(k + 1).drop_last() =~= rows.take(k as int));
            k += 1;
        }
        assert(rows.take(bodies.len() as int) =~= rows);
        return j;
    }
    let kind = if mermaid { ArtifactKind::Mermaid } else { ArtifactKind::Math };
    if bodies.len() > 0 {
        let nl = text_of(&['\n']);
        assert(nl@ =~= seq!['\n']);
        let code = crate::text::join_strs(bodies.as_slice(), nl.as_str());
        let mut all: Vec<(usize, Vec<Run>)> = Vec::new();
        all.push((i, header));
        let mut k: usize = 0;
        while k < bodies.len()
            invariant
                k <= bodies.len(),
                level <= usize::MAX / 2,
                bodies.deep_view() == bv,
                rows == code_rows(level as int, i as int, bv),
                bodies.len() == j - i - 1,
                all@.map_values(|r: (usize, Vec<Run>)| (r.0 as int, cell_view(r.1@))) == seq![(i as int, code_header(level as int, lang@))] + rows.take(k as int),
            decreases bodies.len() - k,
        {
            assert(bodies.deep_view()[k as int] == bodies@[k as int]@);
            let row = code_row_exec(level, &bodies[k]);
            let ghost rv = cell_view(row@);
            let ghost prev = all@.map_values(|r: (usize, Vec<Run>)| (r.0 as int, cell_view(r.1@)));
            all.push((i + 1 + k, row));
            assert(all@.map_values(|r: (usize, Vec<Run>)| (r.0 as int, cell_view(r.1@))) =~= prev.push(((i + 1 + k) as int, rv)));
            assert(rows.take(k + 1) =~= rows.take(k as int).push(rows[k as int]));
            k += 1;
        }
        assert(rows.take(bodies.len() as int) =~= rows);
        let col = crate::render::text_column(level);
        emit_exec(acc, Block::Artifact { kind, code, rows: all, last_src: j - 1, indent: col }, i, no_hits());
        return j;
    }
    emit_exec(acc, Block::Text(header), i, block_label_hit(1));
    j
}


// ---------------------------------------------------------------------------
// Tables
// ---------------------------------------------------------------------------

/// The cells of a table row: its text after the indent, split at tabs,
/// each without trailing whitespace.
pub open spec fn table_cells(raw: Seq<char>) -> Seq<Seq<char>> {
    crate::math::split_pat(raw.skip(spec_depth(raw) as int), seq!['\t']).map_values(|c: Seq<char>| crate::text::spec_trim_end(c))
}

/// The cells decorated one after another: their runs, the page after
/// them, and the hits gathered so far (each naming a piece of its cell).
pub open spec fn deco_cells(st: PageModel, hs: Seq<(int, Goal)>, cells: Seq<Seq<char>>, known: Map<Seq<char>, bool>, ds: Seq<DrawingModel>) -> Option<(Seq<Seq<RunModel>>, PageModel, Seq<(int, Goal)>)>
    decreases cells.len(),
{
    if cells.len() == 0 {
        Some((Seq::empty(), st, hs))
    } else {
        match deco_cells(st, hs, cells.drop_last(), known, ds) {
            None => None,
            Some(r) => match deco_after(r.1, Seq::empty(), cells.last(), Seq::empty(), known) {
                None => None,
                Some(d) => Some((r.0.push(runs_of(ds, d.pieces)), after(r.1, d), r.2 + d.hits)),
            },
        }
    }
}

/// The rows of the table opened at line `i`, up to (not including) line `k`.
pub open spec fn deco_rows(st: PageModel, lines: Seq<Seq<char>>, i: int, k: int, known: Map<Seq<char>, bool>, ds: Seq<DrawingModel>) -> Option<(Seq<(int, Seq<Seq<RunModel>>)>, PageModel, Seq<(int, Goal)>)>
    decreases k - i,
{
    if k <= i + 1 {
        Some((Seq::empty(), st, Seq::empty()))
    } else {
        match deco_rows(st, lines, i, k - 1, known, ds) {
            None => None,
            Some(r) => match deco_cells(r.1, r.2, table_cells(lines[k - 1]), known, ds) {
                None => None,
                Some(c) => Some((r.0.push((k - 1, c.0)), c.1, c.2)),
            },
        }
    }
}

/// A `table:name` line and the lines indented under it, one row each.
pub open spec fn table_branch(st: PageModel, lines: Seq<Seq<char>>, i: int, level: int, body: Seq<char>, known: Map<Seq<char>, bool>, ds: Seq<DrawingModel>) -> Option<(PageModel, int)> {
    let end = deeper_end(lines, i + 1, level);
    match deco_rows(st, lines, i, end, known, ds) {
        None => None,
        Some(r) => Some(
            (emit(r.1, BlockModel::Table(TableModel { name: spec_trim(body.skip(6)), name_src: i, rows: r.0 }), i, r.2), end),
        ),
    }
}

proof fn lemma_cells_none_stays(st: PageModel, hs: Seq<(int, Goal)>, cells: Seq<Seq<char>>, k: int, m: int, known: Map<Seq<char>, bool>, ds: Seq<DrawingModel>)
    requires
        0 <= k <= m <= cells.len(),
        deco_cells(st, hs, cells.take(k), known, ds) is None,
    ensures
        deco_cells(st, hs, cells.take(m), known, ds) is None,
    decreases m - k,
{
    if m > k {
        lemma_cells_none_stays(st, hs, cells, k, m - 1, known, ds);
        assert(cells.take(m).drop_last() =~= cells.take(m - 1));
    }
}

proof fn lemma_rows_none_stays(st: PageModel, lines: Seq<Seq<char>>, i: int, k: int, m: int, known: Map<Seq<char>, bool>, ds: Seq<DrawingModel>)
    requires
        i + 1 <= k <= m,
        deco_rows(st, lines, i, k, known, ds) is None,
    ensures
        deco_rows(st, lines, i, m, known, ds) is None,
    decreases m - k,
{
    if m > k {
        lemma_rows_none_stays(st, lines, i, k, m - 1, known, ds);
    }
}

proof fn lemma_deeper_end_past(lines: Seq<Seq<char>>, j: int, ci: int)
    requires
        0 <= j < lines.len(),
        spec_depth(lines[j]) > ci,
    ensures
        deeper_end(lines, j, ci) >= j + 1,
{
    lemma_deeper_end_from(lines, j + 1, ci);
}

proof fn lemma_deeper_end_from(lines: Seq<Seq<char>>, j: int, ci: int)
    ensures
        deeper_end(lines, j, ci) >= j,
    decreases lines.len() - j,
{
    if 0 <= j < lines.len() && spec_depth(lines[j]) > ci {
        lemma_deeper_end_from(lines, j + 1, ci);
    }
}

fn copy_hit(h: &Hit) -> (c: Hit)
    ensures
        c.span == h.span,
        goal_of(c.target) == goal_of(h.target),
{
    let target = match &h.target {
        HitTarget::Page(p) => HitTarget::Page(crate::text::copy_str(p.as_str())),
        HitTarget::Url { label, url } => HitTarget::Url {
            label: crate::text::copy_str(label.as_str()),
            url: crate::text::copy_str(url.as_str()),
        },
        HitTarget::BlockLabel => HitTarget::BlockLabel,
    };
    Hit { span: h.span, target }
}

fn append_hits(dst: &mut Vec<Hit>, src: &Vec<Hit>)
    ensures
        hits_view(final(dst)@) == hits_view(old(dst)@) + hits_view(src@),
{
    let ghost base = hits_view(dst@);
    let mut k: usize = 0;
    while k < src.len()
        invariant
            k <= src.len(),
            hits_view(dst@) == base + hits_view(src@).take(k as int),
        decreases src.len() - k,
    {
        let h = copy_hit(&src[k]);
        let ghost prev = hits_view(dst@);
        dst.push(h);
        assert(hits_view(dst@) =~= prev.push(hits_view(src@)[k as int]));
        assert(hits_view(src@).take(k + 1) =~= hits_view(src@).take(k as int).push(hits_view(src@)[k as int]));
        k += 1;
    }
    assert(hits_view(src@).take(src.len() as int) =~= hits_view(src@));
}

/// One table row's cells decorated onto the page, their hits gathered.
fn row_exec(acc: &mut Acc, hits: &mut Vec<Hit>, raw: &str, known: &LinkTruth, ds: &[Drawing]) -> (r: Option<Vec<Vec<Run>>>)
    requires
        known.wf(),
    ensures
        match r {
            Some(row) => deco_cells(acc_view(*old(acc)), hits_view(old(hits)@), table_cells(raw@), known@, drawings_view(ds@)) == Some((
                row@.map_values(|x: Vec<Run>| cell_view(x@)),
                acc_view(*final(acc)),
                hits_view(final(hits)@),
            )),
            None => deco_cells(acc_view(*old(acc)), hits_view(old(hits)@), table_cells(raw@), known@, drawings_view(ds@)) is None,
        },
{
    let ghost dv = drawings_view(ds@);
    let ghost st_row = acc_view(*acc);
    let ghost hs_row = hits_view(hits@);
    let (_, _, rest) = crate::render::indent_info(raw);
    let parts = crate::math::split_pattern(rest, &['\t']);
    assert(['\t']@ =~= seq!['\t']);
    let ghost cells = table_cells(raw@);
    assert(cells =~= parts.deep_view().map_values(|c: Seq<char>| crate::text::spec_trim_end(c)));
    let mut row: Vec<Vec<Run>> = Vec::new();
    let mut c: usize = 0;
    assert(cells.take(0) =~= Seq::<Seq<char>>::empty());
    assert(row@.map_values(|x: Vec<Run>| cell_view(x@)) =~= Seq::<Seq<RunModel>>::empty());
    while c < parts.len()
        invariant
            c <= parts.len() == cells.len(),
            cells == parts.deep_view().map_values(|x: Seq<char>| crate::text::spec_trim_end(x)),
            cells == table_cells(raw@),
            dv == drawings_view(ds@),
            st_row == acc_view(*old(acc)),
            hs_row == hits_view(old(hits)@),
            known.wf(),
            deco_cells(st_row, hs_row, cells.take(c as int), known@, dv) == Some((
                row@.map_values(|x: Vec<Run>| cell_view(x@)),
                acc_view(*acc),
                hits_view(hits@),
            )),
        decreases parts.len() - c,
    {
        assert(parts.deep_view()[c as int] == parts@[c as int]@);
        let t = crate::text::trim_end(parts[c].as_str());
        let tc = chars_of(t.as_str());
        assert(cells.take(c + 1).drop_last() =~= cells.take(c as int));
        let prefix: Vec<Piece> = Vec::new();
        assert(prefix@.map_values(|p: Piece| p@) =~= Seq::<PieceModel>::empty());
        let (ps, hs) = match deco_exec(acc, prefix, tc.as_slice(), &no_look(), known) {
            Some(r) => r,
            None => {
                proof {
                    assert(deco_cells(st_row, hs_row, cells.take(c + 1), known@, dv) is None);
                    lemma_cells_none_stays(st_row, hs_row, cells, c + 1, cells.len() as int, known@, dv);
                    assert(cells.take(cells.len() as int) =~= cells);
                }
                return None;
            },
        };
        let runs = runs_all(&ps, ds);
        let ghost rv = cell_view(runs@);
        let ghost prow = row@.map_values(|x: Vec<Run>| cell_view(x@));
        row.push(runs);
        assert(row@.map_values(|x: Vec<Run>| cell_view(x@)) =~= prow.push(rv));
        append_hits(hits, &hs);
        c += 1;
    }
    assert(cells.take(parts.len() as int) =~= cells);
    Some(row)
}

fn table_exec(acc: &mut Acc, lines: &[String], i: usize, level: usize, body: &[char], known: &LinkTruth, ds: &[Drawing]) -> (r: Option<usize>)
    requires
        known.wf(),
        i < lines.len(),
        level <= usize::MAX / 2,
        body.len() >= 6,
    ensures
        match r {
            Some(next) => table_branch(acc_view(*old(acc)), lines.deep_view(), i as int, level as int, body@, known@, drawings_view(ds@)) == Some((acc_view(*final(acc)), next as int))
                && i < next <= lines.len(),
            None => table_branch(acc_view(*old(acc)), lines.deep_view(), i as int, level as int, body@, known@, drawings_view(ds@)) is None,
        },
{
    let ghost lv = lines.deep_view();
    let ghost dv = drawings_view(ds@);
    let ghost st0 = acc_view(*acc);
    let name = trim(string_of(&body[6..body.len()]).as_str());
    assert(body@.subrange(6, body@.len() as int) =~= body@.skip(6));
    let mut rows: Vec<(usize, Vec<Vec<Run>>)> = Vec::new();
    let mut hits: Vec<Hit> = Vec::new();
    assert(hits_view(hits@) =~= Seq::<(int, Goal)>::empty());
    assert(rows@.map_values(|r: (usize, Vec<Vec<Run>>)| (r.0 as int, row_cells(r))) =~= Seq::<(int, Seq<Seq<RunModel>>)>::empty());
    let mut j: usize = i + 1;
    while j < lines.len() && crate::render::indent_info(lines[j].as_str()).0 > level
        invariant
            i < j <= lines.len(),
            lv == lines.deep_view(),
            dv == drawings_view(ds@),
            known.wf(),
            level <= usize::MAX / 2,
            deeper_end(lv, i + 1, level as int) == deeper_end(lv, j as int, level as int),
            st0 == acc_view(*old(acc)),
            deco_rows(st0, lv, i as int, j as int, known@, dv) == Some((
                rows@.map_values(|r: (usize, Vec<Vec<Run>>)| (r.0 as int, row_cells(r))),
                acc_view(*acc),
                hits_view(hits@),
            )),
        decreases lines.len() - j,
    {
        assert(lv[j as int] == lines@[j as int]@);
        let row = match row_exec(acc, &mut hits, lines[j].as_str(), known, ds) {
            Some(row) => row,
            None => {
                proof {
                    assert(deco_rows(st0, lv, i as int, j + 1, known@, dv) is None);
                    lemma_deeper_end_past(lv, j as int, level as int);
                    lemma_rows_none_stays(st0, lv, i as int, j + 1, deeper_end(lv, j as int, level as int), known@, dv);
                }
                return None;
            },
        };
        let ghost prows = rows@.map_values(|r: (usize, Vec<Vec<Run>>)| (r.0 as int, row_cells(r)));
        let ghost rc = row@.map_values(|x: Vec<Run>| cell_view(x@));
        rows.push((j, row));
        assert(rows@.map_values(|r: (usize, Vec<Vec<Run>>)| (r.0 as int, row_cells(r))) =~= prows.push((j as int, rc)));
        j += 1;
    }
    proof {
        if j < lines.len() {
            assert(lv[j as int] == lines@[j as int]@);
        }
    }
    assert(deeper_end(lv, i + 1, level as int) == j);
    let t = PageTable { name, name_src: i, rows };
    emit_exec(acc, Block::Table(t), i, hits);
    Some(j)
}


// ---------------------------------------------------------------------------
// Pictures and tall formulas
// ---------------------------------------------------------------------------

/// A line that is one picture: the picture on a row of its own.
pub open spec fn image_branch(st: PageModel, i: int, level: int, url: Seq<char>) -> PageModel {
    emit(
        PageModel { images: st.images.push(url), ..st },
        BlockModel::Image { url, indent: spec_text_column(level), item: level > 0 },
        i,
        Seq::empty(),
    )
}

fn image_exec(acc: &mut Acc, i: usize, level: usize, url: String)
    requires
        level <= usize::MAX / 2,
    ensures
        acc_view(*final(acc)) == image_branch(acc_view(*old(acc)), i as int, level as int, url@),
{
    let ghost st = acc_view(*acc);
    let u2 = crate::text::copy_str(url.as_str());
    acc.images.push(u2);
    assert(acc_view(*acc) == (PageModel { images: st.images.push(url@), ..st })) by {
        assert(acc_view(*acc).images =~= st.images.push(url@));
        assert(acc_view(*acc).blocks =~= st.blocks);
        assert(acc_view(*acc).srcs =~= st.srcs);
        assert(acc_view(*acc).hits =~= st.hits);
    }
    let col = crate::render::text_column(level);
    emit_exec(acc, Block::Image { url, indent: col, item: level > 0 }, i, no_hits());
}

/// A `[$ … ]` drawn over more than one row.
pub open spec fn is_tall(ds: Seq<DrawingModel>, inner: Seq<char>) -> bool {
    &&& inner.len() > 0
    &&& inner[0] == '$'
    &&& drawing_of(ds, inner.skip(1)) is Some
    &&& drawing_of(ds, inner.skip(1))->Some_0.rows.len() > 1
}

pub open spec fn tall_pick(ds: Seq<DrawingModel>) -> spec_fn(Seq<char>) -> Option<Seq<char>> {
    |inner: Seq<char>| if is_tall(ds, inner) { Some(inner) } else { None }
}

/// Does the line hold a formula that needs rows of its own? (Quoted
/// notation is text about a formula, not one.)
pub open spec fn has_tall(ds: Seq<DrawingModel>, body: Seq<char>) -> bool {
    scan_brackets(body, tall_pick(ds)).len() > 0
}

fn is_tall_exec(ds: &[Drawing], inner: &[char]) -> (r: Option<usize>)
    ensures
        r is Some <==> is_tall(drawings_view(ds@), inner@),
        r is Some ==> r->Some_0 < ds.len() && drawing_of(drawings_view(ds@), inner@.skip(1)) == Some(drawing_view(ds@[r->Some_0 as int])),
{
    if inner.len() == 0 || inner[0] != '$' {
        return None;
    }
    let latex = string_of(&inner[1..inner.len()]);
    assert(latex@ =~= inner@.skip(1));
    match find_drawing(ds, latex.as_str()) {
        Some(k) => {
            if ds[k].rendered.rows.len() > 1 {
                Some(k)
            } else {
                None
            }
        },
        None => None,
    }
}

fn has_tall_exec(body: &[char], ds: &[Drawing]) -> (b: bool)
    ensures
        b == has_tall(drawings_view(ds@), body@),
{
    let ghost pick = tall_pick(drawings_view(ds@));
    let mut at: usize = 0;
    assert(body@.skip(0) =~= body@);
    loop
        invariant
            at <= body.len(),
            pick == tall_pick(drawings_view(ds@)),
            (scan_brackets(body@, pick).len() > 0) == (scan_brackets(body@.skip(at as int), pick).len() > 0),
        decreases body.len() - at,
    {
        let rest = &body[at..body.len()];
        let ghost r = body@.skip(at as int);
        assert(rest@ =~= r);
        let tick = find_char_exec(rest, '`', 0);
        let open = find_char_exec(rest, '[', 0);
        proof {
            lemma_find_char(r, '`', 0);
            lemma_find_char(r, '[', 0);
        }
        match open {
            None => {
                return false;
            },
            Some(o) => {
                if tick.is_some() && tick.unwrap() < o {
                    let t = tick.unwrap();
                    let cl = find_char_exec(rest, '`', t + 1);
                    proof {
                        lemma_find_char(r, '`', t + 1);
                    }
                    match cl {
                        Some(c) => {
                            assert(r.skip(c + 1) =~= body@.skip(at + c + 1));
                            at = at + c + 1;
                        },
                        None => {
                            return false;
                        },
                    }
                } else {
                    let cl = close_at(rest, o);
                    proof {
                        lemma_close_from(r, o + 1, 1);
                    }
                    match cl {
                        None => {
                            return false;
                        },
                        Some(e) => {
                            assert(rest@.subrange(o + 1, e as int) =~= r.subrange(o + 1, e as int));
                            if is_tall_exec(ds, &rest[o + 1..e]).is_some() {
                                return true;
                            }
                            assert(r.skip(e + 1) =~= body@.skip(at + e + 1));
                            at = at + e + 1;
                        },
                    }
                }
            },
        }
    }
}


// ---------------------------------------------------------------------------
// Lines that mix text with pictures and tall formulas
// ---------------------------------------------------------------------------

/// A stretch of a mixed line: text between two places, a picture, or a
/// tall formula (its source, trimmed, and its drawing).
pub enum ItemModel {
    Run(int, int),
    Pic(Seq<char>),
    Tall(Seq<char>, DrawingModel),
}

enum Item {
    Run(usize, usize),
    Pic(String),
    Tall(String, usize),
}

spec fn item_view(it: Item, ds: Seq<Drawing>) -> ItemModel {
    match it {
        Item::Run(a, b) => ItemModel::Run(a as int, b as int),
        Item::Pic(u) => ItemModel::Pic(u@),
        Item::Tall(src, k) => ItemModel::Tall(src@, drawing_view(ds[k as int])),
    }
}

spec fn items_view(its: Seq<Item>, ds: Seq<Drawing>) -> Seq<ItemModel> {
    its.map_values(|it: Item| item_view(it, ds))
}

spec fn items_ok(its: Seq<Item>, n: int, nds: int) -> bool {
    forall|k: int| 0 <= k < its.len() ==> match #[trigger] its[k] {
        Item::Run(a, b) => a <= b <= n,
        Item::Tall(_, j) => j < nds,
        Item::Pic(_) => true,
    }
}

pub open spec fn tick_count(s: Seq<char>) -> int
    decreases s.len(),
{
    if s.len() == 0 {
        0
    } else {
        tick_count(s.drop_last()) + if s.last() == '`' { 1int } else { 0int }
    }
}

/// What a bracket of a mixed line is on its own: a picture, else a tall
/// formula.
pub open spec fn own_part(ds: Seq<DrawingModel>, inner: Seq<char>) -> Option<ItemModel> {
    match spec_image_in_bracket(inner) {
        Some(u) => Some(ItemModel::Pic(u)),
        None => if is_tall(ds, inner) {
            Some(ItemModel::Tall(spec_trim(inner.skip(1)), drawing_of(ds, inner.skip(1))->Some_0))
        } else {
            None
        },
    }
}

pub open spec fn tail_run(n: int, tf: int) -> Seq<ItemModel> {
    if n > tf { seq![ItemModel::Run(tf, n)] } else { Seq::empty() }
}

/// The stretches of a mixed line from `i` on, text running from `tf`:
/// each bracket that is a part of its own (one not inside backticks, as
/// counted from the start of the line) ends the text before it. `None`
/// where a bracket's inside cannot be read.
pub open spec fn parts_scan(body: Seq<char>, i: int, tf: int, ds: Seq<DrawingModel>) -> Option<Seq<ItemModel>>
    decreases body.len() - i,
{
    if i < 0 || i >= body.len() {
        Some(tail_run(body.len() as int, tf))
    } else {
        match find_char(body, '[', i) {
            None => Some(tail_run(body.len() as int, tf)),
            Some(open) => if open < i || open >= body.len() {
                Some(tail_run(body.len() as int, tf))
            } else if tick_count(body.take(open)) % 2 == 1 {
                parts_scan(body, open + 1, tf, ds)
            } else {
                match close_from(body, open + 1, 1) {
                    None => Some(tail_run(body.len() as int, tf)),
                    Some(close) => if close <= open || close >= body.len() {
                        Some(tail_run(body.len() as int, tf))
                    } else if !bracket_readable(body.subrange(open + 1, close)) {
                        None
                    } else {
                        match own_part(ds, body.subrange(open + 1, close)) {
                            Some(it) => match parts_scan(body, close + 1, close + 1, ds) {
                                None => None,
                                Some(rest) => Some(
                                    (if open > tf { seq![ItemModel::Run(tf, open)] } else { Seq::empty() }) + seq![it] + rest,
                                ),
                            },
                            None => parts_scan(body, close + 1, tf, ds),
                        }
                    },
                }
            },
        }
    }
}

pub open spec fn prepend(a: Seq<ItemModel>, r: Option<Seq<ItemModel>>) -> Option<Seq<ItemModel>> {
    match r {
        Some(x) => Some(a + x),
        None => None,
    }
}

fn tick_count_exec(cs: &[char], n: usize) -> (c: usize)
    requires
        n <= cs.len(),
    ensures
        c == tick_count(cs@.take(n as int)),
{
    let mut c: usize = 0;
    let mut k: usize = 0;
    while k < n
        invariant
            k <= n <= cs.len(),
            c == tick_count(cs@.take(k as int)),
            c <= k,
        decreases n - k,
    {
        assert(cs@.take(k + 1).drop_last() =~= cs@.take(k as int));
        if cs[k] == '`' {
            c += 1;
        }
        k += 1;
    }
    c
}

fn parts_scan_exec(body: &[char], ds: &[Drawing]) -> (r: Option<Vec<Item>>)
    ensures
        match r {
            Some(its) => parts_scan(body@, 0, 0, drawings_view(ds@)) == Some(items_view(its@, ds@))
                && items_ok(its@, body.len() as int, ds.len() as int),
            None => parts_scan(body@, 0, 0, drawings_view(ds@)) is None,
        },
{
    let ghost dv = drawings_view(ds@);
    let mut its: Vec<Item> = Vec::new();
    let mut i: usize = 0;
    let mut tf: usize = 0;
    let mut done = false;
    assert(items_view(its@, ds@) =~= Seq::<ItemModel>::empty());
    assert(prepend(Seq::empty(), parts_scan(body@, 0, 0, dv)) == parts_scan(body@, 0, 0, dv)) by {
        match parts_scan(body@, 0, 0, dv) {
            Some(x) => {
                assert(Seq::<ItemModel>::empty() + x =~= x);
            },
            None => {},
        }
    }
    while !done
        invariant
            tf <= i <= body.len(),
            dv == drawings_view(ds@),
            items_ok(its@, body.len() as int, ds.len() as int),
            !done ==> parts_scan(body@, 0, 0, dv) == prepend(items_view(its@, ds@), parts_scan(body@, i as int, tf as int, dv)),
            done ==> parts_scan(body@, 0, 0, dv) == Some(items_view(its@, ds@)),
        decreases body.len() - i, (if done { 0int } else { 1int }),
    {
        let ghost before = items_view(its@, ds@);
        let open = if i < body.len() { find_char_exec(body, '[', i) } else { None };
        proof {
            lemma_find_char(body@, '[', i as int);
        }
        let mut finish = false;
        match open {
            None => {
                finish = true;
            },
            Some(o) => {
                if tick_count_exec(body, o) % 2 == 1 {
                    i = o + 1;
                } else {
                    match close_at(body, o) {
                        None => {
                            finish = true;
                        },
                        Some(c) => {
                            proof {
                                lemma_close_from(body@, o + 1, 1);
                            }
                            let inner = &body[o + 1..c];
                            let ghost iv = body@.subrange(o + 1, c as int);
                            assert(inner@ =~= iv);
                            let is = string_of(inner);
                            let ti = trim(is.as_str());
                            let mut g: Vec<String> = Vec::new();
                            assert(g.deep_view() =~= Seq::<Seq<char>>::empty());
                            if !crate::inline::find_gyazo_checked(ti.as_str(), &mut g) {
                                return None;
                            }
                            let own: Option<Item> = match crate::inline::image_in_bracket(is.as_str()) {
                                Some(u) => Some(Item::Pic(u)),
                                None => match is_tall_exec(ds, inner) {
                                    Some(k) => {
                                        let src = trim(string_of(&inner[1..inner.len()]).as_str());
                                        assert(inner@.subrange(1, inner@.len() as int) =~= iv.skip(1));
                                        Some(Item::Tall(src, k))
                                    },
                                    None => None,
                                },
                            };
                            match own {
                                Some(it) => {
                                    let ghost itv = item_view(it, ds@);
                                    assert(own_part(dv, iv) == Some(itv));
                                    let ghost lead: Seq<ItemModel> = if o > tf { seq![ItemModel::Run(tf as int, o as int)] } else { Seq::empty() };
                                    if o > tf {
                                        its.push(Item::Run(tf, o));
                                    }
                                    its.push(it);
                                    assert(items_view(its@, ds@) =~= before + lead + seq![itv]);
                                    proof {
                                        match parts_scan(body@, c + 1, c + 1, dv) {
                                            Some(rest) => {
                                                assert(before + (lead + seq![itv] + rest) =~= (before + lead + seq![itv]) + rest);
                                            },
                                            None => {},
                                        }
                                    }
                                    tf = c + 1;
                                },
                                None => {
                                    assert(own_part(dv, iv) is None);
                                },
                            }
                            i = c + 1;
                        },
                    }
                }
            },
        }
        if finish {
            let ghost tl = tail_run(body.len() as int, tf as int);
            if body.len() > tf {
                its.push(Item::Run(tf, body.len()));
            }
            assert(items_view(its@, ds@) =~= before + tl);
            done = true;
        }
    }
    Some(its)
}


/// Decorating `s` onto what a line has so far.
#[verifier::opaque]
pub open spec fn deco_on(d: DecoModel, s: Seq<char>, known: Map<Seq<char>, bool>) -> Option<DecoModel> {
    spec_inline(d, s, Seq::empty(), known)
}

/// The parts of a mixed line, in order: a picture part (and the picture
/// among the page's), a formula part, or a text part for a stretch of
/// text that decorates to anything. The text parts are decorated one
/// after another as if they were one line, so a hit names its piece by
/// its place among all the text parts' pieces.
pub open spec fn parts_build(body: Seq<char>, items: Seq<ItemModel>, d: DecoModel, known: Map<Seq<char>, bool>, ds: Seq<DrawingModel>) -> Option<(Seq<PartModel>, DecoModel)>
    decreases items.len(),
{
    if items.len() == 0 {
        Some((Seq::empty(), d))
    } else {
        match parts_build(body, items.drop_last(), d, known, ds) {
            None => None,
            Some(r) => build_step(body, r, items.last(), known, ds),
        }
    }
}

/// One stretch of a mixed line added to its parts so far.
pub open spec fn build_step(body: Seq<char>, r: (Seq<PartModel>, DecoModel), it: ItemModel, known: Map<Seq<char>, bool>, ds: Seq<DrawingModel>) -> Option<(Seq<PartModel>, DecoModel)> {
    match it {
        ItemModel::Pic(u) => Some((r.0.push(PartModel::Image(u)), DecoModel { images: r.1.images.push(u), ..r.1 })),
        ItemModel::Tall(src, dr) => Some(
            (r.0.push(PartModel::Formula { source: look(src, Layer::Notation), rows: dr.rows, baseline: dr.baseline }), r.1),
        ),
        ItemModel::Run(a, b) => match deco_on(r.1, body.subrange(a, b), known) {
            None => None,
            Some(d2) => if d2.pieces.len() > r.1.pieces.len() {
                Some((r.0.push(PartModel::Text(runs_of(ds, d2.pieces.skip(r.1.pieces.len() as int)))), d2))
            } else {
                Some((r.0, d2))
            },
        },
    }
}

/// A line with pictures or tall formulas on it: one block of its parts.
pub open spec fn inline_branch(st: PageModel, i: int, level: int, body: Seq<char>, known: Map<Seq<char>, bool>, ds: Seq<DrawingModel>) -> Option<PageModel> {
    match parts_scan(body, 0, 0, ds) {
        None => None,
        Some(items) => match parts_build(
            body,
            items,
            DecoModel { pieces: Seq::empty(), links: st.links, images: st.images, hits: Seq::empty() },
            known,
            ds,
        ) {
            None => None,
            Some(r) => Some(
                emit(
                    after(st, r.1),
                    BlockModel::Inline { indent: spec_text_column(level), item: level > 0, parts: r.0 },
                    i,
                    r.1.hits,
                ),
            ),
        },
    }
}

proof fn lemma_build_none_stays(body: Seq<char>, items: Seq<ItemModel>, d: DecoModel, known: Map<Seq<char>, bool>, ds: Seq<DrawingModel>, k: int, m: int)
    requires
        0 <= k <= m <= items.len(),
        parts_build(body, items.take(k), d, known, ds) is None,
    ensures
        parts_build(body, items.take(m), d, known, ds) is None,
    decreases m - k,
{
    if m > k {
        lemma_build_none_stays(body, items, d, known, ds, k, m - 1);
        assert(items.take(m).drop_last() =~= items.take(m - 1));
    }
}

fn step_exec(d: &mut Decorated, parts: &mut Vec<InlinePart>, it: &Item, body: &[char], known: &LinkTruth, ds: &[Drawing]) -> (ok: bool)
    requires
        known.wf(),
        match *it {
            Item::Run(a, b) => a <= b <= body.len(),
            Item::Tall(_, j) => j < ds.len(),
            Item::Pic(_) => true,
        },
    ensures
        ok == build_step(body@, (old(parts)@.map_values(|p: InlinePart| part_view(p)), deco_view(*old(d))), item_view(*it, ds@), known@, drawings_view(ds@)) is Some,
        ok ==> build_step(body@, (old(parts)@.map_values(|p: InlinePart| part_view(p)), deco_view(*old(d))), item_view(*it, ds@), known@, drawings_view(ds@)) == Some((final(parts)@.map_values(|p: InlinePart| part_view(p)), deco_view(*final(d)))),
{
    let ghost dv = drawings_view(ds@);
    let ghost pv = parts@.map_values(|p: InlinePart| part_view(p));
    let ghost dbefore = deco_view(*d);
    match it {
        Item::Pic(u) => {
            d.images.push(crate::text::copy_str(u.as_str()));
            parts.push(InlinePart::Image(crate::text::copy_str(u.as_str())));
            assert(parts@.map_values(|p: InlinePart| part_view(p)) =~= pv.push(PartModel::Image(u@)));
            assert(deco_view(*d) == DecoModel { images: dbefore.images.push(u@), ..dbefore }) by {
                assert(deco_view(*d).images =~= dbefore.images.push(u@));
                assert(deco_view(*d).pieces =~= dbefore.pieces);
                assert(deco_view(*d).hits =~= dbefore.hits);
            }
            true
        },
        Item::Tall(src, j) => {
            let j = *j;
            let r = &ds[j].rendered;
            let mut rows: Vec<String> = Vec::new();
            let mut x: usize = 0;
            while x < r.rows.len()
                invariant
                    x <= r.rows.len(),
                    rows.deep_view() == r.rows.deep_view().take(x as int),
                decreases r.rows.len() - x,
            {
                let ghost prev = rows.deep_view();
                rows.push(crate::text::copy_str(r.rows[x].as_str()));
                assert(rows.deep_view() =~= prev.push(r.rows.deep_view()[x as int]));
                assert(r.rows.deep_view().take(x + 1) =~= r.rows.deep_view().take(x as int).push(r.rows.deep_view()[x as int]));
                x += 1;
            }
            assert(r.rows.deep_view().take(r.rows.len() as int) =~= r.rows.deep_view());
            let source = Run { text: crate::text::copy_str(src.as_str()), layers: one_look(Layer::Notation) };
            parts.push(InlinePart::Formula { source, rows, baseline: r.baseline });
            assert(parts@.map_values(|p: InlinePart| part_view(p)) =~= pv.push(PartModel::Formula {
                source: look(src@, Layer::Notation),
                rows: drawing_view(ds@[j as int]).rows,
                baseline: drawing_view(ds@[j as int]).baseline,
            }));
            true
        },
        Item::Run(a, b) => {
            let a = *a;
            let b = *b;
            let before_len = d.pieces.len();
            proof {
                reveal(deco_on);
            }
            if !inline_exec(d, &body[a..b], &no_look(), known) {
                return false;
            }
            if d.pieces.len() > before_len {
                let mut runs: Vec<Run> = Vec::new();
                assert(cell_view(runs@) =~= Seq::<RunModel>::empty());
                push_runs(&mut runs, &d.pieces, before_len, ds);
                let ghost rv = cell_view(runs@);
                assert(rv =~= runs_of(dv, deco_view(*d).pieces.skip(before_len as int)));
                parts.push(InlinePart::Text(runs));
                assert(parts@.map_values(|p: InlinePart| part_view(p)) =~= pv.push(PartModel::Text(rv)));
            }
            true
        },
    }
}

fn inline_line_exec(acc: &mut Acc, i: usize, level: usize, body: &[char], known: &LinkTruth, ds: &[Drawing]) -> (ok: bool)
    requires
        known.wf(),
        level <= usize::MAX / 2,
    ensures
        ok == inline_branch(acc_view(*old(acc)), i as int, level as int, body@, known@, drawings_view(ds@)) is Some,
        ok ==> acc_view(*final(acc)) == inline_branch(acc_view(*old(acc)), i as int, level as int, body@, known@, drawings_view(ds@))->Some_0,
{
    let ghost dv = drawings_view(ds@);
    let ghost st = acc_view(*acc);
    let its = match parts_scan_exec(body, ds) {
        Some(its) => its,
        None => {
            return false;
        },
    };
    let ghost iv = items_view(its@, ds@);
    let mut links: Vec<String> = Vec::new();
    let mut images: Vec<String> = Vec::new();
    std::mem::swap(&mut links, &mut acc.links);
    std::mem::swap(&mut images, &mut acc.images);
    let mut d = Decorated { pieces: Vec::new(), links, images, hits: Vec::new() };
    let ghost d0 = DecoModel { pieces: Seq::empty(), links: st.links, images: st.images, hits: Seq::empty() };
    assert(deco_view(d) == d0) by {
        assert(deco_view(d).pieces =~= Seq::<PieceModel>::empty());
        assert(deco_view(d).hits =~= Seq::<(int, Goal)>::empty());
    }
    let mut parts: Vec<InlinePart> = Vec::new();
    assert(parts@.map_values(|p: InlinePart| part_view(p)) =~= Seq::<PartModel>::empty());
    assert(iv.take(0) =~= Seq::<ItemModel>::empty());
    let mut k: usize = 0;
    while k < its.len()
        invariant
            k <= its.len(),
            known.wf(),
            dv == drawings_view(ds@),
            iv == items_view(its@, ds@),
            st == acc_view(*old(acc)),
            d0 == (DecoModel { pieces: Seq::empty(), links: st.links, images: st.images, hits: Seq::empty() }),
            parts_scan(body@, 0, 0, dv) == Some(iv),
            items_ok(its@, body.len() as int, ds.len() as int),
            parts_build(body@, iv.take(k as int), d0, known@, dv) == Some((parts@.map_values(|p: InlinePart| part_view(p)), deco_view(d))),
        decreases its.len() - k,
    {
        assert(iv.take(k + 1).drop_last() =~= iv.take(k as int));
        assert(iv.take(k + 1).last() == item_view(its@[k as int], ds@));
        if !step_exec(&mut d, &mut parts, &its[k], body, known, ds) {
            proof {
                assert(parts_build(body@, iv.take(k + 1), d0, known@, dv) is None);
                lemma_build_none_stays(body@, iv, d0, known@, dv, k + 1, iv.len() as int);
                assert(iv.take(iv.len() as int) =~= iv);
            }
            return false;
        }
        k += 1;
    }
    assert(iv.take(its.len() as int) =~= iv);
    let ghost df = deco_view(d);
    let Decorated { pieces: _, links: l2, images: i2, hits } = d;
    acc.links = l2;
    acc.images = i2;
    assert(acc_view(*acc) == after(st, df)) by {
        assert(acc_view(*acc).blocks =~= st.blocks);
        assert(acc_view(*acc).srcs =~= st.srcs);
        assert(acc_view(*acc).hits =~= st.hits);
    }
    assert(hits_view(hits@) =~= df.hits);
    let col = crate::render::text_column(level);
    emit_exec(acc, Block::Inline { indent: col, item: level > 0, parts }, i, hits);
    true
}


// ---------------------------------------------------------------------------
// A page
// ---------------------------------------------------------------------------

pub open spec fn image_pick() -> spec_fn(Seq<char>) -> Option<Seq<char>> {
    |inner: Seq<char>| spec_image_in_bracket(inner)
}

pub open spec fn lift(o: Option<PageModel>, next: int) -> Option<(PageModel, int)> {
    match o {
        Some(p) => Some((p, next)),
        None => None,
    }
}

/// Line `i` (and, for a table or a code block, the lines that belong to
/// it) read onto the page, with the line to go on from: a blank line; a
/// line of nothing but indent (an empty bullet); a table; a code block
/// (unless it is a diagram or formula nested deeper than one is drawn); a
/// line that is one picture; a line with pictures or tall formulas on it;
/// a command; the title (the first line); a quote; a heading; or any
/// other line. `None` where a picture's permalink cannot be cut out of
/// the line.
pub open spec fn spec_line(lines: Seq<Seq<char>>, i: int, st: PageModel, known: Map<Seq<char>, bool>, ds: Seq<DrawingModel>) -> Option<(PageModel, int)> {
    let raw = lines[i];
    let level = spec_depth(raw) as int;
    let body = raw.skip(level);
    if raw.len() == 0 {
        Some((emit(st, BlockModel::Blank, i, Seq::empty()), i + 1))
    } else if body.len() == 0 {
        Some((emit(st, BlockModel::Text(empty_bullet_line(level)), i, Seq::empty()), i + 1))
    } else if has_prefix(body, seq!['t', 'a', 'b', 'l', 'e', ':']) {
        table_branch(st, lines, i, level, body, known, ds)
    } else if has_prefix(body, seq!['c', 'o', 'd', 'e', ':']) && !too_deep(level, body.skip(5)) {
        Some(code_branch(st, lines, i, level, body))
    } else if standalone_unreadable(body) {
        None
    } else if spec_standalone_image(body) is Some {
        Some((image_branch(st, i, level, spec_standalone_image(body)->Some_0), i + 1))
    } else if !brackets_readable(body) {
        None
    } else if scan_brackets(body, image_pick()).len() > 0 || has_tall(ds, body) {
        lift(inline_branch(st, i, level, body, known, ds), i + 1)
    } else if has_prefix(body, seq!['$', ' ']) || has_prefix(body, seq!['%', ' ']) {
        Some((emit(st, BlockModel::Text(command_line(level, body)), i, Seq::empty()), i + 1))
    } else if i == 0 {
        Some((emit(st, BlockModel::Text(title_line(body)), i, Seq::empty()), i + 1))
    } else if body[0] == '>' {
        lift(quote_branch(st, i, level, body, known, ds), i + 1)
    } else if spec_heading(body) is Some {
        lift(heading_branch(st, i, level, spec_heading(body)->Some_0.0, spec_heading(body)->Some_0.1, known, ds), i + 1)
    } else {
        lift(plain_branch(st, i, level, body, known, ds), i + 1)
    }
}

/// The page from line `i` on.
pub open spec fn render_from(lines: Seq<Seq<char>>, i: int, st: PageModel, known: Map<Seq<char>, bool>, ds: Seq<DrawingModel>) -> Option<PageModel>
    decreases lines.len() - i,
{
    if i < 0 || i >= lines.len() {
        Some(st)
    } else {
        match spec_line(lines, i, st, known, ds) {
            None => None,
            Some(r) => if r.1 <= i {
                None
            } else if r.1 >= lines.len() {
                Some(r.0)
            } else {
                render_from(lines, r.1, r.0, known, ds)
            },
        }
    }
}

/// A page's lines rendered, with what its formulas were drawn as.
pub open spec fn spec_render(lines: Seq<Seq<char>>, known: Map<Seq<char>, bool>, ds: Seq<DrawingModel>) -> Option<PageModel> {
    render_from(lines, 0, empty_page(), known, ds)
}

/// Every line fits in memory: a string holds at most `isize::MAX` bytes.
pub open spec fn lines_fit(lines: Seq<Seq<char>>) -> bool {
    forall|k: int| 0 <= k < lines.len() ==> (#[trigger] lines[k]).len() <= usize::MAX / 2
}

fn has_prefix_chars(cs: &[char], p: &[char]) -> (b: bool)
    ensures
        b == has_prefix(cs@, p@),
{
    crate::text::occurs_at_exec(cs, p, 0)
}

fn line_exec(acc: &mut Acc, lines: &[String], i: usize, known: &LinkTruth, ds: &[Drawing]) -> (r: Option<usize>)
    requires
        known.wf(),
        i < lines.len(),
        lines_fit(lines.deep_view()),
    ensures
        match r {
            Some(n) => spec_line(lines.deep_view(), i as int, acc_view(*old(acc)), known@, drawings_view(ds@)) == Some((acc_view(*final(acc)), n as int))
                && i < n <= lines.len(),
            None => spec_line(lines.deep_view(), i as int, acc_view(*old(acc)), known@, drawings_view(ds@)) is None,
        },
{
    let ghost lv = lines.deep_view();
    assert(lv[i as int] == lines@[i as int]@);
    let raw = lines[i].as_str();
    let (level, _, body_str) = crate::render::indent_info(raw);
    proof {
        crate::render::lemma_depth_from_bounds(raw@, 0);
    }
    assert(level <= usize::MAX / 2);
    let body = chars_of(body_str);
    if raw.unicode_len() == 0 {
        emit_exec(acc, Block::Blank, i, no_hits());
        return Some(i + 1);
    }
    if body.len() == 0 {
        empty_bullet_exec(acc, i, level);
        return Some(i + 1);
    }
    let table_word = ['t', 'a', 'b', 'l', 'e', ':'];
    assert(table_word@ =~= seq!['t', 'a', 'b', 'l', 'e', ':']);
    if has_prefix_chars(body.as_slice(), &table_word) {
        assert(body.len() >= 6);
        return table_exec(acc, lines, i, level, body.as_slice(), known, ds);
    }
    let code_word = ['c', 'o', 'd', 'e', ':'];
    assert(code_word@ =~= seq!['c', 'o', 'd', 'e', ':']);
    if has_prefix_chars(body.as_slice(), &code_word) {
        let lang = string_of(&body.as_slice()[5..body.len()]);
        assert(lang@ =~= body@.skip(5));
        if !crate::render::artifact_too_deep(level, lang.as_str()) {
            return Some(code_exec(acc, lines, i, level, body.as_slice()));
        }
    }
    match crate::inline::standalone_image_checked(body_str) {
        None => {
            return None;
        },
        Some(Some(url)) => {
            image_exec(acc, i, level, url);
            return Some(i + 1);
        },
        Some(None) => {},
    }
    if !crate::inline::brackets_readable_exec(body_str) {
        return None;
    }
    let pics = crate::inline::line_images(body_str);
    proof {
        assert(image_pick() =~= (|inner: Seq<char>| spec_image_in_bracket(inner)));
    }
    if pics.len() > 0 || has_tall_exec(body.as_slice(), ds) {
        if inline_line_exec(acc, i, level, body.as_slice(), known, ds) {
            return Some(i + 1);
        }
        return None;
    }
    let dollar = ['$', ' '];
    let percent = ['%', ' '];
    assert(dollar@ =~= seq!['$', ' ']);
    assert(percent@ =~= seq!['%', ' ']);
    if has_prefix_chars(body.as_slice(), &dollar) || has_prefix_chars(body.as_slice(), &percent) {
        command_exec(acc, i, level, body.as_slice());
        return Some(i + 1);
    }
    if i == 0 {
        title_exec(acc, i, body.as_slice());
        return Some(i + 1);
    }
    if body[0] == '>' {
        if quote_exec(acc, i, level, body.as_slice(), known, ds) {
            return Some(i + 1);
        }
        return None;
    }
    match crate::decorate::heading_text(body_str) {
        Some((stars, text)) => {
            if heading_exec(acc, i, level, stars, text.as_slice(), known, ds) {
                return Some(i + 1);
            }
            return None;
        },
        None => {},
    }
    if plain_exec(acc, i, level, body.as_slice(), known, ds) {
        return Some(i + 1);
    }
    None
}


/// Render a page's lines into blocks (see `spec_line`), with what is known
/// of the pages it links to and what its formulas were drawn as. `None`
/// exactly where a line holds a picture whose permalink cannot be cut out
/// of it.
pub fn render_lines_checked(lines: &[String], known: &LinkTruth, drawings: &[Drawing]) -> (r: Option<RenderOutput>)
    requires
        known.wf(),
        lines_fit(lines.deep_view()),
    ensures
        match r {
            Some(o) => spec_render(lines.deep_view(), known@, drawings_view(drawings@)) == Some(output_view(o)),
            None => spec_render(lines.deep_view(), known@, drawings_view(drawings@)) is None,
        },
{
    let ghost lv = lines.deep_view();
    let ghost dv = drawings_view(drawings@);
    let mut acc = Acc { blocks: Vec::new(), srcs: Vec::new(), links: Vec::new(), images: Vec::new(), hits: Vec::new() };
    assert(acc_view(acc) == empty_page()) by {
        assert(acc_view(acc).blocks =~= Seq::<BlockModel>::empty());
        assert(acc_view(acc).srcs =~= Seq::<int>::empty());
        assert(acc_view(acc).links =~= Seq::<Seq<char>>::empty());
        assert(acc_view(acc).images =~= Seq::<Seq<char>>::empty());
        assert(acc_view(acc).hits =~= Seq::<Seq<(int, Goal)>>::empty());
    }
    let mut i: usize = 0;
    while i < lines.len()
        invariant
            i <= lines.len(),
            lv == lines.deep_view(),
            dv == drawings_view(drawings@),
            known.wf(),
            lines_fit(lv),
            spec_render(lv, known@, dv) == render_from(lv, i as int, acc_view(acc), known@, dv),
        decreases lines.len() - i,
    {
        match line_exec(&mut acc, lines, i, known, drawings) {
            Some(n) => {
                i = n;
            },
            None => {
                return None;
            },
        }
    }
    let Acc { blocks, srcs, links, images, hits } = acc;
    Some(RenderOutput { blocks, srcs, extracted: Extracted { links, images }, hits })
}

/// Render a page's lines into blocks (see `spec_render`).
pub fn render_lines_with(lines: &[String], known: &LinkTruth, drawings: &[Drawing]) -> (o: RenderOutput)
    requires
        known.wf(),
        lines_fit(lines.deep_view()),
        spec_render(lines.deep_view(), known@, drawings_view(drawings@)) is Some,
    ensures
        spec_render(lines.deep_view(), known@, drawings_view(drawings@)) == Some(output_view(o)),
{
    match render_lines_checked(lines, known, drawings) {
        Some(o) => o,
        None => {
            proof {
                assert(false);
            }
            RenderOutput {
                blocks: Vec::new(),
                srcs: Vec::new(),
                extracted: Extracted { links: Vec::new(), images: Vec::new() },
                hits: Vec::new(),
            }
        },
    }
}

/// Render with nothing known of the linked pages and no formula drawn.
pub fn render_lines(lines: &[String]) -> (o: RenderOutput)
    requires
        lines_fit(lines.deep_view()),
        spec_render(lines.deep_view(), Map::empty(), Seq::empty()) is Some,
    ensures
        spec_render(lines.deep_view(), Map::empty(), Seq::empty()) == Some(output_view(o)),
{
    let known = LinkTruth::new();
    let none: Vec<Drawing> = Vec::new();
    assert(drawings_view(none@) =~= Seq::<DrawingModel>::empty());
    render_lines_with(lines, &known, none.as_slice())
}


/// The LaTeX of every `[$ … ]` on a line from position `k` on, as written
/// (untrimmed), each bracket matched from its own `[`: what a caller draws
/// before the page is rendered.
pub open spec fn sources_from(s: Seq<char>, k: int) -> Seq<Seq<char>>
    decreases s.len() - k,
{
    if k < 0 || k + 1 >= s.len() {
        Seq::empty()
    } else {
        let here = if s[k] == '[' && s[k + 1] == '$' {
            match close_from(s, k + 1, 1) {
                Some(c) => if k + 2 <= c < s.len() { seq![s.subrange(k + 2, c)] } else { Seq::empty() },
                None => Seq::empty(),
            }
        } else {
            Seq::empty()
        };
        here + sources_from(s, k + 1)
    }
}

/// The formulas of a line, as written, for drawing.
pub fn formula_sources(line: &str) -> (out: Vec<String>)
    ensures
        out.deep_view() == sources_from(line@, 0),
{
    let cs = chars_of(line);
    let mut out: Vec<String> = Vec::new();
    let mut k: usize = 0;
    assert(out.deep_view() + sources_from(line@, 0) =~= sources_from(line@, 0));
    while k < cs.len() && k + 1 < cs.len()
        invariant
            k <= cs.len(),
            cs@ == line@,
            out.deep_view() + sources_from(line@, k as int) == sources_from(line@, 0),
        decreases cs.len() - k,
    {
        let ghost before = out.deep_view();
        let ghost here: Seq<Seq<char>> = Seq::empty();
        if cs[k] == '[' && cs[k + 1] == '$' {
            match close_at(cs.as_slice(), k) {
                Some(c) => {
                    proof {
                        lemma_close_from(cs@, k + 1, 1);
                    }
                    if k + 2 <= c {
                        let latex = string_of(&cs.as_slice()[k + 2..c]);
                        assert(latex@ =~= cs@.subrange(k + 2, c as int));
                        proof {
                            here = seq![latex@];
                        }
                        out.push(latex);
                    }
                },
                None => {},
            }
        }
        assert(out.deep_view() =~= before + here);
        assert(before + (here + sources_from(line@, k + 1)) =~= (before + here) + sources_from(line@, k + 1));
        k += 1;
    }
    assert(sources_from(line@, k as int) =~= Seq::<Seq<char>>::empty());
    assert(out.deep_view() + Seq::<Seq<char>>::empty() =~= out.deep_view());
    out
}


// ---------------------------------------------------------------------------
// Every block knows its line
// ---------------------------------------------------------------------------

/// Each block has its source line and its hits, the lines go in order, and
/// all come before line `n`.
pub open spec fn tagged_in_order(p: PageModel, n: int) -> bool {
    &&& p.blocks.len() == p.srcs.len()
    &&& p.hits.len() == p.blocks.len()
    &&& forall|k: int| 0 <= k < p.srcs.len() ==> 0 <= #[trigger] p.srcs[k] < n
    &&& forall|a: int, b: int| 0 <= a <= b < p.srcs.len() ==> #[trigger] p.srcs[a] <= #[trigger] p.srcs[b]
}

/// A text block's hits name runs it has.
pub open spec fn hits_fit(b: BlockModel, hs: Seq<(int, Goal)>) -> bool {
    b is Text ==> forall|h: int| 0 <= h < hs.len() ==> 0 <= #[trigger] hs[h].0 < b->Text_0.len()
}

/// Every hit of a text block names one of the block's runs.
pub open spec fn hits_name_runs(p: PageModel) -> bool {
    forall|k: int| 0 <= k < p.blocks.len() && k < p.hits.len() ==> hits_fit(#[trigger] p.blocks[k], p.hits[k])
}

proof fn lemma_emit_tagged(st: PageModel, b: BlockModel, i: int, hs: Seq<(int, Goal)>, n: int)
    requires
        tagged_in_order(st, i),
        hits_name_runs(st),
        hits_fit(b, hs),
        0 <= i < n,
    ensures
        tagged_in_order(emit(st, b, i, hs), n),
        hits_name_runs(emit(st, b, i, hs)),
{
    let p = emit(st, b, i, hs);
    assert forall|a: int, c: int| 0 <= a <= c < p.srcs.len() implies #[trigger] p.srcs[a] <= #[trigger] p.srcs[c] by {
        if c == p.srcs.len() - 1 {
            if a < c {
                assert(st.srcs[a] < i);
            }
        } else {
            assert(p.srcs[a] == st.srcs[a] && p.srcs[c] == st.srcs[c]);
        }
    }
    assert forall|k: int| 0 <= k < p.blocks.len() && k < p.hits.len() implies hits_fit(#[trigger] p.blocks[k], p.hits[k]) by {
        if k < st.blocks.len() {
            assert(p.blocks[k] == st.blocks[k] && p.hits[k] == st.hits[k]);
        }
    }
}

proof fn lemma_cells_keep_blocks(st: PageModel, hs: Seq<(int, Goal)>, cells: Seq<Seq<char>>, known: Map<Seq<char>, bool>, ds: Seq<DrawingModel>)
    requires
        deco_cells(st, hs, cells, known, ds) is Some,
    ensures
        deco_cells(st, hs, cells, known, ds)->Some_0.1.blocks == st.blocks,
        deco_cells(st, hs, cells, known, ds)->Some_0.1.srcs == st.srcs,
        deco_cells(st, hs, cells, known, ds)->Some_0.1.hits == st.hits,
    decreases cells.len(),
{
    if cells.len() > 0 {
        lemma_cells_keep_blocks(st, hs, cells.drop_last(), known, ds);
    }
}

proof fn lemma_rows_keep_blocks(st: PageModel, lines: Seq<Seq<char>>, i: int, k: int, known: Map<Seq<char>, bool>, ds: Seq<DrawingModel>)
    requires
        deco_rows(st, lines, i, k, known, ds) is Some,
    ensures
        deco_rows(st, lines, i, k, known, ds)->Some_0.1.blocks == st.blocks,
        deco_rows(st, lines, i, k, known, ds)->Some_0.1.srcs == st.srcs,
        deco_rows(st, lines, i, k, known, ds)->Some_0.1.hits == st.hits,
    decreases k - i,
{
    if k > i + 1 {
        lemma_rows_keep_blocks(st, lines, i, k - 1, known, ds);
        let r = deco_rows(st, lines, i, k - 1, known, ds)->Some_0;
        lemma_cells_keep_blocks(r.1, r.2, table_cells(lines[k - 1]), known, ds);
    }
}

proof fn lemma_put_rows_tagged(st: PageModel, rows: Seq<(int, Seq<RunModel>)>, i: int, n: int)
    requires
        tagged_in_order(st, i + 1),
        hits_name_runs(st),
        0 <= i,
        forall|k: int| 0 <= k < rows.len() ==> #[trigger] rows[k].0 == i + 1 + k,
        i + rows.len() < n,
    ensures
        tagged_in_order(put_rows(st, rows), n),
        tagged_in_order(put_rows(st, rows), i + 1 + rows.len()),
        hits_name_runs(put_rows(st, rows)),
    decreases rows.len(),
{
    if rows.len() > 0 {
        let prev = rows.drop_last();
        assert forall|k: int| 0 <= k < prev.len() implies #[trigger] prev[k].0 == i + 1 + k by {
            assert(prev[k] == rows[k]);
        }
        lemma_put_rows_tagged(st, prev, i, n);
        let q = put_rows(st, prev);
        assert(rows.last().0 == i + rows.len());
        lemma_emit_tagged(q, BlockModel::Text(rows.last().1), rows.last().0, Seq::empty(), i + 1 + rows.len());
        lemma_tagged_wider(put_rows(st, rows), i + 1 + rows.len(), n);
    }
}

proof fn lemma_tagged_wider(p: PageModel, n: int, m: int)
    requires
        tagged_in_order(p, n),
        n <= m,
    ensures
        tagged_in_order(p, m),
{
}

/// A decorated line's hits name its pieces.
proof fn lemma_deco_hits_fit(st: PageModel, prefix: Seq<PieceModel>, s: Seq<char>, outer: Seq<Layer>, known: Map<Seq<char>, bool>)
    requires
        deco_after(st, prefix, s, outer, known) is Some,
    ensures
        hits_in_pieces(deco_after(st, prefix, s, outer, known)->Some_0),
{
    reveal(deco_after);
    let d0 = DecoModel { pieces: prefix, links: st.links, images: st.images, hits: Seq::empty() };
    crate::decorate::lemma_inline_hits(d0, s, outer, known);
}

/// One line's step keeps the blocks tagged in order, their hits naming
/// their runs, and moves on.
proof fn lemma_line_tagged(lines: Seq<Seq<char>>, i: int, st: PageModel, known: Map<Seq<char>, bool>, ds: Seq<DrawingModel>)
    requires
        0 <= i < lines.len(),
        tagged_in_order(st, i),
        hits_name_runs(st),
        spec_line(lines, i, st, known, ds) is Some,
    ensures
        i < spec_line(lines, i, st, known, ds)->Some_0.1 <= lines.len(),
        tagged_in_order(spec_line(lines, i, st, known, ds)->Some_0.0, spec_line(lines, i, st, known, ds)->Some_0.1),
        hits_name_runs(spec_line(lines, i, st, known, ds)->Some_0.0),
{
    let raw = lines[i];
    let level = spec_depth(raw) as int;
    let body = raw.skip(level);
    lemma_tagged_wider(st, i, i + 1);
    if raw.len() == 0 {
        lemma_emit_tagged(st, BlockModel::Blank, i, Seq::empty(), i + 1);
    } else if body.len() == 0 {
        lemma_emit_tagged(st, BlockModel::Text(empty_bullet_line(level)), i, Seq::empty(), i + 1);
    } else if has_prefix(body, seq!['t', 'a', 'b', 'l', 'e', ':']) {
        let end = deeper_end(lines, i + 1, level);
        lemma_deeper_end_from(lines, i + 1, level);
        lemma_deeper_end_le(lines, i + 1, level);
        lemma_rows_keep_blocks(st, lines, i, end, known, ds);
        let t = deco_rows(st, lines, i, end, known, ds)->Some_0;
        assert(tagged_in_order(t.1, i));
        assert(hits_name_runs(t.1));
        lemma_emit_tagged(t.1, BlockModel::Table(TableModel { name: spec_trim(body.skip(6)), name_src: i, rows: t.0 }), i, t.2, end);
    } else if has_prefix(body, seq!['c', 'o', 'd', 'e', ':']) && !too_deep(level, body.skip(5)) {
        let lang = spec_trim(body.skip(5));
        let end = deeper_end(lines, i + 1, level);
        lemma_deeper_end_from(lines, i + 1, level);
        lemma_deeper_end_le(lines, i + 1, level);
        let bodies = code_bodies(lines, i, end, level);
        let rows = code_rows(level, i, bodies);
        let header = code_header(level, lang);
        match artifact_kind(lang) {
            None => {
                let hs = seq![(if level > 0 { 2int } else { 1int }, Goal::BlockLabel)];
                assert(hits_fit(BlockModel::Text(header), hs));
                let e = emit(st, BlockModel::Text(header), i, hs);
                lemma_emit_tagged(st, BlockModel::Text(header), i, hs, i + 1);
                lemma_put_rows_tagged(e, rows, i, end + 1);
                assert(i + 1 + rows.len() == end);
            },
            Some(kind) => {
                if bodies.len() > 0 {
                    lemma_emit_tagged(st, BlockModel::Artifact {
                        kind,
                        code: crate::text::join_with(bodies, seq!['\n']),
                        rows: seq![(i, header)] + rows,
                        last_src: end - 1,
                        indent: spec_text_column(level),
                    }, i, Seq::empty(), end);
                } else {
                    let hs = seq![(1int, Goal::BlockLabel)];
                    assert(hits_fit(BlockModel::Text(header), hs));
                    lemma_emit_tagged(st, BlockModel::Text(header), i, hs, end);
                }
            },
        }
    } else if spec_standalone_image(body) is Some {
        let u = spec_standalone_image(body)->Some_0;
        lemma_emit_tagged(PageModel { images: st.images.push(u), ..st }, BlockModel::Image { url: u, indent: spec_text_column(level), item: level > 0 }, i, Seq::empty(), i + 1);
    } else if scan_brackets(body, image_pick()).len() > 0 || has_tall(ds, body) {
        let items = parts_scan(body, 0, 0, ds)->Some_0;
        let b = parts_build(body, items, DecoModel { pieces: Seq::empty(), links: st.links, images: st.images, hits: Seq::empty() }, known, ds)->Some_0;
        lemma_emit_tagged(after(st, b.1), BlockModel::Inline { indent: spec_text_column(level), item: level > 0, parts: b.0 }, i, b.1.hits, i + 1);
    } else if has_prefix(body, seq!['$', ' ']) || has_prefix(body, seq!['%', ' ']) {
        lemma_emit_tagged(st, BlockModel::Text(command_line(level, body)), i, Seq::empty(), i + 1);
    } else if i == 0 {
        lemma_emit_tagged(st, BlockModel::Text(title_line(body)), i, Seq::empty(), i + 1);
    } else if body[0] == '>' {
        let q = spec_trim(body.skip(1));
        let d = deco_after(st, quote_prefix(level), q, Seq::empty(), known)->Some_0;
        lemma_deco_hits_fit(st, quote_prefix(level), q, Seq::empty(), known);
        lemma_emit_tagged(after(st, d), BlockModel::Text(italic_from(runs_of(ds, d.pieces), 2)), i, d.hits, i + 1);
    } else if spec_heading(body) is Some {
        let h = spec_heading(body)->Some_0;
        let d = deco_after(st, bullet_prefix(level), h.1, seq![Layer::Stars(h.0 as usize)], known)->Some_0;
        lemma_deco_hits_fit(st, bullet_prefix(level), h.1, seq![Layer::Stars(h.0 as usize)], known);
        lemma_emit_tagged(after(st, d), BlockModel::Text(runs_of(ds, d.pieces)), i, d.hits, i + 1);
    } else {
        let d = deco_after(st, bullet_prefix(level), body, Seq::empty(), known)->Some_0;
        lemma_deco_hits_fit(st, bullet_prefix(level), body, Seq::empty(), known);
        lemma_emit_tagged(after(st, d), BlockModel::Text(runs_of(ds, d.pieces)), i, d.hits, i + 1);
    }
}

proof fn lemma_deeper_end_le(lines: Seq<Seq<char>>, j: int, ci: int)
    requires
        0 <= j <= lines.len(),
    ensures
        deeper_end(lines, j, ci) <= lines.len(),
    decreases lines.len() - j,
{
    if 0 <= j < lines.len() && spec_depth(lines[j]) > ci {
        lemma_deeper_end_le(lines, j + 1, ci);
    }
}

proof fn lemma_render_tagged(lines: Seq<Seq<char>>, i: int, st: PageModel, known: Map<Seq<char>, bool>, ds: Seq<DrawingModel>)
    requires
        0 <= i,
        tagged_in_order(st, i),
        hits_name_runs(st),
        render_from(lines, i, st, known, ds) is Some,
    ensures
        tagged_in_order(render_from(lines, i, st, known, ds)->Some_0, if i > lines.len() { i } else { lines.len() as int }),
        hits_name_runs(render_from(lines, i, st, known, ds)->Some_0),
    decreases lines.len() - i,
{
    if i >= lines.len() {
        lemma_tagged_wider(st, i, if i > lines.len() { i } else { lines.len() as int });
    } else {
        lemma_line_tagged(lines, i, st, known, ds);
        let r = spec_line(lines, i, st, known, ds)->Some_0;
        if r.1 >= lines.len() {
            lemma_tagged_wider(r.0, r.1, lines.len() as int);
        } else {
            lemma_render_tagged(lines, r.1, r.0, known, ds);
        }
    }
}

/// Every block of a rendered page carries the source line it was drawn
/// from and its own list of what can be followed on it: one line and one
/// list per block, the lines in page order, each a line of the page.
pub proof fn law_every_block_carries_its_source_line(lines: Seq<Seq<char>>, known: Map<Seq<char>, bool>, ds: Seq<DrawingModel>)
    requires
        spec_render(lines, known, ds) is Some,
    ensures
        tagged_in_order(spec_render(lines, known, ds)->Some_0, lines.len() as int),
{
    assert(tagged_in_order(empty_page(), 0));
    lemma_render_tagged(lines, 0, empty_page(), known, ds);
}

/// Every followable thing on a text line says which of the line's runs it
/// is: each hit of a text block names one of that block's runs.
pub proof fn law_text_hits_name_their_runs(lines: Seq<Seq<char>>, known: Map<Seq<char>, bool>, ds: Seq<DrawingModel>)
    requires
        spec_render(lines, known, ds) is Some,
    ensures
        hits_name_runs(spec_render(lines, known, ds)->Some_0),
{
    assert(tagged_in_order(empty_page(), 0));
    lemma_render_tagged(lines, 0, empty_page(), known, ds);
}


proof fn lemma_put_rows_blocks(st: PageModel, rows: Seq<(int, Seq<RunModel>)>)
    ensures
        put_rows(st, rows).blocks =~= st.blocks + Seq::new(rows.len(), |k: int| BlockModel::Text(rows[k].1)),
        put_rows(st, rows).srcs =~= st.srcs + Seq::new(rows.len(), |k: int| rows[k].0),
    decreases rows.len(),
{
    if rows.len() > 0 {
        lemma_put_rows_blocks(st, rows.drop_last());
    }
}

proof fn lemma_deeper_end_members(lines: Seq<Seq<char>>, j: int, ci: int)
    requires
        0 <= j <= lines.len(),
    ensures
        j <= deeper_end(lines, j, ci) <= lines.len(),
        deeper_end(lines, j, ci) < lines.len() ==> spec_depth(lines[deeper_end(lines, j, ci)]) <= ci,
        forall|m: int| j <= m < deeper_end(lines, j, ci) ==> spec_depth(#[trigger] lines[m]) > ci,
    decreases lines.len() - j,
{
    if j < lines.len() && spec_depth(lines[j]) > ci {
        lemma_deeper_end_members(lines, j + 1, ci);
    }
}

/// A `code:` block that is neither a diagram nor a formula runs on over
/// every following line indented deeper than its header, and shows each
/// of them as one row of its own: the block's indent and two spaces, then
/// the source line with exactly one more indentation character than the
/// header's taken off, so that indentation deeper than that is kept and
/// the code keeps its nesting.
pub proof fn law_code_rows_keep_relative_indent(
    lines: Seq<Seq<char>>,
    i: int,
    st: PageModel,
    known: Map<Seq<char>, bool>,
    ds: Seq<DrawingModel>,
)
    requires
        0 <= i < lines.len(),
        st.srcs.len() == st.blocks.len(),
        has_prefix(lines[i].skip(spec_depth(lines[i]) as int), seq!['c', 'o', 'd', 'e', ':']),
        !too_deep(spec_depth(lines[i]) as int, lines[i].skip(spec_depth(lines[i]) as int).skip(5)),
        artifact_kind(spec_trim(lines[i].skip(spec_depth(lines[i]) as int).skip(5))) is None,
    ensures
        spec_line(lines, i, st, known, ds) is Some,
        ({
            let r = spec_line(lines, i, st, known, ds)->Some_0;
            let p = r.0;
            let end = r.1;
            let level = spec_depth(lines[i]) as int;
            let n = st.blocks.len() as int;
            &&& i < end <= lines.len()
            &&& end < lines.len() ==> spec_depth(lines[end]) <= level
            &&& p.blocks.len() == n + (end - i)
            &&& forall|j: int|
                #![trigger lines[j]]
                i < j < end ==> {
                    &&& spec_depth(lines[j]) > level
                    &&& p.srcs[n + (j - i)] == j
                    &&& p.blocks[n + (j - i)] == BlockModel::Text(
                        seq![plain(indent_of(level) + seq![' ', ' ']), look(lines[j].skip(level + 1), Layer::CodeBody)],
                    )
                }
        }),
{
    let raw = lines[i];
    let level = spec_depth(raw) as int;
    let body = raw.skip(level);
    assert(body.subrange(0, 5) == seq!['c', 'o', 'd', 'e', ':']);
    assert(body[0] == 'c') by {
        assert(body.subrange(0, 5)[0] == body[0]);
    }
    assert(!has_prefix(body, seq!['t', 'a', 'b', 'l', 'e', ':'])) by {
        if has_prefix(body, seq!['t', 'a', 'b', 'l', 'e', ':']) {
            assert(body.subrange(0, 6)[0] == body[0]);
        }
    }
    assert(spec_line(lines, i, st, known, ds) == Some(code_branch(st, lines, i, level, body)));
    let lang = spec_trim(body.skip(5));
    let end = deeper_end(lines, i + 1, level);
    let bodies = code_bodies(lines, i, end, level);
    let rows = code_rows(level, i, bodies);
    let hs = seq![(if level > 0 { 2int } else { 1int }, Goal::BlockLabel)];
    let e = emit(st, BlockModel::Text(code_header(level, lang)), i, hs);
    assert(code_branch(st, lines, i, level, body) == (put_rows(e, rows), end));
    lemma_deeper_end_members(lines, i + 1, level);
    lemma_put_rows_blocks(e, rows);
    let p = put_rows(e, rows);
    let n = st.blocks.len() as int;
    assert forall|j: int|
        #![trigger lines[j]]
        i < j < end implies {
            &&& spec_depth(lines[j]) > level
            &&& p.srcs[n + (j - i)] == j
            &&& p.blocks[n + (j - i)] == BlockModel::Text(
                seq![plain(indent_of(level) + seq![' ', ' ']), look(lines[j].skip(level + 1), Layer::CodeBody)],
            )
        } by {
        let k = j - i - 1;
        assert(spec_depth(lines[i + 1 + k]) > level);
        assert(bodies[k] == strip_indent(lines[j], level + 1));
        assert(rows[k] == (j, code_row(level, bodies[k])));
        assert(p.blocks[n + (j - i)] == BlockModel::Text(rows[k].1));
        assert(p.srcs[n + (j - i)] == rows[k].0);
    }
}
// ---------------------------------------------------------------------------
// Drawn artifacts
// ---------------------------------------------------------------------------

/// Part of a diagram's shape rather than its words: arrows, box drawing,
/// blocks and shades, and the geometric shapes arrow heads are drawn with.
pub open spec fn spec_is_diagram_rule(c: char) -> bool {
    (0x2190 <= c as u32 <= 0x21FF) || (0x2500 <= c as u32 <= 0x257F) || (0x2580 <= c as u32 <= 0x259F) || (0x25A0
        <= c as u32 <= 0x25FF)
}

pub fn is_diagram_rule(c: char) -> (b: bool)
    ensures
        b == spec_is_diagram_rule(c),
{
    ('\u{2190}' <= c && c <= '\u{21FF}') || ('\u{2500}' <= c && c <= '\u{257F}') || ('\u{2580}' <= c && c <= '\u{259F}')
        || ('\u{25A0}' <= c && c <= '\u{25FF}')
}

/// A diagram row split into its rules (dim) and its words: neighbouring
/// characters of one kind share a run.
pub open spec fn rule_split(cs: Seq<char>) -> Seq<RunModel>
    decreases cs.len(),
{
    if cs.len() == 0 {
        Seq::empty()
    } else {
        let out = rule_split(cs.drop_last());
        let c = cs.last();
        let l: Seq<Layer> = if spec_is_diagram_rule(c) { seq![Layer::Rule] } else { Seq::empty() };
        if out.len() > 0 && out.last().layers == l {
            out.update(out.len() - 1, RunModel { text: out.last().text.push(c), layers: l })
        } else {
            out.push(RunModel { text: seq![c], layers: l })
        }
    }
}

/// One row of a drawn artifact, pushed right by `indent`: a formula in one
/// ink (every glyph of it means something); a diagram with its rules dim
/// and its words in the body's ink.
pub open spec fn spec_drawn_line(text: Seq<char>, indent: int, kind: ArtifactKind) -> Seq<RunModel> {
    if kind == ArtifactKind::Math {
        seq![plain(repeated(' ', indent) + text)]
    } else {
        seq![plain(repeated(' ', indent))] + rule_split(text)
    }
}

pub fn drawn_line(text: &str, indent: usize, kind: ArtifactKind) -> (runs: Vec<Run>)
    ensures
        cell_view(runs@) == spec_drawn_line(text@, indent as int, kind),
{
    let pad = spaces(indent);
    let cs = chars_of(text);
    let mut runs: Vec<Run> = Vec::new();
    if kind == ArtifactKind::Math {
        let mut all = chars_of(pad.as_str());
        let ghost p = all@;
        let mut k: usize = 0;
        while k < cs.len()
            invariant
                k <= cs.len(),
                all@ == p + cs@.take(k as int),
            decreases cs.len() - k,
        {
            all.push(cs[k]);
            k += 1;
            assert(all@ =~= p + cs@.take(k as int));
        }
        assert(cs@.take(cs.len() as int) =~= cs@);
        runs.push(Run { text: string_of(all.as_slice()), layers: no_look() });
        assert(cell_view(runs@) =~= spec_drawn_line(text@, indent as int, kind));
        return runs;
    }
    runs.push(Run { text: pad, layers: no_look() });
    let mut texts: Vec<Vec<char>> = Vec::new();
    let mut rules: Vec<bool> = Vec::new();
    let mut k: usize = 0;
    while k < cs.len()
        invariant
            k <= cs.len(),
            texts.len() == rules.len(),
            rule_split(cs@.take(k as int)) == Seq::new(
                texts.len() as nat,
                |x: int| RunModel { text: texts@[x]@, layers: if rules@[x] { seq![Layer::Rule] } else { Seq::empty() } },
            ),
        decreases cs.len() - k,
    {
        let ghost before = Seq::new(
            texts.len() as nat,
            |x: int| RunModel { text: texts@[x]@, layers: if rules@[x] { seq![Layer::Rule] } else { Seq::empty() } },
        );
        let c = cs[k];
        let r = is_diagram_rule(c);
        assert(cs@.take(k + 1).drop_last() =~= cs@.take(k as int));
        assert(cs@.take(k + 1).last() == c);
        let n = texts.len();
        let ghost l: Seq<Layer> = if r { seq![Layer::Rule] } else { Seq::empty() };
        proof {
            if n > 0 {
                let lb: Seq<Layer> = if rules@[n - 1] { seq![Layer::Rule] } else { Seq::empty() };
                assert(before.last().layers == lb);
                if rules@[n - 1] != r {
                    assert(lb.len() != l.len());
                }
            }
        }
        if n > 0 && rules[n - 1] == r {
            let mut t = texts.pop().unwrap();
            t.push(c);
            texts.push(t);
            assert(Seq::new(
                texts.len() as nat,
                |x: int| RunModel { text: texts@[x]@, layers: if rules@[x] { seq![Layer::Rule] } else { Seq::empty() } },
            ) =~= before.update(n - 1, RunModel { text: before.last().text.push(c), layers: before.last().layers }));
        } else {
            let mut fresh: Vec<char> = Vec::new();
            fresh.push(c);
            assert(fresh@ =~= seq![c]);
            texts.push(fresh);
            rules.push(r);
            assert(Seq::new(
                texts.len() as nat,
                |x: int| RunModel { text: texts@[x]@, layers: if rules@[x] { seq![Layer::Rule] } else { Seq::empty() } },
            ) =~= before.push(RunModel { text: seq![c], layers: if r { seq![Layer::Rule] } else { Seq::empty() } }));
        }
        k += 1;
    }
    assert(cs@.take(cs.len() as int) =~= cs@);
    let ghost split = rule_split(cs@);
    let ghost head = cell_view(runs@);
    assert(head =~= seq![plain(repeated(' ', indent as int))]);
    let mut j: usize = 0;
    while j < texts.len()
        invariant
            j <= texts.len() == rules.len(),
            split == Seq::new(
                texts.len() as nat,
                |x: int| RunModel { text: texts@[x]@, layers: if rules@[x] { seq![Layer::Rule] } else { Seq::empty() } },
            ),
            cell_view(runs@) == head + split.take(j as int),
        decreases texts.len() - j,
    {
        let layers = if rules[j] { one_look(Layer::Rule) } else { no_look() };
        let r = Run { text: string_of(texts[j].as_slice()), layers };
        let ghost rv = r@;
        let ghost prev = cell_view(runs@);
        runs.push(r);
        assert(cell_view(runs@) =~= prev.push(rv));
        assert(split.take(j + 1) =~= split.take(j as int).push(split[j as int]));
        j += 1;
    }
    assert(split.take(texts.len() as int) =~= split);
    runs
}

} // verus!
